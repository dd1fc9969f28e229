use webhook_commands::guards::{
    authorize_and_parse, check_guards, extract_commands, ExtractError, PermissionLevel, Webhook,
};
use webhook_commands::parser::BotCommand;

fn hook(author: &str, action: &str, comment: &str) -> Webhook {
    Webhook {
        author: author.to_string(),
        action: action.to_string(),
        comment: comment.to_string(),
    }
}

#[test]
fn bot_author_is_rejected_regardless_of_comment() {
    let bots = vec!["bot".to_string(), "bot2".to_string()];
    for comment in ["@bot cmd args", "", "no commands here"] {
        let webhook = hook("bot2", "created", comment);
        assert_eq!(
            extract_commands(&webhook, &bots, Ok(PermissionLevel::Admin)),
            Err(ExtractError::SelfTriggerRejected)
        );
    }
}

#[test]
fn deleted_action_is_ignored_even_with_permission() {
    let bots = vec!["bot".to_string()];
    let webhook = hook("alice", "deleted", "@bot cmd");
    assert_eq!(
        extract_commands(&webhook, &bots, Ok(PermissionLevel::Admin)),
        Err(ExtractError::EventIgnored)
    );
}

#[test]
fn insufficient_permission_yields_no_records() {
    let bots = vec!["bot".to_string()];
    let webhook = hook("alice", "created", "@bot cmd would run");
    assert_eq!(
        extract_commands(&webhook, &bots, Ok(PermissionLevel::Write)),
        Err(ExtractError::InsufficientPermission {
            level: PermissionLevel::Write,
            actor: "alice".to_string()
        })
    );
}

#[test]
fn permission_query_failure_propagates() {
    let bots = vec!["bot".to_string()];
    let webhook = hook("alice", "created", "@bot cmd");
    assert_eq!(
        extract_commands(&webhook, &bots, Err("network unreachable".to_string())),
        Err(ExtractError::PermissionQueryFailed(
            "network unreachable".to_string()
        ))
    );
}

#[test]
fn maintain_and_admin_pass_the_threshold() {
    let bots = vec!["bot".to_string()];
    let webhook = hook("alice", "created", "@bot deploy prod");
    let expected = || {
        vec![BotCommand {
            command: "deploy".to_string(),
            args: "prod".to_string(),
            bot: "bot".to_string(),
        }]
    };
    assert_eq!(
        extract_commands(&webhook, &bots, Ok(PermissionLevel::Maintain)),
        Ok(expected())
    );
    assert_eq!(
        extract_commands(&webhook, &bots, Ok(PermissionLevel::Admin)),
        Ok(expected())
    );
}

#[test]
fn guards_run_in_order() {
    // A bot author is reported before the deletion check fires.
    let bots = vec!["bot".to_string()];
    let webhook = hook("bot", "deleted", "@bot cmd");
    assert_eq!(
        check_guards(&webhook, &bots),
        Err(ExtractError::SelfTriggerRejected)
    );
}

#[test]
fn check_guards_passes_ordinary_events() {
    let bots = vec!["bot".to_string()];
    let webhook = hook("alice", "edited", "@bot cmd");
    assert_eq!(check_guards(&webhook, &bots), Ok(()));
}

#[test]
fn authorize_and_parse_checks_only_permission() {
    let bots = vec!["bot".to_string()];
    let webhook = hook("alice", "created", "@bot cmd");
    let r = authorize_and_parse(&webhook, &bots, PermissionLevel::Triage);
    assert!(matches!(
        r,
        Err(ExtractError::InsufficientPermission { .. })
    ));
    let ok = authorize_and_parse(&webhook, &bots, PermissionLevel::Admin).unwrap();
    assert_eq!(ok.len(), 1);
    assert_eq!(ok[0].command, "cmd");
    assert_eq!(ok[0].args, "");
    assert_eq!(ok[0].bot, "bot");
}

#[test]
fn permission_levels_are_totally_ordered() {
    let levels = [
        PermissionLevel::NoAccess,
        PermissionLevel::Read,
        PermissionLevel::Triage,
        PermissionLevel::Write,
        PermissionLevel::Maintain,
        PermissionLevel::Admin,
    ];
    for (i, a) in levels.iter().enumerate() {
        for (j, b) in levels.iter().enumerate() {
            assert_eq!(a.at_least(*b), i >= j);
        }
    }
}
