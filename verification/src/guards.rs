//! Guard checks that precede command extraction.
//!
//! An event is processed only if its author is not itself a recognized bot,
//! the action is not a deletion, and the author's repository permission is at
//! least [`PermissionLevel::Maintain`]. The guards run in that order and the
//! first failure wins; the permission lookup itself is asynchronous I/O and
//! stays outside this crate, so the functions here take its outcome as an
//! argument.

use vstd::prelude::*;

use crate::parser::{parse_commands, parse_commands_spec, str_eq, BotCommand};

verus! {

/// An inbound comment event: who wrote it, what happened, and the text.
#[derive(Debug, Clone)]
pub struct Webhook {
    pub author: String,
    pub action: String,
    pub comment: String,
}

/// Repository permission tiers, in strictly increasing order of authority.
#[derive(Debug, Clone, Copy, PartialEq, Eq, Structural)]
pub enum PermissionLevel {
    NoAccess,
    Read,
    Triage,
    Write,
    Maintain,
    Admin,
}

impl PermissionLevel {
    /// The position of this level in the total order, starting at zero.
    pub open spec fn rank(self) -> nat {
        match self {
            PermissionLevel::NoAccess => 0,
            PermissionLevel::Read => 1,
            PermissionLevel::Triage => 2,
            PermissionLevel::Write => 3,
            PermissionLevel::Maintain => 4,
            PermissionLevel::Admin => 5,
        }
    }

    /// Whether this level grants at least the authority of `minimum`.
    pub fn at_least(self, minimum: Self) -> (r: bool)
        ensures
            r == (self.rank() >= minimum.rank()),
    {
        self.rank_value() >= minimum.rank_value()
    }

    fn rank_value(self) -> (r: u8)
        ensures
            r as nat == self.rank(),
    {
        match self {
            PermissionLevel::NoAccess => 0,
            PermissionLevel::Read => 1,
            PermissionLevel::Triage => 2,
            PermissionLevel::Write => 3,
            PermissionLevel::Maintain => 4,
            PermissionLevel::Admin => 5,
        }
    }
}

/// Whether `level` clears the fixed threshold for running commands.
pub open spec fn sufficient_permission(level: PermissionLevel) -> bool {
    level.rank() >= PermissionLevel::Maintain.rank()
}

/// Why an event was rejected; each variant names the guard that failed.
#[derive(Debug, PartialEq)]
pub enum ExtractError {
    /// The author is itself a recognized bot.
    SelfTriggerRejected,
    /// The triggering action was a deletion.
    EventIgnored,
    /// The external permission lookup failed; the message is passed through.
    PermissionQueryFailed(String),
    /// The author's permission level is below the required minimum.
    InsufficientPermission { level: PermissionLevel, actor: String },
}

/// Whether `name` occurs in the bot list (by character content).
pub open spec fn is_recognized_bot(bots: Seq<Seq<char>>, name: Seq<char>) -> bool {
    bots.contains(name)
}

fn bots_contain(bots: &Vec<String>, name: &String) -> (r: bool)
    ensures
        r == is_recognized_bot(bots.deep_view(), name@),
{
    let mut i: usize = 0;
    while i < bots.len()
        invariant
            i <= bots.len(),
            forall|k: int| 0 <= k < i ==> bots.deep_view()[k] != name@,
        decreases bots.len() - i,
    {
        if str_eq(bots[i].as_str(), name.as_str()) {
            proof {
                assert(bots.deep_view()[i as int] == name@);
            }
            return true;
        }
        i += 1;
    }
    proof {
        assert(!bots.deep_view().contains(name@));
    }
    false
}

/// The two synchronous guards: the author must not be a recognized bot and
/// the action must not be a deletion. Runs before any permission lookup.
pub fn check_guards(webhook: &Webhook, bots: &Vec<String>) -> (r: Result<(), ExtractError>)
    ensures
        r is Ok <==> (!is_recognized_bot(bots.deep_view(), webhook.author@) && webhook.action@
            != "deleted"@),
        is_recognized_bot(bots.deep_view(), webhook.author@) ==> r == Result::<(),
            ExtractError,
        >::Err(ExtractError::SelfTriggerRejected),
        !is_recognized_bot(bots.deep_view(), webhook.author@) && webhook.action@ == "deleted"@
            ==> r == Result::<(), ExtractError>::Err(ExtractError::EventIgnored),
{
    if bots_contain(bots, &webhook.author) {
        return Err(ExtractError::SelfTriggerRejected);
    }
    if str_eq(webhook.action.as_str(), "deleted") {
        return Err(ExtractError::EventIgnored);
    }
    Ok(())
}

/// The permission guard followed by the parse: with `Maintain` or better the
/// comment is parsed and the records returned; below it the call fails and no
/// record is produced.
pub fn authorize_and_parse(webhook: &Webhook, bots: &Vec<String>, level: PermissionLevel) -> (r:
    Result<Vec<BotCommand>, ExtractError>)
    ensures
        sufficient_permission(level) ==> (r matches Ok(cmds) && cmds.deep_view()
            == parse_commands_spec(webhook.comment@, bots.deep_view())),
        !sufficient_permission(level) ==> (r matches Err(e) && (e matches
            ExtractError::InsufficientPermission { level: l, actor } && l == level && actor@
            == webhook.author@)),
{
    if !level.at_least(PermissionLevel::Maintain) {
        return Err(ExtractError::InsufficientPermission { level, actor: webhook.author.clone() });
    }
    Ok(parse_commands(webhook.comment.as_str(), bots))
}

/// The whole decision: guards in order, then the parse. `permission` is the
/// outcome of the external permission lookup for the author, consulted only
/// when both synchronous guards pass.
pub fn extract_commands(
    webhook: &Webhook,
    bots: &Vec<String>,
    permission: Result<PermissionLevel, String>,
) -> (r: Result<Vec<BotCommand>, ExtractError>)
    ensures
        is_recognized_bot(bots.deep_view(), webhook.author@) ==> r == Result::<
            Vec<BotCommand>,
            ExtractError,
        >::Err(ExtractError::SelfTriggerRejected),
        !is_recognized_bot(bots.deep_view(), webhook.author@) && webhook.action@ == "deleted"@
            ==> r == Result::<Vec<BotCommand>, ExtractError>::Err(ExtractError::EventIgnored),
        !is_recognized_bot(bots.deep_view(), webhook.author@) && webhook.action@ != "deleted"@
            ==> match permission {
            Err(m) => r == Result::<Vec<BotCommand>, ExtractError>::Err(
                ExtractError::PermissionQueryFailed(m),
            ),
            Ok(level) => {
                &&& sufficient_permission(level) ==> (r matches Ok(cmds) && cmds.deep_view()
                    == parse_commands_spec(webhook.comment@, bots.deep_view()))
                &&& !sufficient_permission(level) ==> (r matches Err(e) && (e matches
                    ExtractError::InsufficientPermission { level: l, actor } && l == level
                    && actor@ == webhook.author@))
            },
        },
{
    check_guards(webhook, bots)?;
    match permission {
        Err(message) => Err(ExtractError::PermissionQueryFailed(message)),
        Ok(level) => authorize_and_parse(webhook, bots, level),
    }
}

} // verus!
