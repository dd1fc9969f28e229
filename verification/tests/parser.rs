use webhook_commands::parser::{parse_commands, BotCommand};

fn cmd(command: &str, args: &str, bot: &str) -> BotCommand {
    BotCommand {
        command: command.to_string(),
        args: args.to_string(),
        bot: bot.to_string(),
    }
}

#[test]
fn test_parse_commands() {
    assert_eq!(
        parse_commands(
            "@bot test_command test2\r\n@bot2 command2 3 4\r\n@bot2 command\r\nthis is a comment",
            &vec!["bot".to_string(), "bot2".to_string()]
        ),
        vec![
            BotCommand {
                command: "test_command".to_string(),
                args: "test2".to_string(),
                bot: "bot".to_string(),
            },
            BotCommand {
                command: "command2".to_string(),
                args: "3 4".to_string(),
                bot: "bot2".to_string()
            },
            BotCommand {
                command: "command".to_string(),
                args: "".to_string(),
                bot: "bot2".to_string()
            },
        ]
    );
}

#[test]
fn line_with_args_yields_command_and_args() {
    assert_eq!(
        parse_commands("@bot cmd arg1 arg2", &vec!["bot".to_string()]),
        vec![cmd("cmd", "arg1 arg2", "bot")]
    );
}

#[test]
fn line_without_args_yields_empty_args() {
    assert_eq!(
        parse_commands("@bot cmd", &vec!["bot".to_string()]),
        vec![cmd("cmd", "", "bot")]
    );
}

#[test]
fn nonmatching_lines_yield_nothing() {
    let bots = vec!["bot".to_string()];
    assert_eq!(parse_commands("just a comment", &bots), vec![]);
    assert_eq!(parse_commands("@other cmd", &bots), vec![]);
    // `@bot` with no space after the name does not match.
    assert_eq!(parse_commands("@bot", &bots), vec![]);
    // A longer name sharing the prefix does not match.
    assert_eq!(parse_commands("@botx cmd", &bots), vec![]);
}

#[test]
fn empty_text_yields_nothing() {
    assert_eq!(parse_commands("", &vec!["bot".to_string()]), vec![]);
}

#[test]
fn empty_bot_list_yields_nothing() {
    assert_eq!(parse_commands("@bot cmd", &vec![]), vec![]);
}

#[test]
fn double_space_puts_empty_command() {
    // The prefix consumes exactly one space; an immediately following space
    // ends an empty command token.
    assert_eq!(
        parse_commands("@bot  cmd", &vec!["bot".to_string()]),
        vec![cmd("", "cmd", "bot")]
    );
}

#[test]
fn lf_and_crlf_line_endings_are_equivalent() {
    let bots = vec!["bot".to_string()];
    assert_eq!(
        parse_commands("@bot a 1\n@bot b", &bots),
        parse_commands("@bot a 1\r\n@bot b", &bots)
    );
}

#[test]
fn records_are_grouped_by_bot_in_list_order() {
    // All records of the first listed bot come before any of the second,
    // even though the second bot's line stands earlier in the text.
    assert_eq!(
        parse_commands(
            "@second x\n@first y",
            &vec!["first".to_string(), "second".to_string()]
        ),
        vec![cmd("y", "", "first"), cmd("x", "", "second")]
    );
}

#[test]
fn trailing_newline_adds_no_line() {
    let bots = vec!["bot".to_string()];
    assert_eq!(
        parse_commands("@bot a\n", &bots),
        vec![cmd("a", "", "bot")]
    );
}

#[test]
fn only_the_carriage_return_before_the_newline_is_stripped() {
    let bots = vec!["bot".to_string()];
    // One `\r` belongs to the `\r\n` terminator; the other stays in the line.
    assert_eq!(
        parse_commands("@bot a\r\r\n", &bots),
        vec![cmd("a\r", "", "bot")]
    );
    // A lone `\r` does not end a line.
    assert_eq!(
        parse_commands("@bot a b\rc", &bots),
        vec![cmd("a", "b\rc", "bot")]
    );
}

#[test]
fn parse_is_deterministic() {
    let text = "@bot alpha one two\n@bot beta\nnoise";
    let bots = vec!["bot".to_string()];
    assert_eq!(parse_commands(text, &bots), parse_commands(text, &bots));
}
