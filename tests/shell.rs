use palapelify::{Repl, ReplCommand};

#[test]
fn is_expected() {
    let repl = Repl::new();
    assert!(!repl.exiting());
    assert_eq!(repl.history_len(), 0);
}

#[test]
fn exit_is_parsed_after_trim_and_lowercase() {
    assert_eq!(ReplCommand::parse("exit"), Ok(ReplCommand::Exit));
    assert_eq!(ReplCommand::parse("  EXIT \n"), Ok(ReplCommand::Exit));
}

#[test]
fn unknown_commands_are_named() {
    assert_eq!(ReplCommand::parse("exit now\n"), Err("unknown command exit now".to_string()));
    assert_eq!(ReplCommand::parse("  Fetch  "), Err("unknown command fetch".to_string()));
    assert_eq!(ReplCommand::parse(""), Err("unknown command ".to_string()));
}

#[test]
fn from_lowered_splits_on_white_space() {
    assert_eq!(ReplCommand::from_lowered("exit"), Ok(ReplCommand::Exit));
    assert_eq!(ReplCommand::from_lowered("ex it"), Err("unknown command ex it".to_string()));
    assert_eq!(ReplCommand::from_lowered("EXIT"), Err("unknown command EXIT".to_string()));
}

#[test]
fn session_records_lines_and_ends_on_exit() {
    let mut repl = Repl::new();
    assert!(repl.prompt());
    assert!(!repl.prompt());
    assert!(repl.command("help").is_err());
    assert!(!repl.exiting());
    assert_eq!(repl.command("Exit\n"), Ok(ReplCommand::Exit));
    assert!(repl.exiting());
    assert_eq!(repl.history_len(), 2);
}

#[test]
fn end_of_input_ends_the_session() {
    let mut repl = Repl::new();
    repl.end_of_input();
    assert!(repl.exiting());
    assert_eq!(repl.history_len(), 0);
}
