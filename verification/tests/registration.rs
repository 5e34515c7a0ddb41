use arguably::{ArgParser, Error, Outcome};

#[test]
fn aliases_are_separated_by_any_white_space() {
    let mut parser = ArgParser::new().flag("  one\ttwo\n three\u{3000}four\u{00a0}five  ");
    for name in ["one", "two", "three", "four", "five"] {
        assert_eq!(parser.is_flag(name), true);
    }
    assert_eq!(parser.is_flag(""), false);
    assert_eq!(parser.is_flag("one\ttwo"), false);
    let result = parser.parse_vec(vec!["--one", "--five", "--three"]);
    assert!(matches!(result, Ok(Outcome::Parsed)));
    assert_eq!(parser.count("two"), 3);
}

#[test]
fn empty_alias_list_registers_nothing_reachable() {
    let mut parser = ArgParser::new().flag("").option("   ", "d").flag("f");
    assert_eq!(parser.is_flag(""), false);
    assert_eq!(parser.is_option(""), false);
    assert_eq!(parser.is_option(" "), false);
    let result = parser.parse_vec(vec!["-f"]);
    assert!(matches!(result, Ok(Outcome::Parsed)));
    assert_eq!(parser.count("f"), 1);
}

#[test]
fn last_registration_of_an_alias_wins() {
    let mut parser = ArgParser::new().option("a shared", "first").option("b shared", "second");
    let result = parser.parse_vec(vec!["--shared", "x", "-a", "y"]);
    assert!(matches!(result, Ok(Outcome::Parsed)));
    assert_eq!(parser.values("b"), vec!["x"]);
    assert_eq!(parser.values("shared"), vec!["x"]);
    assert_eq!(parser.values("a"), vec!["y"]);
    assert_eq!(parser.value("shared"), "x");
}

#[test]
fn flags_and_options_have_separate_names() {
    let mut parser = ArgParser::new().flag("f").option("o", "d");
    assert_eq!(parser.is_flag("f"), true);
    assert_eq!(parser.is_option("f"), false);
    assert_eq!(parser.is_flag("o"), false);
    assert_eq!(parser.is_option("o"), true);
    assert_eq!(parser.is_flag("x"), false);
    assert_eq!(parser.is_option("x"), false);
    let _ = parser.parse_vec(vec![]);
    assert_eq!(parser.value("o"), "d");
}

#[test]
fn a_new_parser_has_found_nothing() {
    let parser = ArgParser::new();
    assert_eq!(parser.args.len(), 0);
    assert!(parser.cmd_name.is_none());
    assert!(parser.cmd_parser.is_none());
    assert_eq!(parser.cmd_help, false);
    assert_eq!(parser.arguments().len(), 0);
    assert_eq!(parser.is_flag("help"), false);
}

#[test]
fn error_messages() {
    assert_eq!(Error::BadName("x is wrong".to_string()).message(), "Error: x is wrong");
    assert_eq!(Error::MissingValue("no value".to_string()).message(), "Error: no value");
    assert_eq!(Error::MissingHelpArg.message(), "Error: missing argument for the help command");
    assert_eq!(Error::NotUnicode.message(), "Error: arguments are not valid unicode strings");
    assert_eq!(
        Error::missing_value("--opt").message(),
        "Error: missing value for --opt"
    );
    assert_eq!(
        Error::missing_value_in("o", "-fo").message(),
        "Error: missing value for 'o' in -fo"
    );
    assert_eq!(
        Error::unknown_name("--x").message(),
        "Error: --x is not a recognised flag or option name"
    );
    assert_eq!(
        Error::unknown_name_in("x", "-fx").message(),
        "Error: 'x' in -fx is not a recognised flag or option name"
    );
    assert_eq!(
        Error::unknown_option("--x").message(),
        "Error: --x is not a recognised option name"
    );
    assert_eq!(
        Error::unknown_command("x").message(),
        "Error: 'x' is not a recognised command name"
    );
}

#[test]
fn message_of_a_parse_error() {
    let mut parser = ArgParser::new().option("opt o", "default");
    match parser.parse_vec(vec!["--opt"]) {
        Err(err) => assert_eq!(err.message(), "Error: missing value for --opt"),
        Ok(outcome) => panic!("expected an error, got {:?}", outcome),
    }
}

#[test]
fn equals_handler_alone() {
    let mut parser = ArgParser::new().option("opt o", "");
    assert!(parser.handle_equals_opt("--opt=x").is_ok());
    assert!(parser.handle_equals_opt("o=y").is_ok());
    assert!(matches!(parser.handle_equals_opt("--opt="), Err(Error::MissingValue(_))));
    assert!(matches!(parser.handle_equals_opt("--nope=1"), Err(Error::BadName(_))));
    assert_eq!(parser.values("opt"), vec!["x", "y"]);
}

#[test]
fn help_command_switch_can_be_read() {
    let parser = ArgParser::new();
    assert_eq!(parser.help_command_enabled(), false);
    let parser = parser.command("cmd", ArgParser::new().helptext("about"));
    assert_eq!(parser.help_command_enabled(), true);
    assert_eq!(parser.help_command_enabled(), parser.cmd_help);
    let parser = parser.enable_help_command(false);
    assert_eq!(parser.help_command_enabled(), false);
    parser.tables_fit();
}
