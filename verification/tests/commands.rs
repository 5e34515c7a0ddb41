use arguably::{ArgParser, Error, Outcome};
use std::cell::RefCell;
use std::rc::Rc;

#[test]
fn command_gets_the_rest_of_the_input() {
    let mut parser = ArgParser::new().flag("x").command("cmd", ArgParser::new().flag("x"));
    let result = parser.parse_vec(vec!["cmd", "-x", "pos"]);
    assert!(matches!(result, Ok(Outcome::Parsed)));
    assert_eq!(parser.cmd_name.as_deref(), Some("cmd"));
    assert_eq!(parser.command_name().map(|name| name.as_str()), Some("cmd"));
    assert_eq!(parser.args.len(), 0);
    assert_eq!(parser.count("x"), 0);
    let inner = parser.cmd_parser.as_ref().unwrap();
    assert_eq!(inner.count("x"), 1);
    assert_eq!(inner.args, vec!["pos"]);
    let same = parser.command_parser().unwrap();
    assert_eq!(same.count("x"), 1);
}

#[test]
fn command_is_only_looked_for_in_the_first_token() {
    let mut parser = ArgParser::new().flag("x").command("cmd", ArgParser::new());
    let result = parser.parse_vec(vec!["other", "cmd", "-x"]);
    assert!(matches!(result, Ok(Outcome::Parsed)));
    assert!(parser.cmd_name.is_none());
    assert!(parser.cmd_parser.is_none());
    assert!(parser.command_name().is_none());
    assert!(parser.command_parser().is_none());
    assert_eq!(parser.args, vec!["other", "cmd"]);
    assert_eq!(parser.count("x"), 1);
    let mut parser = ArgParser::new().flag("x").command("cmd", ArgParser::new());
    let _ = parser.parse_vec(vec!["-x", "cmd"]);
    assert!(parser.cmd_name.is_none());
    assert_eq!(parser.args, vec!["cmd"]);
}

#[test]
fn command_aliases_lead_to_one_parser() {
    let make = || ArgParser::new().command("remove rm  del", ArgParser::new().flag("force f"));
    for alias in ["remove", "rm", "del"] {
        let mut parser = make();
        let result = parser.parse_vec(vec![alias, "-f"]);
        assert!(matches!(result, Ok(Outcome::Parsed)));
        assert_eq!(parser.cmd_name.as_deref(), Some(alias));
        assert_eq!(parser.cmd_parser.as_ref().unwrap().count("force"), 1);
    }
}

#[test]
fn nested_commands() {
    let mut parser = ArgParser::new().command(
        "outer",
        ArgParser::new().flag("a").command("inner", ArgParser::new().option("b", "")),
    );
    let result = parser.parse_vec(vec!["outer", "inner", "-b", "v", "tail"]);
    assert!(matches!(result, Ok(Outcome::Parsed)));
    let outer = parser.cmd_parser.as_ref().unwrap();
    assert_eq!(outer.cmd_name.as_deref(), Some("inner"));
    assert_eq!(outer.args.len(), 0);
    let inner = outer.cmd_parser.as_ref().unwrap();
    assert_eq!(inner.value("b"), "v");
    assert_eq!(inner.args, vec!["tail"]);
}

#[test]
fn callback_is_called_after_the_command_parsed() {
    let calls: Rc<RefCell<Vec<String>>> = Rc::new(RefCell::new(Vec::new()));
    let outer_calls = calls.clone();
    let inner_calls = calls.clone();
    let mut parser = ArgParser::new().command(
        "outer o",
        ArgParser::new()
            .flag("a")
            .callback(move |name, parser| {
                outer_calls.borrow_mut().push(format!("{}:{}", name, parser.count("a")));
            })
            .command(
                "inner",
                ArgParser::new().callback(move |name, parser| {
                    inner_calls.borrow_mut().push(format!("{}:{}", name, parser.args.len()));
                }),
            ),
    );
    let result = parser.parse_vec(vec!["o"]);
    assert!(matches!(result, Ok(Outcome::Parsed)));
    assert_eq!(*calls.borrow(), vec!["o:0"]);
}

#[test]
fn inner_callback_comes_before_outer_callback() {
    let calls: Rc<RefCell<Vec<String>>> = Rc::new(RefCell::new(Vec::new()));
    let outer_calls = calls.clone();
    let inner_calls = calls.clone();
    let mut parser = ArgParser::new().command(
        "outer",
        ArgParser::new()
            .callback(move |name, parser| {
                outer_calls.borrow_mut().push(format!("{}:{:?}", name, parser.cmd_name));
            })
            .command(
                "inner",
                ArgParser::new().callback(move |name, parser| {
                    inner_calls.borrow_mut().push(format!("{}:{}", name, parser.args.len()));
                }),
            ),
    );
    let result = parser.parse_vec(vec!["outer", "inner", "x", "y"]);
    assert!(matches!(result, Ok(Outcome::Parsed)));
    assert_eq!(*calls.borrow(), vec!["inner:2", "outer:Some(\"inner\")"]);
}

#[test]
fn callback_is_not_called_when_the_command_fails() {
    let calls: Rc<RefCell<Vec<String>>> = Rc::new(RefCell::new(Vec::new()));
    let seen = calls.clone();
    let mut parser = ArgParser::new().command(
        "cmd",
        ArgParser::new().callback(move |name, _| {
            seen.borrow_mut().push(name.to_string());
        }),
    );
    let result = parser.parse_vec(vec!["cmd", "--bogus"]);
    match result {
        Err(Error::BadName(detail)) => {
            assert_eq!(detail, "--bogus is not a recognised flag or option name")
        },
        other => panic!("expected an unregistered name, got {:?}", other),
    }
    assert_eq!(calls.borrow().len(), 0);
    assert!(parser.cmd_name.is_none());
    assert!(parser.cmd_parser.is_none());
}

#[test]
fn command_help_shows_the_commands_helptext() {
    let mut parser = ArgParser::new().helptext("top").command(
        "cmd",
        ArgParser::new().helptext("\n  about cmd  \n"),
    );
    assert_eq!(parser.cmd_help, true);
    match parser.parse_vec(vec!["help", "cmd", "more"]) {
        Ok(Outcome::Show(text)) => assert_eq!(text, "about cmd"),
        other => panic!("expected a text to show, got {:?}", other),
    }
    let mut parser = ArgParser::new().command("cmd", ArgParser::new().helptext("about cmd"));
    match parser.parse_vec(vec!["cmd", "--help"]) {
        Ok(Outcome::Show(text)) => assert_eq!(text, "about cmd"),
        other => panic!("expected a text to show, got {:?}", other),
    }
}

#[test]
fn command_help_without_an_argument() {
    let mut parser = ArgParser::new().command("cmd", ArgParser::new().helptext("about cmd"));
    let result = parser.parse_vec(vec!["help"]);
    assert!(matches!(result, Err(Error::MissingHelpArg)));
    assert_eq!(parser.args.len(), 0);
}

#[test]
fn command_help_for_an_unknown_command() {
    let mut parser = ArgParser::new().command("cmd", ArgParser::new().helptext("about cmd"));
    match parser.parse_vec(vec!["help", "nope"]) {
        Err(Error::BadName(detail)) => assert_eq!(detail, "'nope' is not a recognised command name"),
        other => panic!("expected an unregistered name, got {:?}", other),
    }
}

#[test]
fn command_help_can_be_switched_off_and_on() {
    let mut parser = ArgParser::new()
        .command("cmd", ArgParser::new().helptext("about cmd"))
        .enable_help_command(false);
    assert_eq!(parser.cmd_help, false);
    let result = parser.parse_vec(vec!["help", "cmd"]);
    assert!(matches!(result, Ok(Outcome::Parsed)));
    assert_eq!(parser.args, vec!["help", "cmd"]);

    let mut parser = ArgParser::new().command("cmd", ArgParser::new()).enable_help_command(true);
    match parser.parse_vec(vec!["help", "cmd"]) {
        Ok(Outcome::Show(text)) => assert_eq!(text, ""),
        other => panic!("expected a text to show, got {:?}", other),
    }
}

#[test]
fn command_help_is_off_without_helptext_and_only_first() {
    let mut parser = ArgParser::new().command("cmd", ArgParser::new());
    assert_eq!(parser.cmd_help, false);
    let _ = parser.parse_vec(vec!["help", "cmd"]);
    assert_eq!(parser.args, vec!["help", "cmd"]);

    let mut parser = ArgParser::new().command("cmd", ArgParser::new().helptext("about cmd"));
    let result = parser.parse_vec(vec!["x", "help", "cmd"]);
    assert!(matches!(result, Ok(Outcome::Parsed)));
    assert_eq!(parser.args, vec!["x", "help", "cmd"]);
}

#[test]
fn a_command_named_help_comes_before_the_help_command() {
    let mut parser = ArgParser::new()
        .command("help", ArgParser::new().helptext("own help"))
        .command("cmd", ArgParser::new().helptext("about cmd"));
    let result = parser.parse_vec(vec!["help", "cmd"]);
    assert!(matches!(result, Ok(Outcome::Parsed)));
    assert_eq!(parser.cmd_name.as_deref(), Some("help"));
    assert_eq!(parser.cmd_parser.as_ref().unwrap().args, vec!["cmd"]);
}

#[test]
fn end_of_options_inside_a_command() {
    let mut parser = ArgParser::new().command("cmd", ArgParser::new().flag("x"));
    let result = parser.parse_vec(vec!["cmd", "-x", "--", "-x", "cmd"]);
    assert!(matches!(result, Ok(Outcome::Parsed)));
    let inner = parser.cmd_parser.as_ref().unwrap();
    assert_eq!(inner.count("x"), 1);
    assert_eq!(inner.args, vec!["-x", "cmd"]);
    assert_eq!(parser.args.len(), 0);
}
