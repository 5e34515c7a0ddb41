use arguably::{ArgParser, Error, Outcome};

fn shown(result: Result<Outcome, Error>) -> String {
    match result {
        Ok(Outcome::Show(text)) => text,
        other => panic!("expected a text to show, got {:?}", other),
    }
}

fn detail_of_bad_name(result: Result<Outcome, Error>) -> String {
    match result {
        Err(Error::BadName(detail)) => detail,
        other => panic!("expected an unregistered name, got {:?}", other),
    }
}

fn detail_of_missing_value(result: Result<Outcome, Error>) -> String {
    match result {
        Err(Error::MissingValue(detail)) => detail,
        other => panic!("expected a missing value, got {:?}", other),
    }
}

#[test]
fn condensed_flags_and_long_flag_add_up() {
    let mut parser = ArgParser::new().flag("flag f");
    let result = parser.parse_vec(vec!["-fff", "--flag"]);
    assert!(matches!(result, Ok(Outcome::Parsed)));
    assert_eq!(parser.count("flag"), 4);
    assert_eq!(parser.count("f"), 4);
    assert_eq!(parser.found("flag"), true);
    assert_eq!(parser.args.len(), 0);
}

#[test]
fn option_values_keep_their_order() {
    let mut parser = ArgParser::new().option("opt o", "default");
    let result = parser.parse_vec(vec!["-o", "foo", "--opt", "bar"]);
    assert!(matches!(result, Ok(Outcome::Parsed)));
    assert_eq!(parser.count("opt"), 2);
    assert_eq!(parser.values("opt"), vec!["foo", "bar"]);
    assert_eq!(parser.values("o"), vec!["foo", "bar"]);
    assert_eq!(parser.value("opt"), "bar");
}

#[test]
fn value_is_last_of_values() {
    let mut parser = ArgParser::new().option("opt o", "default");
    let _ = parser.parse_vec(vec!["--opt=a", "-o", "b", "--opt", "c", "-o=d"]);
    let all = parser.values("opt");
    assert_eq!(all, vec!["a", "b", "c", "d"]);
    assert_eq!(parser.value("opt"), all[all.len() - 1]);
    assert_eq!(parser.count("opt"), 4);
}

#[test]
fn inline_value_then_end_of_options() {
    let mut parser = ArgParser::new().option("opt o", "default");
    let result = parser.parse_vec(vec!["--opt=hello", "--", "--opt=ignored"]);
    assert!(matches!(result, Ok(Outcome::Parsed)));
    assert_eq!(parser.values("opt"), vec!["hello"]);
    assert_eq!(parser.args, vec!["--opt=ignored"]);
}

#[test]
fn everything_after_end_of_options_is_positional() {
    let mut parser = ArgParser::new().flag("flag f").option("opt o", "").command(
        "cmd",
        ArgParser::new(),
    );
    let result = parser.parse_vec(vec!["-f", "--", "-f", "--flag", "--", "-", "cmd", "--opt", "-9", "--bogus"]);
    assert!(matches!(result, Ok(Outcome::Parsed)));
    assert_eq!(parser.count("flag"), 1);
    assert_eq!(parser.count("opt"), 0);
    assert_eq!(
        parser.args,
        vec!["-f", "--flag", "--", "-", "cmd", "--opt", "-9", "--bogus"]
    );
    assert!(parser.cmd_name.is_none());
}

#[test]
fn missing_value_names_the_long_option() {
    let mut parser = ArgParser::new().option("opt o", "default");
    let detail = detail_of_missing_value(parser.parse_vec(vec!["--opt"]));
    assert_eq!(detail, "missing value for --opt");
    assert_eq!(parser.count("opt"), 0);
}

#[test]
fn missing_value_names_the_short_option() {
    let mut parser = ArgParser::new().option("opt o", "default");
    let detail = detail_of_missing_value(parser.parse_vec(vec!["-o"]));
    assert_eq!(detail, "missing value for -o");
}

#[test]
fn missing_value_names_the_character_in_a_cluster() {
    let mut parser = ArgParser::new().flag("flag f").option("opt o", "default");
    let detail = detail_of_missing_value(parser.parse_vec(vec!["-fo"]));
    assert_eq!(detail, "missing value for 'o' in -fo");
    assert_eq!(parser.count("flag"), 1);
}

#[test]
fn missing_value_after_equals() {
    let mut parser = ArgParser::new().option("opt o", "default");
    let detail = detail_of_missing_value(parser.parse_vec(vec!["--opt="]));
    assert_eq!(detail, "missing value for --opt");
    let mut parser = ArgParser::new().option("opt o", "default");
    let detail = detail_of_missing_value(parser.parse_vec(vec!["-o="]));
    assert_eq!(detail, "missing value for -o");
}

#[test]
fn unknown_long_name() {
    let mut parser = ArgParser::new().flag("flag f");
    let detail = detail_of_bad_name(parser.parse_vec(vec!["--flag", "--bogus", "--flag"]));
    assert_eq!(detail, "--bogus is not a recognised flag or option name");
    assert_eq!(parser.count("flag"), 1);
}

#[test]
fn unknown_short_name() {
    let mut parser = ArgParser::new().flag("flag f");
    let detail = detail_of_bad_name(parser.parse_vec(vec!["-x"]));
    assert_eq!(detail, "-x is not a recognised flag or option name");
}

#[test]
fn unknown_character_in_a_cluster() {
    let mut parser = ArgParser::new().flag("flag f");
    let detail = detail_of_bad_name(parser.parse_vec(vec!["-fxf"]));
    assert_eq!(detail, "'x' in -fxf is not a recognised flag or option name");
    assert_eq!(parser.count("flag"), 1);
}

#[test]
fn unknown_name_before_equals() {
    let mut parser = ArgParser::new().option("opt o", "default");
    let detail = detail_of_bad_name(parser.parse_vec(vec!["--name=value"]));
    assert_eq!(detail, "--name is not a recognised option name");
    let mut parser = ArgParser::new().flag("flag f");
    let detail = detail_of_bad_name(parser.parse_vec(vec!["--flag=yes"]));
    assert_eq!(detail, "--flag is not a recognised option name");
    let mut parser = ArgParser::new();
    let detail = detail_of_bad_name(parser.parse_vec(vec!["--=x"]));
    assert_eq!(detail, "-- is not a recognised option name");
}

#[test]
fn literals_are_positional() {
    let mut parser = ArgParser::new();
    let result = parser.parse_vec(vec!["-", "-42", "plain"]);
    assert!(matches!(result, Ok(Outcome::Parsed)));
    assert_eq!(parser.args, vec!["-", "-42", "plain"]);
}

#[test]
fn literals_are_positional_whatever_is_registered() {
    let mut parser = ArgParser::new().flag("4 2 . 5").option("1 =", "");
    let result = parser.parse_vec(vec!["-42", "-", "-1=3", "-0.5", "-9x"]);
    assert!(matches!(result, Ok(Outcome::Parsed)));
    assert_eq!(parser.args, vec!["-42", "-", "-1=3", "-0.5", "-9x"]);
    assert_eq!(parser.count("4"), 0);
    assert_eq!(parser.count("1"), 0);
}

#[test]
fn only_ascii_digits_make_a_literal() {
    let mut parser = ArgParser::new();
    let detail = detail_of_bad_name(parser.parse_vec(vec!["-\u{0663}"]));
    assert_eq!(detail, "-\u{0663} is not a recognised flag or option name");
    assert_eq!(parser.args.len(), 0);
}

#[test]
fn positionals_keep_input_order() {
    let mut parser = ArgParser::new().flag("flag f").option("opt o", "");
    let result = parser.parse_vec(vec!["a", "-f", "b", "--opt", "c", "d", "-", "-o=e", "-7", "f"]);
    assert!(matches!(result, Ok(Outcome::Parsed)));
    assert_eq!(parser.args, vec!["a", "b", "d", "-", "-7", "f"]);
    assert_eq!(parser.arguments(), &vec!["a", "b", "d", "-", "-7", "f"]);
    assert_eq!(parser.values("opt"), vec!["c", "e"]);
    assert_eq!(parser.count("flag"), 1);
}

#[test]
fn option_value_is_taken_as_it_stands() {
    let mut parser = ArgParser::new().flag("flag f").option("opt o", "");
    let result = parser.parse_vec(vec!["--opt", "--flag", "-o", "--", "-o", "-"]);
    assert!(matches!(result, Ok(Outcome::Parsed)));
    assert_eq!(parser.values("opt"), vec!["--flag", "--", "-"]);
    assert_eq!(parser.count("flag"), 0);
    assert_eq!(parser.args.len(), 0);
}

#[test]
fn cluster_ends_with_an_option() {
    let mut parser = ArgParser::new().flag("a").flag("b").option("c", "");
    let result = parser.parse_vec(vec!["-abc", "value", "rest"]);
    assert!(matches!(result, Ok(Outcome::Parsed)));
    assert_eq!(parser.count("a"), 1);
    assert_eq!(parser.count("b"), 1);
    assert_eq!(parser.value("c"), "value");
    assert_eq!(parser.args, vec!["rest"]);
}

#[test]
fn cluster_with_two_options_takes_two_values() {
    let mut parser = ArgParser::new().option("a", "").option("b", "").flag("c");
    let result = parser.parse_vec(vec!["-acb", "one", "two", "three"]);
    assert!(matches!(result, Ok(Outcome::Parsed)));
    assert_eq!(parser.values("a"), vec!["one"]);
    assert_eq!(parser.values("b"), vec!["two"]);
    assert_eq!(parser.count("c"), 1);
    assert_eq!(parser.args, vec!["three"]);
}

#[test]
fn equals_splits_at_the_first_equals_sign() {
    let mut parser = ArgParser::new().option("opt o", "");
    let result = parser.parse_vec(vec!["--opt=a=b", "-o==", "---opt=c"]);
    assert!(matches!(result, Ok(Outcome::Parsed)));
    assert_eq!(parser.values("opt"), vec!["a=b", "=", "c"]);
}

#[test]
fn default_is_reported_until_a_value_comes() {
    let mut parser = ArgParser::new().option("opt o", "fallback").option("other", "");
    let _ = parser.parse_vec(vec!["--other", "x"]);
    assert_eq!(parser.value("opt"), "fallback");
    assert_eq!(parser.values("opt").len(), 0);
    assert_eq!(parser.count("opt"), 0);
    assert_eq!(parser.found("opt"), false);
    assert_eq!(parser.value("other"), "x");
    assert_eq!(parser.found("other"), true);
}

#[test]
fn a_name_that_is_flag_and_option_counts_as_flag() {
    let mut parser = ArgParser::new().option("both", "").flag("both");
    let result = parser.parse_vec(vec!["--both", "x", "--both=y"]);
    assert!(matches!(result, Ok(Outcome::Parsed)));
    assert_eq!(parser.count("both"), 1);
    assert_eq!(parser.values("both"), vec!["y"]);
    assert_eq!(parser.args, vec!["x"]);
    assert_eq!(parser.is_flag("both"), true);
    assert_eq!(parser.is_option("both"), true);
}

#[test]
fn long_help_shows_trimmed_helptext() {
    let mut parser = ArgParser::new().helptext("  \n Usage: foobar...\t\n").flag("flag f");
    let text = shown(parser.parse_vec(vec!["-f", "--help", "-f"]));
    assert_eq!(text, "Usage: foobar...");
    assert_eq!(parser.count("flag"), 1);
}

#[test]
fn short_help_shows_helptext() {
    let mut parser = ArgParser::new().helptext("Usage").flag("flag f");
    assert_eq!(shown(parser.parse_vec(vec!["-fh"])), "Usage");
    assert_eq!(parser.count("flag"), 1);
}

#[test]
fn version_shows_trimmed_version() {
    let mut parser = ArgParser::new().version(" 1.0 ");
    assert_eq!(shown(parser.parse_vec(vec!["--version"])), "1.0");
    let mut parser = ArgParser::new().version("\u{3000}2.0\u{00a0}");
    assert_eq!(shown(parser.parse_vec(vec!["-v"])), "2.0");
}

#[test]
fn help_without_helptext_is_an_unknown_name() {
    let mut parser = ArgParser::new().version("1.0");
    let detail = detail_of_bad_name(parser.parse_vec(vec!["--help"]));
    assert_eq!(detail, "--help is not a recognised flag or option name");
    let mut parser = ArgParser::new().helptext("Usage");
    let detail = detail_of_bad_name(parser.parse_vec(vec!["-v"]));
    assert_eq!(detail, "-v is not a recognised flag or option name");
}

#[test]
fn registered_names_come_before_help_and_version() {
    let mut parser = ArgParser::new().helptext("Usage").version("1.0").flag("h help").option(
        "v version",
        "",
    );
    let result = parser.parse_vec(vec!["-h", "--help", "-v", "a", "--version", "b"]);
    assert!(matches!(result, Ok(Outcome::Parsed)));
    assert_eq!(parser.count("h"), 2);
    assert_eq!(parser.values("v"), vec!["a", "b"]);
}

#[test]
fn what_was_found_before_an_error_is_kept() {
    let mut parser = ArgParser::new().flag("flag f").option("opt o", "");
    let result = parser.parse_vec(vec!["one", "-f", "--opt", "x", "--bogus", "two", "-f"]);
    assert!(matches!(result, Err(Error::BadName(_))));
    assert_eq!(parser.count("flag"), 1);
    assert_eq!(parser.values("opt"), vec!["x"]);
    assert_eq!(parser.args, vec!["one"]);
}

#[test]
fn identical_registration_gives_identical_state() {
    let make = || ArgParser::new().flag("flag f").option("opt o", "d");
    let mut one = make();
    let mut two = make();
    let _ = one.parse_vec(vec!["-f", "--opt", "x", "p"]);
    let _ = two.parse_vec(vec!["-f", "--opt", "x", "p"]);
    assert_eq!(one.count("flag"), two.count("flag"));
    assert_eq!(one.values("opt"), two.values("opt"));
    assert_eq!(one.args, two.args);
}

#[test]
fn non_ascii_names_and_values() {
    let mut parser = ArgParser::new().flag("größe é").option("名前 名", "");
    let result = parser.parse_vec(vec!["--größe", "-éé", "--名前=値", "-名", "ほか", "残り"]);
    assert!(matches!(result, Ok(Outcome::Parsed)));
    assert_eq!(parser.count("größe"), 3);
    assert_eq!(parser.values("名"), vec!["値", "ほか"]);
    assert_eq!(parser.args, vec!["残り"]);
}

#[test]
fn empty_token_is_positional() {
    let mut parser = ArgParser::new();
    let result = parser.parse_vec(vec!["", "a", ""]);
    assert!(matches!(result, Ok(Outcome::Parsed)));
    assert_eq!(parser.args, vec!["", "a", ""]);
}

#[test]
fn room_and_budget() {
    let args = vec!["-ff", "cmd", "-x"];
    assert_eq!(arguably::parser::budget_of(&args), Some(8));
    assert_eq!(arguably::parser::budget_of(&vec![]), Some(0));
    assert_eq!(arguably::parser::budget_of(&vec!["é", "", "--"]), Some(3));

    let mut parser = ArgParser::new().flag("flag f");
    assert_eq!(parser.has_room(0), true);
    assert_eq!(parser.has_room(usize::MAX), true);
    let _ = parser.parse_vec(vec!["-ff"]);
    assert_eq!(parser.count("flag"), 2);
    assert_eq!(parser.has_room(usize::MAX), false);
    assert_eq!(parser.has_room(usize::MAX - 1), false);
    assert_eq!(parser.has_room(usize::MAX - 2), true);
    assert_eq!(parser.has_room(0), true);

    assert_eq!(ArgParser::new().option("o", "").has_room(usize::MAX), true);

    let mut parser = ArgParser::new().command("cmd", ArgParser::new().flag("x"));
    assert_eq!(parser.has_room(usize::MAX), true);
    let _ = parser.parse_vec(vec!["cmd", "-x"]);
    assert_eq!(parser.has_room(usize::MAX), true);
    let inner = parser.command_parser().unwrap();
    assert_eq!(inner.count("x"), 1);
    assert_eq!(inner.has_room(usize::MAX - 1), true);
    assert_eq!(inner.has_room(usize::MAX), false);

    let mut used = ArgParser::new().flag("x");
    let _ = used.parse_vec(vec!["-x"]);
    let outer = ArgParser::new().flag("y").command("cmd", used);
    assert_eq!(outer.has_room(usize::MAX - 1), true);
    assert_eq!(outer.has_room(usize::MAX), false);
}

#[test]
fn end_of_options_splits_the_input() {
    let make = || ArgParser::new().flag("flag f").option("opt o", "d");
    let a = vec!["-f", "x", "--opt", "v", "-ff", "-o=w", "y"];
    let b = vec!["--", "--flag", "-f", "k=v", "--opt", "-", "--nope", "-9"];
    let mut q = make();
    assert!(matches!(q.parse_vec(a.clone()), Ok(Outcome::Parsed)));
    let mut all = a.clone();
    all.push("--");
    all.extend(b.iter());
    let mut p = make();
    assert!(matches!(p.parse_vec(all), Ok(Outcome::Parsed)));
    let mut expected: Vec<String> = q.args.clone();
    expected.extend(b.iter().map(|t| t.to_string()));
    assert_eq!(p.args, expected);
    assert_eq!(p.args, vec!["x", "y", "--", "--flag", "-f", "k=v", "--opt", "-", "--nope", "-9"]);
    assert_eq!(p.count("flag"), q.count("flag"));
    assert_eq!(p.count("flag"), 3);
    assert_eq!(p.values("opt"), q.values("opt"));
    assert_eq!(p.values("opt"), vec!["v", "w"]);
}

#[test]
fn flags_alone_are_counted_by_their_names() {
    let mut parser = ArgParser::new().flag("alpha a").flag("beta b x");
    let result = parser.parse_vec(vec!["--alpha", "-ab", "-bxa", "--x", "-a", "--beta", "-bbb"]);
    assert!(matches!(result, Ok(Outcome::Parsed)));
    for alias in ["alpha", "a"] {
        assert_eq!(parser.count(alias), 1 + 1 + 1 + 1);
    }
    for alias in ["beta", "b", "x"] {
        assert_eq!(parser.count(alias), 1 + 2 + 1 + 1 + 3);
    }
    assert_eq!(parser.args.len(), 0);
}

#[test]
fn options_alone_get_their_values_in_order() {
    let mut parser = ArgParser::new().option("one o", "d1").option("two t", "d2");
    let result = parser.parse_vec(vec![
        "--one=a", "-t", "b", "--two", "c", "-o=d", "--one", "e", "-t=f", "-o", "a",
    ]);
    assert!(matches!(result, Ok(Outcome::Parsed)));
    for alias in ["one", "o"] {
        assert_eq!(parser.values(alias), vec!["a", "d", "e", "a"]);
    }
    for alias in ["two", "t"] {
        assert_eq!(parser.values(alias), vec!["b", "c", "f"]);
    }
    assert_eq!(parser.args.len(), 0);
}

#[test]
fn positionals_are_the_tokens_of_positional_shape() {
    let mut parser = ArgParser::new().flag("f 4").flag("long");
    let tokens = vec!["a", "-f", "-", "-4", "--long", "b=c", "-1f", "-ff", "", "-0"];
    let result = parser.parse_vec(tokens.clone());
    assert!(matches!(result, Ok(Outcome::Parsed)));
    let expected: Vec<&str> = tokens
        .iter()
        .copied()
        .filter(|t| {
            !t.starts_with("-") || *t == "-" || t.chars().nth(1).unwrap().is_ascii_digit()
        })
        .collect();
    assert_eq!(parser.args, expected);
    assert_eq!(parser.args, vec!["a", "-", "-4", "b=c", "-1f", "", "-0"]);
    assert_eq!(parser.count("f"), 3);
}

#[test]
fn try_parse_vec_parses_where_there_is_room() {
    let mut parser = ArgParser::new().flag("flag f").option("opt o", "d");
    match parser.try_parse_vec(vec!["-ff", "--opt", "v", "x"]) {
        Some(Ok(Outcome::Parsed)) => {},
        other => panic!("expected a parse, got {:?}", other),
    }
    assert_eq!(parser.count("flag"), 2);
    assert_eq!(parser.value("opt"), "v");
    assert_eq!(parser.args, vec!["x"]);
    match parser.try_parse_vec(vec!["--nope"]) {
        Some(Err(Error::BadName(detail))) => {
            assert_eq!(detail, "--nope is not a recognised flag or option name")
        },
        other => panic!("expected an unregistered name, got {:?}", other),
    }
    match parser.try_parse_vec(vec![]) {
        Some(Ok(Outcome::Parsed)) => {},
        other => panic!("expected a parse, got {:?}", other),
    }
    assert_eq!(parser.count("flag"), 2);
}
