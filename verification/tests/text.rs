use arguably::model::TokenClass;
use arguably::parser::classify_token;
use arguably::text::{
    count_dashes, find_char, is_ascii_digit, is_whitespace, same_text, split_words, trim,
};
use arguably::ArgStream;

#[test]
fn white_space_is_what_char_is_whitespace_says() {
    let mut code: u32 = 0;
    while code <= 0x10FFFF {
        if let Some(c) = char::from_u32(code) {
            assert_eq!(is_whitespace(c), c.is_whitespace(), "U+{:04X}", code);
        }
        code += 1;
    }
}

#[test]
fn digits_are_ascii_digits() {
    let mut code: u32 = 0;
    while code <= 0x10FFFF {
        if let Some(c) = char::from_u32(code) {
            assert_eq!(is_ascii_digit(c), c.is_ascii_digit(), "U+{:04X}", code);
        }
        code += 1;
    }
}

#[test]
fn trim_is_what_str_trim_says() {
    for s in [
        "",
        " ",
        "\n\t ",
        "a",
        " a",
        "a ",
        "  a b  ",
        "\u{3000}x\u{2003}y\u{00a0}",
        "\u{feff}x",
        "é ",
        "\r\nUsage: foo\r\n  bar\r\n",
    ] {
        assert_eq!(trim(s), s.trim(), "{:?}", s);
    }
}

#[test]
fn split_words_is_what_split_whitespace_says() {
    for s in [
        "",
        " ",
        "a",
        "verbose v",
        "  verbose   v  ",
        "a\tb\nc\r\nd",
        "é\u{3000}ü\u{00a0}ö",
        "one\u{200b}two three",
        " x",
        "x ",
    ] {
        let expected: Vec<String> = s.split_whitespace().map(|w| w.to_string()).collect();
        assert_eq!(split_words(s), expected, "{:?}", s);
    }
}

#[test]
fn find_char_gives_the_first_position_in_characters() {
    assert_eq!(find_char("", '='), None);
    assert_eq!(find_char("abc", '='), None);
    assert_eq!(find_char("=", '='), Some(0));
    assert_eq!(find_char("a=b=c", '='), Some(1));
    assert_eq!(find_char("éé=b", '='), Some(2));
}

#[test]
fn count_dashes_counts_the_leading_ones() {
    assert_eq!(count_dashes(""), 0);
    assert_eq!(count_dashes("a-"), 0);
    assert_eq!(count_dashes("-a-"), 1);
    assert_eq!(count_dashes("--"), 2);
    assert_eq!(count_dashes("---a"), 3);
}

#[test]
fn same_text_compares_characters() {
    assert_eq!(same_text("", ""), true);
    assert_eq!(same_text("help", "help"), true);
    assert_eq!(same_text("help", "helps"), false);
    assert_eq!(same_text("help", "hels"), false);
    assert_eq!(same_text("é", "e"), false);
}

#[test]
fn token_classes() {
    assert_eq!(classify_token("--"), TokenClass::EndOfOptions);
    assert_eq!(classify_token("--name"), TokenClass::Long);
    assert_eq!(classify_token("---"), TokenClass::Long);
    assert_eq!(classify_token("--4"), TokenClass::Long);
    assert_eq!(classify_token("--name=value"), TokenClass::Inline);
    assert_eq!(classify_token("--="), TokenClass::Inline);
    assert_eq!(classify_token("-n=value"), TokenClass::Inline);
    assert_eq!(classify_token("-="), TokenClass::Inline);
    assert_eq!(classify_token("-abc"), TokenClass::Cluster);
    assert_eq!(classify_token("-a"), TokenClass::Cluster);
    assert_eq!(classify_token("-a-"), TokenClass::Cluster);
    assert_eq!(classify_token("-"), TokenClass::Literal);
    assert_eq!(classify_token("-0"), TokenClass::Literal);
    assert_eq!(classify_token("-9=x"), TokenClass::Literal);
    assert_eq!(classify_token("-42"), TokenClass::Literal);
    assert_eq!(classify_token("-\u{0663}"), TokenClass::Cluster);
    assert_eq!(classify_token(""), TokenClass::Word);
    assert_eq!(classify_token("word"), TokenClass::Word);
    assert_eq!(classify_token("a=b"), TokenClass::Word);
    assert_eq!(classify_token("a--"), TokenClass::Word);
    assert_eq!(classify_token("42"), TokenClass::Word);
}

#[test]
fn stream_hands_out_each_token_once() {
    let mut stream = ArgStream::new(vec!["a".to_string(), "".to_string(), "c".to_string()]);
    assert_eq!(stream.has_next(), true);
    assert_eq!(stream.next(), "a");
    assert_eq!(stream.has_next(), true);
    assert_eq!(stream.next(), "");
    assert_eq!(stream.next(), "c");
    assert_eq!(stream.has_next(), false);
    let stream = ArgStream::new(Vec::new());
    assert_eq!(stream.has_next(), false);
}

#[test]
fn stream_is_shared_between_parsers() {
    let tokens = ["skipped", "a", "--bogus", "b"];
    let mut stream = ArgStream::new(tokens.iter().map(|t| t.to_string()).collect());
    assert_eq!(stream.next(), "skipped");
    let mut first = arguably::ArgParser::new();
    let result = first.parse_argstream(&mut stream);
    assert!(result.is_err());
    assert_eq!(first.args, vec!["a"]);
    assert_eq!(stream.has_next(), true);
    let mut second = arguably::ArgParser::new();
    let result = second.parse_argstream(&mut stream);
    assert!(result.is_ok());
    assert_eq!(second.args, vec!["b"]);
    assert_eq!(stream.has_next(), false);
}
