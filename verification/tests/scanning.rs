use std::io;

use lsdata::cursor::{accept, peek, read, CharStream};
use lsdata::scan::{read_iws, read_key_word, read_list_word, read_nws, read_run, read_word, CharClass};
use lsdata::string::read_string;
use lsdata::value::{
    read_key_part, read_key_path, read_list_part, read_list_value, read_value, read_value_part,
};
use lsdata::ParseError;

fn rest_of(stream: &mut CharStream) -> String {
    let mut rest = String::new();
    while let Some(c) = read(stream).unwrap() {
        rest.push(c);
    }
    rest
}

fn string_of(text: &str) -> Result<Option<String>, ParseError> {
    read_string(&mut CharStream::from_text(text))
}

#[test]
fn peek_shows_and_accept_takes() {
    let mut stream = CharStream::from_text("ab");
    assert_eq!(peek(&mut stream).unwrap(), Some('a'));
    assert_eq!(peek(&mut stream).unwrap(), Some('a'));
    assert_eq!(accept(&mut stream), 'a');
    assert_eq!(read(&mut stream).unwrap(), Some('b'));
    assert_eq!(peek(&mut stream).unwrap(), None);
    assert_eq!(read(&mut stream).unwrap(), None);
}

#[test]
fn failed_read_is_reported_once_and_taken() {
    let mut stream = CharStream::new(vec![
        Ok('a'),
        Err(io::Error::new(io::ErrorKind::InvalidData, "broken")),
        Ok('b'),
    ]);
    assert_eq!(read(&mut stream).unwrap(), Some('a'));
    match peek(&mut stream) {
        Err(ParseError::ReadFailure(cause)) => {
            assert_eq!(cause.kind(), io::ErrorKind::InvalidData)
        },
        other => panic!("{:?}", other),
    }
    assert_eq!(read(&mut stream).unwrap(), Some('b'));
}

#[test]
fn failed_read_ends_the_parse() {
    let stream = CharStream::new(vec![
        Ok('a'),
        Ok(' '),
        Err(io::Error::new(io::ErrorKind::UnexpectedEof, "cut")),
    ]);
    match lsdata::LSD::parse(stream) {
        Err(ParseError::ReadFailure(cause)) => {
            assert_eq!(cause.kind(), io::ErrorKind::UnexpectedEof)
        },
        other => panic!("{:?}", other),
    }
}

#[test]
fn blanks_are_spaces_and_tabs() {
    let mut stream = CharStream::from_text(" \t  x y");
    assert_eq!(read_iws(&mut stream).unwrap(), " \t  ");
    assert_eq!(read_iws(&mut stream).unwrap(), "");
    assert_eq!(rest_of(&mut stream), "x y");
}

#[test]
fn space_tells_whether_a_line_ended() {
    let mut stream = CharStream::from_text("  \t x");
    assert!(!read_nws(&mut stream).unwrap());
    assert_eq!(rest_of(&mut stream), "x");

    let mut stream = CharStream::from_text(" # one\r\n\t# two # still two\n  x # three");
    assert!(read_nws(&mut stream).unwrap());
    assert_eq!(rest_of(&mut stream), "x # three");

    let mut stream = CharStream::from_text("# no end of line");
    assert!(!read_nws(&mut stream).unwrap());
    assert_eq!(rest_of(&mut stream), "");
}

#[test]
fn runs_end_before_the_first_other_character() {
    let mut stream = CharStream::from_text("ab.c{d} e");
    assert_eq!(read_run(&mut stream, CharClass::KeyWord).unwrap(), "ab");
    assert_eq!(read_run(&mut stream, CharClass::ListWord).unwrap(), ".c");
    assert_eq!(read_run(&mut stream, CharClass::Word(Some('}'))).unwrap(), "{d");
    assert_eq!(read_run(&mut stream, CharClass::Word(None)).unwrap(), "}");
    assert_eq!(read_run(&mut stream, CharClass::Blank).unwrap(), " ");
    assert_eq!(rest_of(&mut stream), "e");
}

#[test]
fn words_end_at_space_quotes_and_comments() {
    for (text, word, rest) in [
        ("word rest", "word", " rest"),
        ("word\trest", "word", "\trest"),
        ("word\nrest", "word", "\nrest"),
        ("word\rrest", "word", "\rrest"),
        ("word\"rest", "word", "\"rest"),
        ("word'rest", "word", "'rest"),
        ("word#rest", "word", "#rest"),
        ("a.b{c}[d]", "a.b{c}[d]", ""),
    ] {
        let mut stream = CharStream::from_text(text);
        assert_eq!(read_word(&mut stream, None).unwrap().unwrap(), word);
        assert_eq!(rest_of(&mut stream), rest);
    }
    let mut stream = CharStream::from_text(" word");
    assert_eq!(read_word(&mut stream, None).unwrap(), None);
    assert_eq!(rest_of(&mut stream), " word");
    assert_eq!(read_word(&mut CharStream::from_text(""), None).unwrap(), None);
}

#[test]
fn the_ignored_character_ends_a_word() {
    let mut stream = CharStream::from_text("ab}c");
    assert_eq!(read_word(&mut stream, Some('}')).unwrap().unwrap(), "ab");
    assert_eq!(rest_of(&mut stream), "}c");
    let mut stream = CharStream::from_text("ab}c");
    assert_eq!(read_word(&mut stream, None).unwrap().unwrap(), "ab}c");
}

#[test]
fn key_words_end_at_structure() {
    for (text, word, rest) in [
        ("key.rest", "key", ".rest"),
        ("key{rest", "key", "{rest"),
        ("key}rest", "key", "}rest"),
        ("key[rest", "key", "[rest"),
        ("key]rest", "key", "]rest"),
    ] {
        let mut stream = CharStream::from_text(text);
        assert_eq!(read_key_word(&mut stream).unwrap().unwrap(), word);
        assert_eq!(rest_of(&mut stream), rest);
    }
    assert_eq!(read_key_word(&mut CharStream::from_text(".a")).unwrap(), None);
}

#[test]
fn list_words_hold_dots() {
    let mut stream = CharStream::from_text("1.2.3]");
    assert_eq!(read_list_word(&mut stream).unwrap().unwrap(), "1.2.3");
    assert_eq!(rest_of(&mut stream), "]");
    assert_eq!(read_list_word(&mut CharStream::from_text("{a")).unwrap(), None);
}

#[test]
fn strings_take_either_quote() {
    assert_eq!(string_of(r#""a 'b' c" d"#).unwrap().unwrap(), "a 'b' c");
    assert_eq!(string_of(r#"'a "b" c' d"#).unwrap().unwrap(), r#"a "b" c"#);
    assert_eq!(string_of(r#""""#).unwrap().unwrap(), "");
    assert_eq!(string_of("\"line\n# no comment\tin here\"").unwrap().unwrap(), "line\n# no comment\tin here");
    assert_eq!(string_of("word").unwrap(), None);
    assert_eq!(string_of("").unwrap(), None);
    let mut stream = CharStream::from_text(r#""in"out"#);
    assert_eq!(read_string(&mut stream).unwrap().unwrap(), "in");
    assert_eq!(rest_of(&mut stream), "out");
}

#[test]
fn one_letter_escapes() {
    assert_eq!(
        string_of(r#""\"\\\'\0\a\b\t\n\v\f\r""#).unwrap().unwrap(),
        "\"\\'\0\x07\x08\t\n\x0b\x0c\r"
    );
    assert_eq!(
        string_of(r#""\A\B\T\N\V\F\R""#).unwrap().unwrap(),
        "\x07\x08\t\n\x0b\x0c\r"
    );
    assert!(matches!(string_of(r#""\1""#), Err(ParseError::UnexpectedCharEscapeEnd)));
    assert!(matches!(string_of(r#""\"#), Err(ParseError::UnexpectedCharEscapeEnd)));
}

#[test]
fn byte_escapes_decode_utf8() {
    assert_eq!(string_of(r#""\x41""#).unwrap().unwrap(), "A");
    assert_eq!(string_of(r#""\X7a\x7A""#).unwrap().unwrap(), "zz");
    assert_eq!(string_of(r#""\x00""#).unwrap().unwrap(), "\0");
    // A first byte with two leading one bits asks for two more bytes.
    assert_eq!(string_of(r#""\xc3\xa9\x41""#).unwrap().unwrap(), "éA");
    assert_eq!(string_of(r#""\xC3\XA9\X41!""#).unwrap().unwrap(), "éA!");
    // A first byte with three leading one bits asks for three more bytes.
    assert_eq!(string_of(r#""\xe2\x82\xac\x21""#).unwrap().unwrap(), "€!");
    // A first byte with four leading one bits asks for four more bytes.
    assert_eq!(string_of(r#""\xf0\x9f\x98\x80\x2e""#).unwrap().unwrap(), "😀.");
}

#[test]
fn byte_escapes_that_are_not_utf8() {
    // A continuation byte cannot come first.
    assert!(matches!(string_of(r#""\x80\x41""#), Err(ParseError::UnexpectedCharInByteEscape)));
    // Two bytes encode one character; the third byte must stand alone.
    assert!(matches!(
        string_of(r#""\xc3\xa9\xa9""#),
        Err(ParseError::UnexpectedCharInByteEscape)
    ));
    assert!(matches!(string_of(r#""\xg0""#), Err(ParseError::UnexpectedCharInByteEscape)));
    assert!(matches!(string_of(r#""\x4""#), Err(ParseError::UnexpectedCharInByteEscape)));
    assert!(matches!(string_of(r#""\x4"#), Err(ParseError::UnexpectedStringEnd)));
    assert!(matches!(string_of(r#""\xc3\xa9""#), Err(ParseError::UnexpectedStringEnd)));
    assert!(matches!(
        string_of(r#""\xc3\ua9\x41""#),
        Err(ParseError::UnexpectedCharInByteEscape)
    ));
    assert!(matches!(
        string_of(r#""\xc3\xzz\x41""#),
        Err(ParseError::UnexpectedCharInByteEscape)
    ));
}

#[test]
fn unicode_escapes_decode_utf16() {
    assert_eq!(string_of(r#""\u0041""#).unwrap().unwrap(), "A");
    assert_eq!(string_of(r#""\U00e9\u20AC""#).unwrap().unwrap(), "é€");
    assert_eq!(string_of(r#""\ud7ff\ue000\uffff""#).unwrap().unwrap(), "\u{d7ff}\u{e000}\u{ffff}");
    assert_eq!(string_of(r#""\ud83d\ude00""#).unwrap().unwrap(), "😀");
    assert_eq!(string_of(r#""\ud800\udc00""#).unwrap().unwrap(), "\u{10000}");
    assert_eq!(string_of(r#""\uDBFF\UDFFF""#).unwrap().unwrap(), "\u{10ffff}");
}

#[test]
fn unicode_escapes_that_do_not_pair() {
    assert!(matches!(
        string_of(r#""\ud83d\u0041""#),
        Err(ParseError::UnexpectedCharInUnicodeEscape)
    ));
    assert!(matches!(
        string_of(r#""\ude00\ud83d""#),
        Err(ParseError::UnexpectedCharInUnicodeEscape)
    ));
    assert!(matches!(
        string_of(r#""\ud83d\x41..""#),
        Err(ParseError::UnexpectedCharInUnicodeEscape)
    ));
    assert!(matches!(string_of(r#""\u00g1""#), Err(ParseError::UnexpectedCharInUnicodeEscape)));
    assert!(matches!(string_of(r#""\u004""#), Err(ParseError::UnexpectedCharInUnicodeEscape)));
    assert!(matches!(string_of(r#""\u004"#), Err(ParseError::UnexpectedStringEnd)));
    assert!(matches!(string_of(r#""\ud83d\ude0"#), Err(ParseError::UnexpectedStringEnd)));
    assert!(matches!(string_of(r#""\ud83d"#), Err(ParseError::UnexpectedStringEnd)));
}

#[test]
fn value_parts_are_words_or_strings() {
    let mut stream = CharStream::from_text(r#"word"string""#);
    assert_eq!(read_value_part(&mut stream, None).unwrap().unwrap(), "word");
    assert_eq!(read_value_part(&mut stream, None).unwrap().unwrap(), "string");
    assert_eq!(read_value_part(&mut stream, None).unwrap(), None);
    assert_eq!(read_value_part(&mut CharStream::from_text(r#""""#), None).unwrap().unwrap(), "");
}

#[test]
fn values_keep_the_blanks_between_fragments() {
    let mut stream = CharStream::from_text("a  \"test string\\nand spaces\"  b \t\nnext");
    assert_eq!(
        read_value(&mut stream, None).unwrap().unwrap(),
        "a  test string\nand spaces  b"
    );
    assert_eq!(rest_of(&mut stream), "\nnext");

    let mut stream = CharStream::from_text("a\tb 'c'd # comment");
    assert_eq!(read_value(&mut stream, None).unwrap().unwrap(), "a\tb cd");
    assert_eq!(rest_of(&mut stream), "# comment");

    let mut stream = CharStream::from_text("one two} three");
    assert_eq!(read_value(&mut stream, Some('}')).unwrap().unwrap(), "one two");
    assert_eq!(rest_of(&mut stream), "} three");

    assert_eq!(read_value(&mut CharStream::from_text(" a"), None).unwrap(), None);
}

#[test]
fn key_parts_glue_words_and_strings() {
    let mut stream = CharStream::from_text(r#"glued" key"more' and more' test"#);
    assert_eq!(read_key_part(&mut stream).unwrap().unwrap(), "glued keymore and more");
    assert_eq!(rest_of(&mut stream), " test");

    let mut stream = CharStream::from_text(r#""a.b".c"#);
    assert_eq!(read_key_part(&mut stream).unwrap().unwrap(), "a.b");
    assert_eq!(rest_of(&mut stream), ".c");

    // An empty string is taken, but it is no key part.
    let mut stream = CharStream::from_text(r#""" x"#);
    assert_eq!(read_key_part(&mut stream).unwrap(), None);
    assert_eq!(rest_of(&mut stream), " x");
}

#[test]
fn list_parts_glue_words_and_strings() {
    let mut stream = CharStream::from_text(r#"1.2"3 4"5]"#);
    assert_eq!(read_list_part(&mut stream).unwrap().unwrap(), "1.23 45");
    assert_eq!(rest_of(&mut stream), "]");
}

#[test]
fn list_values_end_at_brackets_and_braces() {
    let mut stream = CharStream::from_text("1 2 {} 3 4");
    assert_eq!(read_list_value(&mut stream).unwrap().unwrap(), "1 2");
    assert_eq!(rest_of(&mut stream), "{} 3 4");

    let mut stream = CharStream::from_text("a.b  c]");
    assert_eq!(read_list_value(&mut stream).unwrap().unwrap(), "a.b  c");
    assert_eq!(rest_of(&mut stream), "]");
}

#[test]
fn key_paths_part_at_dots() {
    let mut stream = CharStream::from_text(r#"a.b."c d".e f"#);
    assert_eq!(
        read_key_path(&mut stream).unwrap().unwrap(),
        vec!["a".to_string(), "b".to_string(), "c d".to_string(), "e".to_string()]
    );
    assert_eq!(rest_of(&mut stream), " f");

    assert_eq!(read_key_path(&mut CharStream::from_text(" a")).unwrap(), None);
    assert!(matches!(
        read_key_path(&mut CharStream::from_text("a. b")),
        Err(ParseError::ExpectedKeyPartAfterKeySeparator)
    ));
    assert!(matches!(
        read_key_path(&mut CharStream::from_text("a..b")),
        Err(ParseError::ExpectedKeyPartAfterKeySeparator)
    ));
}
