use lsdata::cursor::CharStream;
use lsdata::path::{KeyPathPart, LSDGetExt};
use lsdata::tree::LSD;

#[test]
fn parse() {
    let text = CharStream::from_text("a 10");

    let lsd = LSD::parse(text).unwrap();

    assert_eq!(
        lsd.value(|| (), &[KeyPathPart::from("a")])
            .unwrap()
            .unwrap()
            .parse::<u8>()
            .unwrap(),
        10
    );
}

#[test]
fn using_level() {
    let text = CharStream::from_text("a { b 10 }");

    let lsd = LSD::parse(text).unwrap();

    assert_eq!(
        lsd.level(|| (), &[KeyPathPart::from("a")])
            .unwrap()
            .unwrap()
            .get("b")
            .unwrap(),
        LSD::Value("10".to_string())
    );
    assert_eq!(
        lsd.value(|| (), &[KeyPathPart::from("a"), KeyPathPart::from("b")])
            .unwrap()
            .unwrap(),
        "10"
    );
}

#[test]
fn using_list() {
    let text = CharStream::from_text("a [ 10 ]");

    let lsd = LSD::parse(text).unwrap();

    assert_eq!(
        lsd.list(|| (), &[KeyPathPart::from("a")])
            .unwrap()
            .unwrap()[0],
        LSD::Value("10".to_string())
    );
    assert_eq!(
        lsd.value(|| (), &[KeyPathPart::from("a"), KeyPathPart::from(0)])
            .unwrap()
            .unwrap(),
        "10"
    );
}

#[test]
fn nested() {
    let text = CharStream::from_text("a [ { a 10 } ]");

    let lsd = LSD::parse(text).unwrap();

    assert_eq!(
        lsd.value(
            || (),
            &[
                KeyPathPart::from("a"),
                KeyPathPart::from("0"),
                KeyPathPart::from("a")
            ]
        )
        .unwrap()
        .unwrap(),
        "10"
    );
}

#[test]
fn dynamic() {
    let text = CharStream::from_text(
        r#"
            a [
                10
                20
            ]
        "#,
    );

    let lsd = LSD::parse(text).unwrap();

    let id = 1;
    assert_eq!(
        lsd.value(|| (), &[KeyPathPart::from("a"), KeyPathPart::from(id)])
            .unwrap()
            .unwrap(),
        "20"
    );
}

#[test]
fn syntaxes() {
    let text = CharStream::from_text("a { b 10 }");

    let lsd = LSD::parse(text).unwrap();

    assert_eq!(
        lsd.value(|| (), &[KeyPathPart::from("a"), KeyPathPart::from("b")])
            .unwrap()
            .unwrap(),
        "10"
    );
    assert_eq!(
        lsd.value(|| (), [KeyPathPart::from("a"), KeyPathPart::from("b")].as_slice())
            .unwrap()
            .unwrap(),
        "10"
    );
    assert_eq!(
        lsd.value(|| (), &vec![KeyPathPart::from("a"), KeyPathPart::from("b")])
            .unwrap()
            .unwrap(),
        "10"
    );
    assert_eq!(
        lsd.value(
            || (),
            &[
                KeyPathPart::from("a".to_string()),
                KeyPathPart::from("b".to_string())
            ]
        )
        .unwrap()
        .unwrap(),
        "10"
    );
}
