use lsdata::path::{key, KeyPathPart, LSDGetExt};
use lsdata::{CharStream, Level, List, LSD};

fn document() -> LSD {
    LSD::parse(CharStream::from_text(
        r#"
            name lsd
            2 two
            list [ zero { in list } [ nested ] ]
            level {
                10 ten
                key value
                deeper.still here
            }
        "#,
    ))
    .unwrap()
}

fn path<const N: usize>(parts: [&str; N]) -> Vec<KeyPathPart> {
    parts.into_iter().map(KeyPathPart::from).collect()
}

fn value(text: &str) -> LSD {
    LSD::Value(text.to_string())
}

#[test]
fn texts_that_write_an_index() {
    assert_eq!(KeyPathPart::of_text("0"), KeyPathPart::Index(0));
    assert_eq!(KeyPathPart::of_text("12"), KeyPathPart::Index(12));
    assert_eq!(KeyPathPart::of_text("+5"), KeyPathPart::Index(5));
    assert_eq!(KeyPathPart::of_text("007"), KeyPathPart::Index(7));
    assert_eq!(
        KeyPathPart::of_text("18446744073709551615"),
        KeyPathPart::Index(18446744073709551615)
    );
    assert_eq!(KeyPathPart::from("34".to_string()), KeyPathPart::Index(34));
    assert_eq!(KeyPathPart::from("56"), KeyPathPart::Index(56));
    assert_eq!(KeyPathPart::from(78), KeyPathPart::Index(78));
}

#[test]
fn texts_that_are_keys() {
    for text in ["", "a", "-1", "+", "1 ", " 1", "1_000", "1.5", "0x10", "18446744073709551616"] {
        assert_eq!(KeyPathPart::of_text(text), KeyPathPart::Key(text.to_string()));
        assert_eq!(KeyPathPart::from(text), KeyPathPart::Key(text.to_string()));
        assert_eq!(
            KeyPathPart::from(text.to_string()),
            KeyPathPart::Key(text.to_string())
        );
    }
}

#[test]
fn paths_of_texts() {
    assert_eq!(key(&[]), vec![]);
    assert_eq!(
        key(&["a", "0", "b c", "+1", "-1"]),
        vec![
            KeyPathPart::Key("a".to_string()),
            KeyPathPart::Index(0),
            KeyPathPart::Key("b c".to_string()),
            KeyPathPart::Index(1),
            KeyPathPart::Key("-1".to_string()),
        ]
    );
    assert_eq!(
        document().value(|| (), &key(&["list", "1", "in"])),
        Ok(Some(&"list".to_string()))
    );
}

#[test]
fn parts_as_texts() {
    assert_eq!(KeyPathPart::Key("a b".to_string()).to_text(), "a b");
    assert_eq!(KeyPathPart::Index(0).to_text(), "0");
    assert_eq!(KeyPathPart::Index(7).to_text(), "7");
    assert_eq!(KeyPathPart::Index(1234567890).to_text(), "1234567890");
}

#[test]
fn the_empty_path_leads_to_the_node_itself() {
    let lsd = document();
    assert_eq!(lsd.inner(&[]), Some(&lsd));
    assert_eq!(lsd.as_level().unwrap().inner(&[]), None);
    assert_eq!(List::new().inner(&[]), None);
}

#[test]
fn paths_lead_through_levels_and_lists() {
    let lsd = document();
    assert_eq!(lsd.inner(&path(["name"])), Some(&value("lsd")));
    assert_eq!(lsd.inner(&path(["list", "0"])), Some(&value("zero")));
    assert_eq!(lsd.inner(&path(["list", "1", "in"])), Some(&value("list")));
    assert_eq!(lsd.inner(&path(["list", "2", "0"])), Some(&value("nested")));
    assert_eq!(lsd.inner(&path(["level", "deeper", "still"])), Some(&value("here")));
    assert_eq!(
        lsd.inner(&[KeyPathPart::Key("list".to_string()), KeyPathPart::Index(0)]),
        Some(&value("zero"))
    );
}

#[test]
fn an_index_is_a_key_in_a_level() {
    let lsd = document();
    assert_eq!(lsd.inner(&path(["2"])), Some(&value("two")));
    assert_eq!(lsd.inner(&[KeyPathPart::Index(2)]), Some(&value("two")));
    assert_eq!(lsd.inner(&path(["level", "10"])), Some(&value("ten")));
    assert_eq!(lsd.inner(&path(["level", "+10"])), Some(&value("ten")));
    assert_eq!(lsd.inner(&[KeyPathPart::Key("+10".to_string())]), None);
}

#[test]
fn paths_that_lead_nowhere() {
    let lsd = document();
    assert_eq!(lsd.inner(&path(["missing"])), None);
    assert_eq!(lsd.inner(&path(["name", "deeper"])), None);
    assert_eq!(lsd.inner(&path(["list", "3"])), None);
    assert_eq!(lsd.inner(&path(["list", "key"])), None);
    assert_eq!(lsd.inner(&path(["level", "missing", "key"])), None);
    assert_eq!(lsd.value(|| "wrong", &path(["missing"])), Ok(None));
    assert_eq!(lsd.list(|| "wrong", &path(["list", "9"])), Ok(None));
    assert_eq!(lsd.level(|| "wrong", &path(["level", "x"])), Ok(None));
}

#[test]
fn nodes_of_another_shape_are_invalid() {
    let lsd = document();
    assert_eq!(lsd.value(|| "wrong", &path(["name"])), Ok(Some(&"lsd".to_string())));
    assert_eq!(lsd.value(|| "wrong", &path(["list"])), Err("wrong"));
    assert_eq!(lsd.value(|| "wrong", &path(["level"])), Err("wrong"));
    assert_eq!(lsd.value(|| "wrong", &[]), Err("wrong"));
    assert_eq!(lsd.list(|| 1, &path(["name"])), Err(1));
    assert_eq!(lsd.list(|| 1, &path(["level"])), Err(1));
    assert_eq!(lsd.list(|| 1, &path(["list", "2"])), Ok(Some(&vec![value("nested")])));
    assert_eq!(lsd.level(|| (), &path(["name"])), Err(()));
    assert_eq!(lsd.level(|| (), &path(["list"])), Err(()));
    assert_eq!(lsd.level(|| (), &path(["level", "deeper"])).unwrap().unwrap().len(), 1);
    assert_eq!(lsd.level(|| (), &[]).unwrap().unwrap().len(), 4);
}

#[test]
fn levels_and_lists_are_read_like_nodes() {
    let lsd = document();
    let level: &Level = lsd.as_level().unwrap();
    assert_eq!(level.inner(&path(["list", "1", "in"])), Some(&value("list")));
    assert_eq!(level.value(|| (), &path(["name"])), Ok(Some(&"lsd".to_string())));
    let list: &List = level.get("list").unwrap().as_list().unwrap();
    assert_eq!(list.inner(&path(["1", "in"])), Some(&value("list")));
    assert_eq!(list.inner(&path(["in"])), None);
    assert_eq!(list.inner(&path(["3"])), None);
    assert_eq!(list.value(|| (), &path(["0"])), Ok(Some(&"zero".to_string())));
    assert_eq!(list.value(|| (), &path(["1"])), Err(()));
}

#[test]
fn nodes_as_their_shapes() {
    let mut lsd = document();
    assert!(lsd.as_value().is_none());
    assert!(lsd.as_list().is_none());
    assert_eq!(lsd.as_level().unwrap().len(), 4);
    assert!(lsd.as_value_mut().is_none());
    assert!(lsd.as_list_mut().is_none());
    lsd.as_level_mut().unwrap().insert("more".to_string(), value("1"));
    assert_eq!(lsd.as_level().unwrap().len(), 5);

    let mut text = value("a");
    assert_eq!(text.as_value(), Some(&"a".to_string()));
    assert!(text.as_list().is_none() && text.as_level().is_none());
    assert!(text.as_list_mut().is_none() && text.as_level_mut().is_none());
    text.as_value_mut().unwrap().push('b');
    assert_eq!(text, value("ab"));

    let mut list = LSD::List(vec![value("a")]);
    assert_eq!(list.as_list(), Some(&vec![value("a")]));
    assert!(list.as_value().is_none() && list.as_level().is_none());
    assert!(list.as_value_mut().is_none() && list.as_level_mut().is_none());
    list.as_list_mut().unwrap().push(value("b"));
    assert_eq!(list, LSD::List(vec![value("a"), value("b")]));
}

#[test]
fn places_can_be_changed() {
    let mut lsd = document();
    *lsd.inner_mut(&path(["list", "1", "in"])).unwrap() = value("changed");
    lsd.value_mut(|| (), &path(["name"])).unwrap().unwrap().push_str("ata");
    lsd.list_mut(|| (), &path(["list", "2"])).unwrap().unwrap().push(value("more"));
    lsd.level_mut(|| (), &path(["level", "deeper"]))
        .unwrap()
        .unwrap()
        .insert("and".to_string(), value("there"));
    assert!(lsd.inner_mut(&path(["missing", "key"])).is_none());
    assert!(lsd.inner_mut(&path(["list", "7"])).is_none());
    assert_eq!(lsd.value_mut(|| 1, &path(["list"])), Err(1));
    assert_eq!(lsd.list_mut(|| 2, &path(["level"])), Err(2));
    assert_eq!(lsd.level_mut(|| 3, &path(["name"])), Err(3));
    assert_eq!(lsd.value_mut(|| 4, &path(["nothing"])), Ok(None));

    assert_eq!(
        lsd,
        LSD::parse(CharStream::from_text(
            r#"
                name lsdata
                2 two
                list [ zero { in changed } [ nested
                    more ] ]
                level {
                    10 ten
                    key value
                    deeper {
                        still here
                        and there
                    }
                }
            "#,
        ))
        .unwrap()
    );
}

#[test]
fn places_in_levels_and_lists_can_be_changed() {
    let mut lsd = document();
    let level = lsd.as_level_mut().unwrap();
    assert!(level.inner_mut(&[]).is_none());
    *level.inner_mut(&path(["level", "key"])).unwrap() = value("other");
    assert_eq!(level.inner(&path(["level", "key"])), Some(&value("other")));
    let list = level.list_mut(|| (), &path(["list"])).unwrap().unwrap();
    assert!(list.inner_mut(&[]).is_none());
    assert!(list.inner_mut(&path(["key"])).is_none());
    assert!(list.inner_mut(&path(["3"])).is_none());
    *list.inner_mut(&path(["0"])).unwrap() = value("first");
    assert_eq!(lsd.inner(&path(["list", "0"])), Some(&value("first")));
}
