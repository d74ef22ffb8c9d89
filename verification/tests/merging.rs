use lsdata::merge::{merge_level, wrap_in_path};
use lsdata::{CharStream, Level, ParseError, LSD};

fn value(text: &str) -> LSD {
    LSD::Value(text.to_string())
}

fn entries<const N: usize>(pairs: [(&str, LSD); N]) -> Level {
    let mut level = Level::new();
    for (key, node) in pairs {
        assert!(level.insert(key.to_string(), node).is_none());
    }
    level
}

fn keys_of(level: &Level) -> Vec<String> {
    level.clone().into_entries().into_iter().map(|(key, _)| key).collect()
}

fn parsed(text: &str) -> Result<LSD, ParseError> {
    LSD::parse(CharStream::from_text(text))
}

#[test]
fn a_new_level_is_empty() {
    let level = Level::new();
    assert_eq!(level.len(), 0);
    assert!(level.is_empty());
    assert!(level.get("a").is_none());
    assert!(level.get_index(0).is_none());
    assert!(!level.contains_key("a"));
    assert!(level.into_entries().is_empty());
    assert_eq!(Level::default(), Level::new());
}

#[test]
fn insert_appends_or_replaces_in_place() {
    let mut level = Level::new();
    assert!(level.insert("b".to_string(), value("1")).is_none());
    assert!(level.insert("a".to_string(), value("2")).is_none());
    assert!(level.insert("c".to_string(), value("3")).is_none());
    assert_eq!(level.insert("a".to_string(), value("4")), Some(value("2")));
    assert_eq!(level.len(), 3);
    assert!(!level.is_empty());
    assert!(level.contains_key("a"));
    assert_eq!(level.get("a"), Some(&value("4")));
    assert_eq!(level.get("d"), None);
    assert_eq!(level.get_index(1), Some((&"a".to_string(), &value("4"))));
    assert_eq!(level.get_index(3), None);
    assert_eq!(
        level.into_entries(),
        vec![
            ("b".to_string(), value("1")),
            ("a".to_string(), value("4")),
            ("c".to_string(), value("3")),
        ]
    );
}

#[test]
fn get_mut_changes_in_place() {
    let mut level = entries([("a", value("1")), ("b", value("2"))]);
    *level.get_mut("a").unwrap() = value("3");
    assert!(level.get_mut("c").is_none());
    assert_eq!(level, entries([("a", value("3")), ("b", value("2"))]));
    assert_eq!(keys_of(&level), ["a", "b"]);
}

#[test]
fn entry_or_default_finds_or_makes_a_level() {
    let mut level = entries([("a", value("1"))]);
    assert_eq!(*level.entry_or_default("a".to_string()), value("1"));
    assert_eq!(level.len(), 1);
    assert_eq!(*level.entry_or_default("b".to_string()), LSD::default());
    *level.entry_or_default("b".to_string()) = value("2");
    assert_eq!(level, entries([("a", value("1")), ("b", value("2"))]));
    assert_eq!(keys_of(&level), ["a", "b"]);
}

#[test]
fn clones_are_equal_and_apart() {
    let level = entries([("a", LSD::List(vec![value("1"), LSD::default()]))]);
    let mut copy = level.clone();
    assert_eq!(copy, level);
    copy.insert("b".to_string(), value("2"));
    assert_ne!(copy, level);
    assert_eq!(level.len(), 1);

    let node = LSD::Level(level);
    assert_eq!(node.clone(), node);
}

#[test]
fn equality_does_not_count_the_order_of_a_level() {
    let one = entries([
        ("a", value("1")),
        ("b", LSD::Level(entries([("c", value("2")), ("d", value("3"))]))),
    ]);
    let other = entries([
        ("b", LSD::Level(entries([("d", value("3")), ("c", value("2"))]))),
        ("a", value("1")),
    ]);
    assert!(one.same_as(&other));
    assert_eq!(one, other);
    assert_eq!(LSD::Level(one), LSD::Level(other));
}

#[test]
fn equality_counts_everything_else() {
    assert_ne!(value("a"), value("b"));
    assert_ne!(value("a"), LSD::List(vec![value("a")]));
    assert_ne!(LSD::List(vec![]), LSD::default());
    assert_ne!(
        LSD::List(vec![value("a"), value("b")]),
        LSD::List(vec![value("b"), value("a")])
    );
    assert_ne!(LSD::List(vec![value("a")]), LSD::List(vec![value("a"), value("a")]));
    assert_ne!(entries([("a", value("1"))]), entries([("a", value("2"))]));
    assert_ne!(entries([("a", value("1"))]), entries([("b", value("1"))]));
    assert_ne!(
        entries([("a", value("1"))]),
        entries([("a", value("1")), ("b", value("1"))])
    );
    assert!(value("a").same_as(&value("a")));
    assert!(!value("a").same_as(&LSD::default()));
}

#[test]
fn a_key_path_wraps_its_node() {
    let level = wrap_in_path(
        vec!["a".to_string(), "b".to_string(), "c".to_string()],
        value("1"),
    );
    assert_eq!(
        level,
        entries([(
            "a",
            LSD::Level(entries([("b", LSD::Level(entries([("c", value("1"))])))]))
        )])
    );
    assert_eq!(wrap_in_path(vec!["a".to_string()], value("1")), entries([("a", value("1"))]));
    assert_eq!(wrap_in_path(vec![], value("1")), Level::new());
}

#[test]
fn merging_adds_entries_in_order() {
    let mut level = entries([("a", value("1"))]);
    merge_level(&mut level, entries([("c", value("3")), ("b", LSD::List(vec![]))])).unwrap();
    assert_eq!(keys_of(&level), ["a", "c", "b"]);
    assert_eq!(
        level,
        entries([("a", value("1")), ("c", value("3")), ("b", LSD::List(vec![]))])
    );
    merge_level(&mut level, Level::new()).unwrap();
    assert_eq!(level.len(), 3);
}

#[test]
fn merging_goes_down_into_levels() {
    let mut level = entries([(
        "a",
        LSD::Level(entries([("b", value("10")), ("x", LSD::Level(entries([("y", value("1"))])))])),
    )]);
    merge_level(
        &mut level,
        entries([
            (
                "a",
                LSD::Level(entries([
                    ("c", value("20")),
                    ("x", LSD::Level(entries([("z", value("2"))]))),
                ])),
            ),
            ("n", LSD::Level(entries([("m", LSD::default())]))),
        ]),
    )
    .unwrap();
    assert_eq!(
        level,
        entries([
            (
                "a",
                LSD::Level(entries([
                    ("b", value("10")),
                    ("x", LSD::Level(entries([("y", value("1")), ("z", value("2"))]))),
                    ("c", value("20")),
                ]))
            ),
            ("n", LSD::Level(entries([("m", LSD::default())]))),
        ])
    );
    assert_eq!(keys_of(&level), ["a", "n"]);
}

#[test]
fn merging_refuses_a_taken_key() {
    for node in [value("2"), LSD::List(vec![])] {
        let mut level = entries([("a", value("1")), ("b", LSD::default())]);
        match merge_level(&mut level, entries([("c", value("3")), ("b", node), ("a", value("4"))])) {
            Err(ParseError::KeyCollisionKeyAlreadyExists(key)) => assert_eq!(key, "b"),
            other => panic!("{:?}", other),
        }
    }
}

#[test]
fn merging_refuses_a_level_where_none_is() {
    for node in [value("1"), LSD::List(vec![])] {
        let mut level = entries([("a", node)]);
        assert!(matches!(
            merge_level(&mut level, entries([("a", LSD::default())])),
            Err(ParseError::KeyCollisionShouldBeLevelButIsNot)
        ));
    }
    let mut level = entries([("a", LSD::Level(entries([("b", value("1"))])))]);
    assert!(matches!(
        merge_level(
            &mut level,
            wrap_in_path(vec!["a".to_string(), "b".to_string(), "c".to_string()], value("2"))
        ),
        Err(ParseError::KeyCollisionShouldBeLevelButIsNot)
    ));
}

#[test]
fn dotted_keys_build_nested_levels() {
    assert_eq!(
        parsed("a.b 10\na.c 20").unwrap(),
        LSD::Level(entries([(
            "a",
            LSD::Level(entries([("b", value("10")), ("c", value("20"))]))
        )]))
    );
    assert_eq!(
        parsed("a.b.c 1\na { b.d 2 }\na.e [ ]\n\"a\".b { f {} }").unwrap(),
        LSD::Level(entries([(
            "a",
            LSD::Level(entries([
                (
                    "b",
                    LSD::Level(entries([
                        ("c", value("1")),
                        ("d", value("2")),
                        ("f", LSD::default())
                    ]))
                ),
                ("e", LSD::List(vec![])),
            ]))
        )]))
    );
}

#[test]
fn collisions_name_their_kind() {
    match parsed("a 10\na 20") {
        Err(ParseError::KeyCollisionKeyAlreadyExists(key)) => assert_eq!(key, "a"),
        other => panic!("{:?}", other),
    }
    match parsed("{ a.b.c 1\n a { b { d 2\n c 3 } } }") {
        Err(ParseError::KeyCollisionKeyAlreadyExists(key)) => assert_eq!(key, "c"),
        other => panic!("{:?}", other),
    }
    assert!(matches!(
        parsed("a 10\na.b 20"),
        Err(ParseError::KeyCollisionShouldBeLevelButIsNot)
    ));
    assert!(matches!(
        parsed("a [ ]\na { }"),
        Err(ParseError::KeyCollisionShouldBeLevelButIsNot)
    ));
    assert!(matches!(
        parsed("a { }\na [ ]"),
        Err(ParseError::KeyCollisionKeyAlreadyExists(..))
    ));
}

#[test]
fn parsing_twice_gives_equal_trees() {
    let text = "a.b 1\nc [ x  y { z \"1 2\" } ]\na { d '' }";
    let first = parsed(text).unwrap();
    let second = parsed(text).unwrap();
    assert_eq!(first, second);
    assert!(first.same_as(&second));
}

#[test]
fn documents_of_space_are_empty_levels() {
    for text in ["", " ", "\t \r\n \n", "# only a comment", " # one\n\t# two\r\n"] {
        assert_eq!(parsed(text).unwrap(), LSD::default());
    }
}

#[test]
fn roots_in_brackets_and_braces() {
    assert_eq!(parsed("[]").unwrap(), LSD::List(vec![]));
    assert_eq!(parsed("{}").unwrap(), LSD::default());
    assert_eq!(
        parsed(" # list\n[ a b [ c ] { d e } 'f' ] # end\n").unwrap(),
        LSD::List(vec![
            value("a b"),
            LSD::List(vec![value("c")]),
            LSD::Level(entries([("d", value("e"))])),
            value("f"),
        ])
    );
    assert_eq!(
        parsed("\n{ a 1 # one\n b { } }\n").unwrap(),
        LSD::Level(entries([("a", value("1")), ("b", LSD::default())]))
    );
}

#[test]
fn nothing_may_follow_a_root_in_brackets_or_braces() {
    for text in ["[] test", "{} test", "[]]", "{}}", "[] []", "{ a 1 } b 2", "[ a ]\n\n."] {
        assert!(matches!(parsed(text), Err(ParseError::UnexpectedCharAtFileEnd)));
    }
}

#[test]
fn a_root_without_braces_ends_where_no_key_stands() {
    assert_eq!(
        parsed("a 10 }").unwrap(),
        LSD::Level(entries([("a", value("10"))]))
    );
    assert_eq!(
        parsed("a 10\n] b 20").unwrap(),
        LSD::Level(entries([("a", value("10"))]))
    );
}

#[test]
fn a_root_is_never_a_value() {
    assert!(matches!(parsed("word"), Err(ParseError::ExpectedLSDAfterKey)));
    assert!(matches!(parsed("'a string'"), Err(ParseError::ExpectedLSDAfterKey)));
    assert!(matches!(parsed("a.b # nothing"), Err(ParseError::ExpectedLSDAfterKey)));
}

#[test]
fn items_of_a_list_are_apart() {
    assert_eq!(
        parsed("c[ 1 2 {} 3 4 ]").unwrap(),
        LSD::Level(entries([(
            "c",
            LSD::List(vec![value("1 2"), LSD::default(), value("3 4")])
        )]))
    );
    assert_eq!(
        parsed("[a[b]c{d e}f]").unwrap(),
        LSD::List(vec![
            value("a"),
            LSD::List(vec![value("b")]),
            value("c"),
            LSD::Level(entries([("d", value("e"))])),
            value("f"),
        ])
    );
    assert!(matches!(parsed("[ a }"), Err(ParseError::ExpectedListLSDOrEnd)));
    assert!(matches!(parsed("[ \"\" ]"), Err(ParseError::ExpectedListLSDOrEnd)));
}

#[test]
fn levels_in_braces_need_keys_and_nodes() {
    assert!(matches!(parsed("{ ] }"), Err(ParseError::ExpectedKeyOrEnd)));
    assert!(matches!(parsed("{ a"), Err(ParseError::ExpectedLSDAfterKey)));
    assert!(matches!(parsed("{ a }"), Err(ParseError::ExpectedLSDAfterKey)));
    assert!(matches!(parsed("a { b 1"), Err(ParseError::ExpectedKeyOrEnd)));
    assert_eq!(
        parsed("a { b 1 }c 2").unwrap(),
        LSD::Level(entries([
            ("a", LSD::Level(entries([("b", value("1"))]))),
            ("c", value("2"))
        ]))
    );
    assert_eq!(
        parsed("a b{c").unwrap(),
        LSD::Level(entries([("a", value("b{c"))]))
    );
}
