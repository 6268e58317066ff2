use locales::{
    generate, load_all, load_i18n, parse_translations, resolve, ResolveError, Selection,
    TranslationTable,
};

#[test]
fn round_trip_of_two_files() {
    let mut table = TranslationTable::new();
    load_i18n(&mut table, r#"{"greet":{"en":"Hi"}}"#).unwrap();
    load_i18n(&mut table, r#"{"greet":{"fr":"Salut"}}"#).unwrap();
    assert_eq!(resolve(&table, "greet", "en").unwrap(), "Hi");
    assert_eq!(resolve(&table, "greet", "fr").unwrap(), "Salut");
    assert_eq!(table.len(), 1);
}

#[test]
fn later_file_overwrites_the_same_key_and_locale() {
    let mut table = TranslationTable::new();
    load_i18n(&mut table, r#"{"K":{"en":"old","fr":"vieux"}}"#).unwrap();
    load_i18n(&mut table, r#"{"K":{"en":"new"}}"#).unwrap();
    assert_eq!(resolve(&table, "K", "en").unwrap(), "new");
    assert_eq!(resolve(&table, "K", "fr").unwrap(), "vieux");
}

#[test]
fn parse_reads_keys_locales_and_templates() {
    let table = parse_translations(
        r#"{ "err.user.not_found": { "fr": "Utilisateur introuvable: $email, $id",
                                     "en": "User not found: $email, $id" },
             "quote": { "en": "say \"hi\"\né" } }"#,
    )
    .unwrap();
    assert_eq!(table.len(), 2);
    assert_eq!(
        table.lookup("err.user.not_found", "fr").unwrap(),
        "Utilisateur introuvable: $email, $id"
    );
    assert_eq!(table.lookup("quote", "en").unwrap(), "say \"hi\"\né");
}

#[test]
fn parse_of_an_empty_object_is_an_empty_table() {
    assert!(parse_translations("{}").unwrap().is_empty());
    assert!(parse_translations("  {\n}  ").unwrap().is_empty());
}

#[test]
fn a_key_with_an_empty_object_is_left_out() {
    let table = parse_translations(r#"{"nothing":{},"some":{"en":"x"}}"#).unwrap();
    assert_eq!(table.len(), 1);
    assert!(!table.contains_key("nothing"));
    let mut merged = TranslationTable::new();
    merged.set("nothing", "en", "kept");
    load_i18n(&mut merged, r#"{"nothing":{}}"#).unwrap();
    assert_eq!(resolve(&merged, "nothing", "en").unwrap(), "kept");
}

#[test]
fn a_key_written_twice_in_one_file_keeps_its_last_object() {
    let table = parse_translations(r#"{"k":{"en":"A"},"k":{"fr":"B"}}"#).unwrap();
    assert_eq!(table.lookup("k", "fr").unwrap(), "B");
    assert!(table.lookup("k", "en").is_none());
    let inner = parse_translations(r#"{"k":{"en":"A","en":"B"}}"#).unwrap();
    assert_eq!(inner.lookup("k", "en").unwrap(), "B");
}

#[test]
fn malformed_files_are_refused() {
    for text in [
        "",
        "not json",
        r#"{"k":{"en":"A"}"#,
        r#"{"k":{"en":"A"}} trailing"#,
        r#"{"k":"A"}"#,
        r#"{"k":{"en":1}}"#,
        r#"{"k":{"en":null}}"#,
        r#"{"k":["en","A"]}"#,
        r#"[{"k":{"en":"A"}}]"#,
        r#"{"k":{"en":{"nested":"A"}}}"#,
    ] {
        let failure = parse_translations(text).unwrap_err();
        assert!(!failure.message.is_empty(), "no message for {:?}", text);
    }
}

#[test]
fn a_refused_file_leaves_the_table_as_it_was() {
    let mut table = TranslationTable::new();
    load_i18n(&mut table, r#"{"greet":{"en":"Hi"}}"#).unwrap();
    let failure = load_i18n(&mut table, r#"{"greet":{"en":"Hello"},"bye":{"en":7}}"#).unwrap_err();
    assert!(!failure.message.is_empty());
    assert_eq!(table.len(), 1);
    assert_eq!(resolve(&table, "greet", "en").unwrap(), "Hi");
    assert!(matches!(resolve(&table, "bye", "en"), Err(ResolveError::MissingKey { .. })));
}

#[test]
fn load_all_merges_in_order() {
    let files = vec![
        r#"{"a":{"en":"1"},"b":{"en":"1"}}"#.to_string(),
        r#"{"a":{"en":"2","fr":"2"}}"#.to_string(),
        r#"{"a":{"fr":"3"},"c":{"es":"3"}}"#.to_string(),
    ];
    let mut table = TranslationTable::new();
    table.set("z", "en", "0");
    load_all(&mut table, &files).unwrap();
    assert_eq!(resolve(&table, "a", "en").unwrap(), "2");
    assert_eq!(resolve(&table, "a", "fr").unwrap(), "3");
    assert_eq!(resolve(&table, "b", "en").unwrap(), "1");
    assert_eq!(resolve(&table, "c", "es").unwrap(), "3");
    assert_eq!(resolve(&table, "z", "en").unwrap(), "0");
    assert_eq!(table.len(), 4);
}

#[test]
fn load_all_stops_at_the_first_bad_file() {
    let files = vec![
        r#"{"a":{"en":"1"}}"#.to_string(),
        r#"{"a":{"en":"#.to_string(),
        r#"{"a":{"en":"3"}}"#.to_string(),
    ];
    let mut table = TranslationTable::new();
    let failure = load_all(&mut table, &files).unwrap_err();
    assert_eq!(failure.index, 1);
    assert!(!failure.message.is_empty());
    assert_eq!(resolve(&table, "a", "en").unwrap(), "1");
    let mut none = TranslationTable::new();
    load_all(&mut none, &Vec::new()).unwrap();
    assert!(none.is_empty());
}

#[test]
fn dispatch_has_one_branch_for_each_key() {
    let table = parse_translations(
        r#"{"a":{"en":"A","fr":"Ah"},"b":{"en":"B"},"c":{"fr":"C","es":"Ce","en":"See"}}"#,
    )
    .unwrap();
    let dispatch = generate(&table);
    assert_eq!(dispatch.branches.len(), 3);
    let mut keys: Vec<&str> = dispatch.branches.iter().map(|b| b.key.as_str()).collect();
    keys.sort();
    assert_eq!(keys, vec!["a", "b", "c"]);
    for (i, branch) in dispatch.branches.iter().enumerate() {
        assert_eq!(&branch.key, table.key_at(i));
        let locales = table.get(&branch.key).unwrap();
        assert_eq!(branch.arms.len(), locales.len());
        let mut seen: Vec<&str> = Vec::new();
        for (locale, template) in &branch.arms {
            assert!(!seen.contains(&locale.as_str()));
            seen.push(locale);
            assert_eq!(locales.get(locale).unwrap(), template);
        }
    }
}

#[test]
fn dispatch_tells_a_missing_key_from_a_missing_locale() {
    let table = parse_translations(r#"{"key.test":{"en":"This is a test"}}"#).unwrap();
    let dispatch = generate(&table);
    match dispatch.select("key.test", "en") {
        Selection::Template(template) => assert_eq!(template, "This is a test"),
        other => panic!("expected a template, got {:?}", other),
    }
    match dispatch.select("key.test", "es") {
        Selection::MissingLanguage { locale, key } => {
            assert_eq!(locale, "es");
            assert_eq!(key, "key.test");
        }
        other => panic!("expected a missing language, got {:?}", other),
    }
    assert!(matches!(dispatch.select("missing key", "en"), Selection::MissingTranslation));
    let empty = generate(&TranslationTable::new());
    assert!(empty.branches.is_empty());
    assert!(matches!(empty.select("key.test", "en"), Selection::MissingTranslation));
}

#[test]
fn a_dispatch_written_by_hand_takes_the_first_match() {
    let dispatch = locales::Dispatch {
        branches: vec![
            locales::Branch {
                key: "k".to_string(),
                parameters: Vec::new(),
                arms: vec![
                    ("en".to_string(), "first".to_string()),
                    ("en".to_string(), "second".to_string()),
                ],
            },
            locales::Branch {
                key: "k".to_string(),
                parameters: Vec::new(),
                arms: vec![("fr".to_string(), "x".to_string())],
            },
        ],
    };
    match dispatch.select("k", "en") {
        Selection::Template(template) => assert_eq!(template, "first"),
        other => panic!("expected a template, got {:?}", other),
    }
    assert!(matches!(dispatch.select("k", "fr"), Selection::MissingLanguage { .. }));
}
