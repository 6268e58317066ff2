use locales::text::{chars_of, str_eq};
use locales::{LocaleMap, StringMap, TranslationTable};

fn pairs(list: &[(&str, &str)]) -> Vec<(String, String)> {
    list.iter().map(|(a, b)| (a.to_string(), b.to_string())).collect()
}

#[test]
fn strings_compare_by_their_characters() {
    assert!(str_eq("", ""));
    assert!(str_eq("err.not_allowed", "err.not_allowed"));
    assert!(str_eq("été", "été"));
    assert!(!str_eq("en", "fr"));
    assert!(!str_eq("en", "en-GB"));
    assert!(!str_eq("en", "En"));
    assert!(!str_eq("e", "é"));
}

#[test]
fn chars_of_lists_every_character() {
    assert_eq!(chars_of("a$é"), vec!['a', '$', 'é']);
    assert_eq!(chars_of(""), Vec::<char>::new());
}

#[test]
fn string_map_keeps_first_order_and_last_value() {
    let mut map = StringMap::new();
    assert!(map.is_empty());
    map.set("fr", "un");
    map.set("en", "one");
    map.insert("fr".to_string(), "une".to_string());
    assert_eq!(map.len(), 2);
    assert!(!map.is_empty());
    assert_eq!(map.name_at(0), "fr");
    assert_eq!(map.value_at(0), "une");
    assert_eq!(map.name_at(1), "en");
    assert_eq!(map.value_at(1), "one");
    assert_eq!(map.get("fr").unwrap(), "une");
    assert_eq!(map.get("en").unwrap(), "one");
    assert!(map.get("es").is_none());
    assert!(map.contains("en"));
    assert!(!map.contains("EN"));
}

#[test]
fn string_map_from_pairs_and_extend() {
    let mut map = StringMap::from_pairs(&pairs(&[("a", "1"), ("b", "2"), ("a", "3")]));
    assert_eq!(map.len(), 2);
    assert_eq!(map.get("a").unwrap(), "3");
    let other = StringMap::from_pairs(&pairs(&[("b", "20"), ("c", "30")]));
    map.extend_from(&other);
    assert_eq!(map.len(), 3);
    assert_eq!(map.get("a").unwrap(), "3");
    assert_eq!(map.get("b").unwrap(), "20");
    assert_eq!(map.get("c").unwrap(), "30");
    let copy = map.clone();
    assert_eq!(copy.len(), 3);
    assert_eq!(copy.name_at(2), "c");
    assert_eq!(copy.get("b").unwrap(), "20");
}

#[test]
fn table_set_and_get() {
    let mut table = TranslationTable::new();
    assert!(table.is_empty());
    assert!(table.get("greet").is_none());
    table.set("greet", "en", "Hi");
    table.set("bye", "en", "Bye");
    table.set("greet", "fr", "Salut");
    assert_eq!(table.len(), 2);
    assert!(table.contains_key("greet"));
    assert!(!table.contains_key("Greet"));
    let greet: &LocaleMap = table.get("greet").unwrap();
    assert_eq!(greet.len(), 2);
    assert_eq!(greet.get("en").unwrap(), "Hi");
    assert_eq!(greet.get("fr").unwrap(), "Salut");
    assert_eq!(table.key_at(0), "greet");
    assert_eq!(table.key_at(1), "bye");
    assert_eq!(table.locales_at(1).get("en").unwrap(), "Bye");
    assert_eq!(table.lookup("greet", "fr").unwrap(), "Salut");
    assert!(table.lookup("greet", "es").is_none());
    assert!(table.lookup("hello", "fr").is_none());
}

#[test]
fn a_key_without_locale_is_never_made() {
    let mut table = TranslationTable::new();
    table.merge_key("empty", &LocaleMap::new());
    assert!(table.is_empty());
    assert!(!table.contains_key("empty"));
    let built = TranslationTable::from_entries(&vec![
        ("empty".to_string(), Vec::new()),
        ("full".to_string(), pairs(&[("en", "x")])),
    ]);
    assert_eq!(built.len(), 1);
    assert!(!built.contains_key("empty"));
    assert_eq!(built.lookup("full", "en").unwrap(), "x");
}

#[test]
fn merge_adds_locales_across_tables() {
    let mut a = TranslationTable::new();
    a.set("K", "fr", "une");
    let mut b = TranslationTable::new();
    b.set("K", "en", "one");
    a.merge(&b);
    assert_eq!(a.len(), 1);
    assert_eq!(a.lookup("K", "fr").unwrap(), "une");
    assert_eq!(a.lookup("K", "en").unwrap(), "one");
}

#[test]
fn merge_lets_the_later_table_win() {
    let mut a = TranslationTable::new();
    a.set("K", "en", "first");
    a.set("K", "fr", "premier");
    a.set("only.a", "en", "a");
    let mut b = TranslationTable::new();
    b.set("K", "en", "second");
    b.set("only.b", "en", "b");
    a.merge(&b);
    assert_eq!(a.lookup("K", "en").unwrap(), "second");
    assert_eq!(a.lookup("K", "fr").unwrap(), "premier");
    assert_eq!(a.lookup("only.a", "en").unwrap(), "a");
    assert_eq!(a.lookup("only.b", "en").unwrap(), "b");
    assert_eq!(a.len(), 3);
}

#[test]
fn merge_is_associative_on_an_example() {
    let mut a = TranslationTable::new();
    a.set("k", "en", "a");
    a.set("k", "fr", "a");
    let mut b = TranslationTable::new();
    b.set("k", "fr", "b");
    b.set("k", "es", "b");
    let mut c = TranslationTable::new();
    c.set("k", "es", "c");
    c.set("j", "en", "c");

    let mut left = TranslationTable::new();
    left.merge(&a);
    left.merge(&b);
    left.merge(&c);

    let mut bc = TranslationTable::new();
    bc.merge(&b);
    bc.merge(&c);
    let mut right = TranslationTable::new();
    right.merge(&a);
    right.merge(&bc);

    for (key, locale, want) in [("k", "en", "a"), ("k", "fr", "b"), ("k", "es", "c"), ("j", "en", "c")] {
        assert_eq!(left.lookup(key, locale).unwrap(), want);
        assert_eq!(right.lookup(key, locale).unwrap(), want);
    }
    assert_eq!(left.len(), right.len());
}

#[test]
fn from_entries_stores_in_order() {
    let table = TranslationTable::from_entries(&vec![
        ("k".to_string(), pairs(&[("en", "1"), ("fr", "1")])),
        ("j".to_string(), pairs(&[("en", "2")])),
        ("k".to_string(), pairs(&[("fr", "3"), ("fr", "4")])),
    ]);
    assert_eq!(table.len(), 2);
    assert_eq!(table.lookup("k", "en").unwrap(), "1");
    assert_eq!(table.lookup("k", "fr").unwrap(), "4");
    assert_eq!(table.lookup("j", "en").unwrap(), "2");
}
