use locales::parameters::{parameters_of, placeholder_names};
use locales::order::{place_of, Place};
use locales::{generate, parse_translations, LocaleMap};

fn chars(text: &str) -> Vec<char> {
    text.chars().collect()
}

#[test]
fn place_of_is_alphabetical() {
    assert_eq!(place_of(&chars("bingo"), &chars("name")), Place::Before);
    assert_eq!(place_of(&chars("name"), &chars("thing")), Place::Before);
    assert_eq!(place_of(&chars("thing"), &chars("name")), Place::After);
    assert_eq!(place_of(&chars("name"), &chars("name")), Place::Same);
    assert_eq!(place_of(&chars("name"), &chars("names")), Place::Before);
    assert_eq!(place_of(&chars("names"), &chars("name")), Place::After);
    assert_eq!(place_of(&chars(""), &chars("")), Place::Same);
    assert_eq!(place_of(&chars(""), &chars("a")), Place::Before);
    assert_eq!(place_of(&chars("Z"), &chars("a")), Place::Before);
    assert_eq!(place_of(&chars("a_"), &chars("aa")), Place::Before);
    assert_eq!(place_of(&chars("é"), &chars("z")), Place::After);
}

#[test]
fn place_of_agrees_with_the_order_of_strings() {
    let words = ["", "a", "ab", "b", "B", "_", "9", "name", "names", "nam", "é", "z"];
    for a in words {
        for b in words {
            let want = match a.cmp(b) {
                std::cmp::Ordering::Less => Place::Before,
                std::cmp::Ordering::Equal => Place::Same,
                std::cmp::Ordering::Greater => Place::After,
            };
            assert_eq!(place_of(&chars(a), &chars(b)), want, "{:?} and {:?}", a, b);
        }
    }
}

#[test]
fn placeholder_names_are_sorted_and_distinct() {
    assert_eq!(
        placeholder_names("Nom: $name, Truc: $thing, bingo: $bingo"),
        vec!["bingo", "name", "thing"]
    );
    assert_eq!(placeholder_names("$b $a $b $c $a"), vec!["a", "b", "c"]);
    assert_eq!(placeholder_names("$name $names $nam"), vec!["nam", "name", "names"]);
    assert_eq!(placeholder_names("$B $a $_ $1"), vec!["1", "B", "_", "a"]);
    assert_eq!(placeholder_names("no placeholder, 5$ or $ or $-"), Vec::<String>::new());
    assert_eq!(placeholder_names(""), Vec::<String>::new());
    assert_eq!(placeholder_names("$$x"), vec!["x"]);
}

#[test]
fn parameters_of_a_key_join_its_templates() {
    let mut locales = LocaleMap::new();
    locales.set("fr", "Salut $name !");
    locales.set("en", "Name: $thing, ok: $ok");
    assert_eq!(parameters_of(&locales), vec!["name", "ok", "thing"]);
    assert_eq!(parameters_of(&LocaleMap::new()), Vec::<String>::new());
    let mut plain = LocaleMap::new();
    plain.set("en", "This is a test");
    assert_eq!(parameters_of(&plain), Vec::<String>::new());
}

#[test]
fn dispatch_lists_the_parameters_of_each_key() {
    let table = parse_translations(
        r#"{"hello":{"fr":"Salut $name !","en":"Hello $name!"},
            "multiple.vars":{"fr":"Nom: $name, Truc: $thing, bingo: $bingo"},
            "inconsistent.vars":{"fr":"Salut $name !","en":"Name: $thing, ok: $ok"},
            "key.test":{"en":"This is a test"}}"#,
    )
    .unwrap();
    let dispatch = generate(&table);
    assert_eq!(dispatch.branches.len(), 4);
    for branch in &dispatch.branches {
        let want: Vec<&str> = match branch.key.as_str() {
            "hello" => vec!["name"],
            "multiple.vars" => vec!["bingo", "name", "thing"],
            "inconsistent.vars" => vec!["name", "ok", "thing"],
            "key.test" => vec![],
            other => panic!("unexpected key {:?}", other),
        };
        assert_eq!(branch.parameters, want);
    }
}
