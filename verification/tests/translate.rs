use locales::{
    generate, load_i18n, resolve, t, translate, Params, ResolveError, Selection, TranslationTable,
};

const KEYS: &str = r#"{
  "key.test": {
    "fr": "C'est un test",
    "en": "This is a test"
  },
  "err.not_allowed": {
    "fr": "Vous n'êtes pas autorisé à faire cela",
    "en": "You are not allowed to do this"
  }
}"#;

const VARS: &str = r#"{
  "hello": {
    "fr": "Salut $name !",
    "en": "Hello $name!"
  },
  "multiple.vars": {
    "fr": "Nom: $name, Truc: $thing, bingo: $bingo"
  },
  "inconsistent.vars": {
    "fr": "Salut $name !",
    "en": "Name: $thing, ok: $ok"
  }
}"#;

fn table() -> TranslationTable {
    let mut table = TranslationTable::new();
    load_i18n(&mut table, KEYS).unwrap();
    load_i18n(&mut table, VARS).unwrap();
    table
}

fn params(pairs: &[(&str, &str)]) -> Params {
    let mut params = Params::new();
    for (name, value) in pairs {
        params.set(name, value);
    }
    params
}

#[test]
fn it_translates() {
    let table = table();
    assert_eq!(t(&table, "key.test", "en"), "This is a test");
    assert_eq!(t(&table, "key.test", "fr"), "C'est un test");
    assert_eq!(
        t(&table, "err.not_allowed", "fr"),
        "Vous n'êtes pas autorisé à faire cela"
    );
    assert_eq!(
        t(&table, "err.not_allowed", "en"),
        "You are not allowed to do this"
    );
}

#[test]
fn it_interpolates() {
    let table = table();
    let fred = params(&[("name", "Fred")]);
    assert_eq!(translate(&table, "hello", &fred, "fr").unwrap(), "Salut Fred !");
    assert_eq!(translate(&table, "hello", &fred, "en").unwrap(), "Hello Fred!");
}

#[test]
fn it_interpolates_multiple_vars() {
    let table = table();
    let values = params(&[("bingo", "bingo"), ("name", "Fred"), ("thing", "thing")]);
    assert_eq!(
        translate(&table, "multiple.vars", &values, "fr").unwrap(),
        "Nom: Fred, Truc: thing, bingo: bingo"
    );
}

#[test]
fn it_interpolates_inconsistent_vars() {
    let table = table();
    let values = params(&[("name", "Fred"), ("ok", "top"), ("thing", "thing")]);
    assert_eq!(
        translate(&table, "inconsistent.vars", &values, "fr").unwrap(),
        "Salut Fred !"
    );
    assert_eq!(
        translate(&table, "inconsistent.vars", &values, "en").unwrap(),
        "Name: thing, ok: top"
    );
}

#[test]
#[should_panic]
fn it_fails_to_translate() {
    let table = table();
    assert_eq!(resolve(&table, "key.test", "es").unwrap(), "Hola");
}

#[test]
fn resolve_returns_the_template_as_it_stands() {
    let table = table();
    assert_eq!(resolve(&table, "hello", "en").unwrap(), "Hello $name!");
    assert_eq!(t(&table, "multiple.vars", "fr"), "Nom: $name, Truc: $thing, bingo: $bingo");
}

#[test]
fn missing_locale_names_locale_and_key() {
    let table = table();
    match resolve(&table, "key.test", "es") {
        Err(ResolveError::MissingLocale { locale, key }) => {
            assert_eq!(locale, "es");
            assert_eq!(key, "key.test");
        }
        other => panic!("expected a missing locale, got {:?}", other),
    }
    let error = resolve(&table, "key.test", "es").unwrap_err();
    assert_eq!(error.message(), "Missing language (es) for key: key.test");
}

#[test]
fn missing_key_names_the_key() {
    let table = table();
    match resolve(&table, "no.such.key", "en") {
        Err(ResolveError::MissingKey { key }) => assert_eq!(key, "no.such.key"),
        other => panic!("expected a missing key, got {:?}", other),
    }
    let error = resolve(&table, "no.such.key", "en").unwrap_err();
    assert_eq!(error.message(), "Missing key: no.such.key");
}

#[test]
fn multiple_vars_has_no_english() {
    let table = table();
    assert!(matches!(
        resolve(&table, "multiple.vars", "en"),
        Err(ResolveError::MissingLocale { .. })
    ));
    let none = Params::new();
    assert!(matches!(
        translate(&table, "multiple.vars", &none, "en"),
        Err(ResolveError::MissingLocale { .. })
    ));
    assert!(matches!(
        translate(&table, "nothing", &none, "en"),
        Err(ResolveError::MissingKey { .. })
    ));
}

#[test]
fn keys_and_locales_are_case_sensitive() {
    let table = table();
    assert!(matches!(
        resolve(&table, "Key.test", "en"),
        Err(ResolveError::MissingKey { .. })
    ));
    assert!(matches!(
        resolve(&table, "key.test", "EN"),
        Err(ResolveError::MissingLocale { .. })
    ));
    assert!(matches!(
        resolve(&table, "key.test", "en-GB"),
        Err(ResolveError::MissingLocale { .. })
    ));
}

#[test]
fn dispatch_answers_as_the_table_does() {
    let table = table();
    let dispatch = generate(&table);
    for key in ["key.test", "err.not_allowed", "hello", "multiple.vars", "inconsistent.vars", "x"] {
        for locale in ["en", "fr", "es"] {
            let selection = dispatch.select(key, locale);
            match resolve(&table, key, locale) {
                Ok(template) => match selection {
                    Selection::Template(found) => assert_eq!(found, template),
                    other => panic!("expected a template, got {:?}", other),
                },
                Err(ResolveError::MissingLocale { locale: missing, key: asked }) => {
                    match selection {
                        Selection::MissingLanguage { locale, key } => {
                            assert_eq!(locale, missing);
                            assert_eq!(key, asked);
                        }
                        other => panic!("expected a missing language, got {:?}", other),
                    }
                }
                Err(ResolveError::MissingKey { .. }) => {
                    assert!(matches!(selection, Selection::MissingTranslation))
                }
            }
        }
    }
}
