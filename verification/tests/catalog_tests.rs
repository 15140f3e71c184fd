use i18n::available_languages;
use i18n::load;
use i18n::LoadError;
use i18n::Localizations;

fn demo_catalog() -> Localizations {
    let sources = vec![
        (
            "en".to_string(),
            "test-message = This is a test message\n".to_string(),
        ),
        (
            "es".to_string(),
            "test-message = Este es un mensaje de prueba\n".to_string(),
        ),
        (
            "fr".to_string(),
            "test-message = Ceci est un message de test\n".to_string(),
        ),
    ];
    load("en", sources).unwrap()
}

#[test]
fn test_available_languages() {
    let languages = available_languages(&demo_catalog());
    assert!(languages.iter().any(|l| l == "en"));
    assert!(languages.iter().any(|l| l == "es"));
    assert!(languages.iter().any(|l| l == "fr"));
}

#[test]
fn test_lookup_finds_loaded_templates() {
    let catalog = demo_catalog();
    assert_eq!(
        catalog.lookup("en", "test-message"),
        Some("This is a test message".to_string())
    );
    assert_eq!(
        catalog.lookup("es", "test-message"),
        Some("Este es un mensaje de prueba".to_string())
    );
    assert_eq!(catalog.lookup("en", "no-such-id"), None);
    assert_eq!(catalog.lookup("de", "test-message"), None);
}

#[test]
fn test_load_parses_comments_and_blank_lines() {
    let sources = vec![(
        "en".to_string(),
        "# a comment line\n\n   \nwelcome = Hello\n# another = not-an-entry\n".to_string(),
    )];
    let catalog = load("en", sources).unwrap();
    assert_eq!(catalog.lookup("en", "welcome"), Some("Hello".to_string()));
    assert_eq!(catalog.lookup("en", "another"), None);
}

#[test]
fn test_load_trims_ids_and_templates() {
    let sources = vec![("en".to_string(), "  spaced-id   =   some text  \n".to_string())];
    let catalog = load("en", sources).unwrap();
    assert_eq!(
        catalog.lookup("en", "spaced-id"),
        Some("some text".to_string())
    );
}

#[test]
fn test_load_accepts_empty_resource() {
    let sources = vec![("en".to_string(), "".to_string())];
    let catalog = load("en", sources).unwrap();
    assert_eq!(catalog.lookup("en", "anything"), None);
}

#[test]
fn test_load_rejects_invalid_locale() {
    let sources = vec![(
        "invalid-language-tag".to_string(),
        "a = b\n".to_string(),
    )];
    assert!(matches!(load("en", sources), Err(LoadError::InvalidLocale(0))));
}

#[test]
fn test_load_rejects_duplicate_locale() {
    let sources = vec![
        ("en".to_string(), "a = b\n".to_string()),
        ("en".to_string(), "c = d\n".to_string()),
    ];
    assert!(matches!(load("en", sources), Err(LoadError::DuplicateLocale(1))));
}

#[test]
fn test_load_rejects_unparsable_resource() {
    let sources = vec![
        ("en".to_string(), "a = b\n".to_string()),
        ("es".to_string(), "this line has no equals sign\n".to_string()),
    ];
    assert!(matches!(load("en", sources), Err(LoadError::BadResource(1))));
    // An identifier may not begin with a digit.
    let sources = vec![("en".to_string(), "1bad = x\n".to_string())];
    assert!(matches!(load("en", sources), Err(LoadError::BadResource(0))));
}

#[test]
fn test_load_rejects_duplicate_message_id() {
    let sources = vec![(
        "en".to_string(),
        "greet = Hello\ngreet = Hi\n".to_string(),
    )];
    assert!(matches!(load("en", sources), Err(LoadError::DuplicateMessageId(0))));
}

#[test]
fn test_load_requires_the_fallback_bundle() {
    let sources = vec![("es".to_string(), "a = b\n".to_string())];
    assert!(matches!(load("en", sources), Err(LoadError::MissingFallback)));
    assert!(matches!(load("en", vec![]), Err(LoadError::MissingFallback)));
}
