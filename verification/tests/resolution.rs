use i18n::get_message;
use i18n::get_message_with_args;
use i18n::load;
use i18n::translate;
use i18n::translate_with_args;
use i18n::LocaleContext;
use i18n::Localizations;

fn demo_catalog() -> Localizations {
    let sources = vec![
        (
            "en".to_string(),
            "test-message = This is a test message\ntest-with-args = Hello {$name}, you have {$count} notifications\n".to_string(),
        ),
        (
            "es".to_string(),
            "test-message = Este es un mensaje de prueba\ntest-with-args = Hola {$name}, tienes {$count} notificaciones\n".to_string(),
        ),
        (
            "fr".to_string(),
            "test-message = Ceci est un message de test\ntest-with-args = Bonjour {$name}, vous avez {$count} notifications\n".to_string(),
        ),
    ];
    load("en", sources).unwrap()
}

fn spanish_context(catalog: &Localizations) -> LocaleContext {
    let mut ctx = LocaleContext::new();
    i18n::set_language_from_accept_language(&mut ctx, catalog, "es");
    ctx
}

fn french_context(catalog: &Localizations) -> LocaleContext {
    let mut ctx = LocaleContext::new();
    i18n::set_language_from_accept_language(&mut ctx, catalog, "fr");
    ctx
}

#[test]
fn lib_test_language_loader_initialization() {
    let _catalog = demo_catalog();
}

#[test]
fn lib_test_default_language() {
    let catalog = demo_catalog();
    let ctx = LocaleContext::new();
    assert_eq!(
        get_message(&catalog, &ctx, "test-message"),
        "This is a test message"
    );
}

#[test]
fn lib_test_missing_message_returns_message_id() {
    let catalog = demo_catalog();
    let ctx = LocaleContext::new();
    assert_eq!(
        get_message(&catalog, &ctx, "non-existent-message"),
        "non-existent-message"
    );
}

#[test]
fn i18n_test_test_language_loader_initialization() {
    let catalog = demo_catalog();
    let languages = i18n::available_languages(&catalog);
    assert!(languages.iter().any(|l| l == "en"));
}

#[test]
fn i18n_test_test_default_language() {
    let catalog = demo_catalog();
    let ctx = LocaleContext::new();
    assert_eq!(
        get_message(&catalog, &ctx, "test-message"),
        "This is a test message"
    );
}

#[test]
fn i18n_test_test_missing_message_returns_message_id() {
    let catalog = demo_catalog();
    let ctx = LocaleContext::new();
    assert_eq!(
        get_message(&catalog, &ctx, "non-existent-message"),
        "non-existent-message"
    );
}

#[test]
fn test_get_message_with_args() {
    let catalog = demo_catalog();
    let ctx = LocaleContext::new();

    // First, make sure the message exists.
    assert_ne!(get_message(&catalog, &ctx, "test-with-args"), "test-with-args");

    let result = get_message_with_args(&catalog, &ctx, "test-with-args", "John", "5");
    assert!(result.contains("John"));
    assert!(result.contains("5"));
    assert!(result.contains("notifications"));

    let ctx_es = spanish_context(&catalog);
    let result = get_message_with_args(&catalog, &ctx_es, "test-with-args", "John", "5");
    assert!(result.contains("John"));
    assert!(result.contains("5"));
    assert!(result.contains("notificaciones"));

    let ctx_fr = french_context(&catalog);
    let result = get_message_with_args(&catalog, &ctx_fr, "test-with-args", "John", "5");
    assert!(result.contains("John"));
    assert!(result.contains("5"));
    assert!(result.contains("notifications"));
}

#[test]
fn test_t_macro() {
    let catalog = demo_catalog();
    let ctx = LocaleContext::new();

    assert_eq!(
        get_message(&catalog, &ctx, "test-message"),
        "This is a test message"
    );

    let result = get_message_with_args(&catalog, &ctx, "test-with-args", "Jane", "10");
    assert!(result.contains("Jane"));
    assert!(result.contains("10"));
    assert!(result.contains("notifications"));

    let ctx_es = spanish_context(&catalog);
    let result = get_message_with_args(&catalog, &ctx_es, "test-with-args", "Jane", "10");
    assert!(result.contains("Jane"));
    assert!(result.contains("10"));
    assert!(result.contains("notificaciones"));
}

#[test]
fn test_substitution_fills_both_placeholders() {
    let catalog = demo_catalog();
    let ctx = LocaleContext::new();
    let result = get_message_with_args(&catalog, &ctx, "test-with-args", "John", "5");
    assert_eq!(result, "Hello John, you have 5 notifications");
    assert!(result.contains("John"));
    assert!(result.contains("5"));
    assert!(!result.contains("{$name}"));
    assert!(!result.contains("{$count}"));
}

#[test]
fn test_substitution_replaces_every_occurrence() {
    let sources = vec![(
        "en".to_string(),
        "dup = {$name} and {$name} have {$count}, {$count}".to_string(),
    )];
    let catalog = load("en", sources).unwrap();
    let ctx = LocaleContext::new();
    let result = get_message_with_args(&catalog, &ctx, "dup", "X", "2");
    assert_eq!(result, "X and X have 2, 2");
}

#[test]
fn test_unmatched_placeholder_left_untouched() {
    let sources = vec![(
        "en".to_string(),
        "only-name = Hi {$name}, {$other} stays".to_string(),
    )];
    let catalog = load("en", sources).unwrap();
    let ctx = LocaleContext::new();
    let result = get_message_with_args(&catalog, &ctx, "only-name", "Ada", "9");
    assert_eq!(result, "Hi Ada, {$other} stays");
}

#[test]
fn test_sentinel_gets_no_substitution() {
    let catalog = demo_catalog();
    let ctx = LocaleContext::new();
    // The unknown id itself contains a placeholder token; it must come back
    // verbatim, untouched by substitution.
    let result = get_message_with_args(&catalog, &ctx, "missing-{$name}-id", "John", "5");
    assert_eq!(result, "missing-{$name}-id");
}

#[test]
fn test_repeated_resolution_is_identical() {
    let catalog = demo_catalog();
    let ctx = spanish_context(&catalog);
    let first = get_message(&catalog, &ctx, "test-message");
    let second = get_message(&catalog, &ctx, "test-message");
    let third = get_message(&catalog, &ctx, "test-message");
    assert_eq!(first, second);
    assert_eq!(second, third);
}

#[test]
fn test_translate_matches_get_message() {
    let catalog = demo_catalog();
    let ctx = LocaleContext::new();
    assert_eq!(
        translate(&catalog, &ctx, "test-message"),
        get_message(&catalog, &ctx, "test-message")
    );
    assert_eq!(
        translate_with_args(&catalog, &ctx, "test-with-args", "John", "5"),
        get_message_with_args(&catalog, &ctx, "test-with-args", "John", "5")
    );
}

#[test]
fn test_region_locale_falls_back_to_bare_language() {
    let catalog = demo_catalog();
    let mut ctx = LocaleContext::new();
    // fr-FR matches the fr bundle by language subtag.
    let changed = i18n::set_language_from_accept_language(&mut ctx, &catalog, "fr-FR");
    assert!(changed);
    assert_eq!(
        get_message(&catalog, &ctx, "test-message"),
        "Ceci est un message de test"
    );
}
