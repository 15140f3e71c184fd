use i18n::get_message;
use i18n::load;
use i18n::set_language_from_accept_language;
use i18n::LocaleContext;
use i18n::Localizations;

fn demo_catalog() -> Localizations {
    let sources = vec![
        (
            "en".to_string(),
            "test-message = This is a test message\n".to_string(),
        ),
        (
            "es".to_string(),
            "test-message = Este es un mensaje de prueba\n".to_string(),
        ),
        (
            "fr".to_string(),
            "test-message = Ceci est un message de test\n".to_string(),
        ),
    ];
    load("en", sources).unwrap()
}

#[test]
fn test_set_language_from_accept_language_simple() {
    let catalog = demo_catalog();
    let mut ctx = LocaleContext::new();
    let _ = set_language_from_accept_language(&mut ctx, &catalog, "es");
    assert_eq!(
        get_message(&catalog, &ctx, "test-message"),
        "Este es un mensaje de prueba"
    );
}

#[test]
fn test_set_language_from_accept_language_complex() {
    let catalog = demo_catalog();
    let mut ctx = LocaleContext::new();
    let _ = set_language_from_accept_language(&mut ctx, &catalog, "fr-FR,fr;q=0.9,en;q=0.8");
    assert_eq!(
        get_message(&catalog, &ctx, "test-message"),
        "Ceci est un message de test"
    );
}

#[test]
fn test_set_language_from_accept_language_fallback() {
    let catalog = demo_catalog();
    let mut ctx = LocaleContext::new();
    // No overlap with the available locales: the active locale is unchanged.
    let _ = set_language_from_accept_language(&mut ctx, &catalog, "de,ja;q=0.9,zh;q=0.8");
    assert_eq!(
        get_message(&catalog, &ctx, "test-message"),
        "This is a test message"
    );
}

#[test]
fn test_set_language_from_accept_language_invalid() {
    let catalog = demo_catalog();
    let mut ctx = LocaleContext::new();
    let _ = set_language_from_accept_language(&mut ctx, &catalog, "invalid-language-tag");
    assert_eq!(
        get_message(&catalog, &ctx, "test-message"),
        "This is a test message"
    );
}

#[test]
fn test_middleware_sets_language() {
    let catalog = demo_catalog();

    let mut ctx = LocaleContext::new();
    assert_eq!(
        get_message(&catalog, &ctx, "test-message"),
        "This is a test message"
    );

    let _ = set_language_from_accept_language(&mut ctx, &catalog, "es");
    assert_eq!(
        get_message(&catalog, &ctx, "test-message"),
        "Este es un mensaje de prueba"
    );

    let _ = set_language_from_accept_language(&mut ctx, &catalog, "fr-FR,fr;q=0.9,en;q=0.8");
    assert_eq!(
        get_message(&catalog, &ctx, "test-message"),
        "Ceci est un message de test"
    );

    // A fresh unit of work with no preference stays on the fallback.
    let mut fresh = LocaleContext::new();
    let _ = set_language_from_accept_language(&mut fresh, &catalog, "");
    assert_eq!(
        get_message(&catalog, &fresh, "test-message"),
        "This is a test message"
    );
}

#[test]
fn test_negotiation_reports_whether_a_locale_was_selected() {
    let catalog = demo_catalog();
    let mut ctx = LocaleContext::new();
    assert!(set_language_from_accept_language(&mut ctx, &catalog, "es"));
    let mut other = LocaleContext::new();
    assert!(!set_language_from_accept_language(
        &mut other, &catalog, "de"
    ));
    assert!(!set_language_from_accept_language(&mut other, &catalog, ""));
}

#[test]
fn test_quality_orders_candidates() {
    let catalog = demo_catalog();
    // The later entry wins on higher quality.
    let mut ctx = LocaleContext::new();
    let _ = set_language_from_accept_language(&mut ctx, &catalog, "en;q=0.5,es;q=0.9");
    assert_eq!(
        get_message(&catalog, &ctx, "test-message"),
        "Este es un mensaje de prueba"
    );
    // The default quality 1 beats an explicit 0.9.
    let mut ctx = LocaleContext::new();
    let _ = set_language_from_accept_language(&mut ctx, &catalog, "fr;q=0.9,es");
    assert_eq!(
        get_message(&catalog, &ctx, "test-message"),
        "Este es un mensaje de prueba"
    );
}

#[test]
fn test_equal_quality_keeps_header_order() {
    let catalog = demo_catalog();
    let mut ctx = LocaleContext::new();
    let _ = set_language_from_accept_language(&mut ctx, &catalog, "es,fr");
    assert_eq!(
        get_message(&catalog, &ctx, "test-message"),
        "Este es un mensaje de prueba"
    );
    let mut ctx = LocaleContext::new();
    let _ = set_language_from_accept_language(&mut ctx, &catalog, "fr;q=0.8,es;q=0.8");
    assert_eq!(
        get_message(&catalog, &ctx, "test-message"),
        "Ceci est un message de test"
    );
}

#[test]
fn test_unparsable_quality_discards_the_entry() {
    let catalog = demo_catalog();
    let mut ctx = LocaleContext::new();
    let _ = set_language_from_accept_language(&mut ctx, &catalog, "es;q=nope,fr;q=0.5");
    assert_eq!(
        get_message(&catalog, &ctx, "test-message"),
        "Ceci est un message de test"
    );
    // A quality above one does not parse either.
    let mut ctx = LocaleContext::new();
    let _ = set_language_from_accept_language(&mut ctx, &catalog, "es;q=1.5,fr;q=0.5");
    assert_eq!(
        get_message(&catalog, &ctx, "test-message"),
        "Ceci est un message de test"
    );
}

#[test]
fn test_header_whitespace_is_trimmed() {
    let catalog = demo_catalog();
    let mut ctx = LocaleContext::new();
    let _ = set_language_from_accept_language(&mut ctx, &catalog, "  es , de ");
    assert_eq!(
        get_message(&catalog, &ctx, "test-message"),
        "Este es un mensaje de prueba"
    );
}

#[test]
fn test_exact_match_beats_subtag_match() {
    let sources = vec![
        (
            "fr-CA".to_string(),
            "test-message = Bonjour du Canada\n".to_string(),
        ),
        ("fr".to_string(), "test-message = Bonjour\n".to_string()),
    ];
    let catalog = load("fr", sources).unwrap();
    // The exact pass selects fr itself, not the earlier fr-CA bundle.
    let mut ctx = LocaleContext::new();
    let _ = set_language_from_accept_language(&mut ctx, &catalog, "fr");
    assert_eq!(get_message(&catalog, &ctx, "test-message"), "Bonjour");
    // A tag with no exact bundle falls to the first language-subtag match.
    let mut ctx = LocaleContext::new();
    let _ = set_language_from_accept_language(&mut ctx, &catalog, "fr-BE");
    assert_eq!(
        get_message(&catalog, &ctx, "test-message"),
        "Bonjour du Canada"
    );
}

#[test]
fn test_negotiation_failure_keeps_earlier_selection() {
    let catalog = demo_catalog();
    let mut ctx = LocaleContext::new();
    let _ = set_language_from_accept_language(&mut ctx, &catalog, "es");
    let _ = set_language_from_accept_language(&mut ctx, &catalog, "de,ja");
    assert_eq!(
        get_message(&catalog, &ctx, "test-message"),
        "Este es un mensaje de prueba"
    );
}

#[test]
fn test_context_state_machine() {
    let catalog = demo_catalog();
    let mut ctx = LocaleContext::new();
    assert!(matches!(ctx, LocaleContext::Unset));
    ctx.begin_negotiation();
    assert!(matches!(ctx, LocaleContext::Negotiating));
    let changed = ctx.negotiate(&catalog, "es");
    assert!(changed);
    assert!(matches!(ctx, LocaleContext::Selected(_)));
    // Selected is terminal for begin_negotiation.
    ctx.begin_negotiation();
    assert!(matches!(ctx, LocaleContext::Selected(_)));
}

#[test]
fn test_concurrent_contexts_stay_isolated() {
    let catalog = demo_catalog();
    let mut ctx_a = LocaleContext::new();
    let mut ctx_b = LocaleContext::new();
    let _ = set_language_from_accept_language(&mut ctx_a, &catalog, "es");
    let _ = set_language_from_accept_language(&mut ctx_b, &catalog, "fr");
    // Interleaved resolutions: each unit of work sees its own locale only.
    assert_eq!(
        get_message(&catalog, &ctx_a, "test-message"),
        "Este es un mensaje de prueba"
    );
    assert_eq!(
        get_message(&catalog, &ctx_b, "test-message"),
        "Ceci est un message de test"
    );
    let _ = set_language_from_accept_language(&mut ctx_b, &catalog, "en");
    assert_eq!(
        get_message(&catalog, &ctx_a, "test-message"),
        "Este es un mensaje de prueba"
    );
    assert_eq!(
        get_message(&catalog, &ctx_b, "test-message"),
        "This is a test message"
    );
}
