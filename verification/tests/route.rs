use g2p::route::{identity, label_source, phonemize, phonemize_lang, Route};
use g2p::{Error, LabelSource, Language};

const ESPEAK_VOICES: &[(Language, &str)] = &[
    (Language::English, "en-us"),
    (Language::German, "de"),
    (Language::French, "fr-fr"),
    (Language::Italian, "it"),
    (Language::PortugueseBrazil, "pt-br"),
    (Language::SpanishEuro, "es"),
    (Language::Russian, "ru"),
    (Language::Albanian, "sq"),
    (Language::Arabic, "ar"),
    (Language::Armenian, "hy"),
    (Language::Cantonese, "yue"),
    (Language::Croatian, "hr"),
    (Language::Czech, "cs"),
    (Language::Danish, "da"),
    (Language::Persian, "fa"),
    (Language::Dutch, "nl"),
    (Language::Finnish, "fi"),
    (Language::HaitianCreole, "ht"),
    (Language::Hebrew, "he"),
    (Language::Hungarian, "hu"),
    (Language::Icelandic, "is"),
    (Language::Indonesian, "id"),
    (Language::Irish, "ga"),
    (Language::Greek, "el"),
    (Language::Norwegian, "nb"),
    (Language::Polish, "pl"),
    (Language::Punjabi, "pa"),
    (Language::Romanian, "ro"),
    (Language::Swahili, "sw"),
    (Language::Swedish, "sv"),
    (Language::Turkish, "tr"),
    (Language::Ukrainian, "uk"),
    (Language::Urdu, "ur"),
    (Language::Vietnamese, "vi"),
    (Language::SpanishLatinAmerica, "es-419"),
    (Language::PortugueseEuro, "pt"),
];

#[test]
fn every_mapping_is_reachable() {
    let mut selections = Vec::new();
    for &(language, voice) in ESPEAK_VOICES {
        assert_eq!(label_source(language.code()), Some(LabelSource::Espeak));
        assert_eq!(phonemize(language, ""), Ok(Route::Espeak(voice)));
        assert!(!selections.contains(&language), "duplicate selection: {language:?}");
        selections.push(language);
    }
}

#[test]
fn typed_languages_replay_the_corresponding_engine_output() {
    for (language, voice, text) in [
        (Language::SpanishEuro, "es", "cinco"),
        (Language::SpanishLatinAmerica, "es-419", "cinco"),
        (Language::PortugueseBrazil, "pt-br", "dia noite"),
        (Language::PortugueseEuro, "pt", "dia noite"),
    ] {
        assert_eq!(phonemize(language, text), Ok(Route::Espeak(voice)));
    }
}

#[test]
fn english_refuses_hangul_instead_of_switching_to_korean() {
    for text in [
        "아니요, 그렇지만 그것은 충분해요. Listen and repeat.",
        "Hello ᄀ",
        "Hello ㄱ",
        "Hello ꥠ",
        "Hello ힰ",
        "Hello ﾡ",
    ] {
        assert!(matches!(phonemize_lang("eng", text),
            Err(Error::Unlabelable(reason)) if reason.starts_with("english_hangul:")));
    }
    assert!(phonemize_lang("eng", "Listen and repeat.").is_ok());
}

#[test]
fn espeak_tests_identity_is_stable_and_specific() {
    let id = identity("d1", "t1", "k1");
    assert!(id.starts_with("g2p/"), "{id}");
    assert!(id.contains("espeak-ng/"), "{id}");
    assert_eq!(id, identity("d1", "t1", "k1"));
}

#[test]
fn espeak_identity_is_stable_and_specific() {
    let id = identity("e", "t", "k");
    assert!(id.starts_with("g2p/"), "{id}");
    assert!(id.contains("espeak-ng/"), "{id}");
    assert_eq!(id, identity("e", "t", "k"));
}

#[test]
fn identity_names_every_digest() {
    assert_eq!(
        identity("abc", "def", "123"),
        "g2p/0.5.0 espeak-ng/abc thai/def korean/123"
    );
}

#[test]
fn label_sources_by_code() {
    assert_eq!(label_source("hin"), Some(LabelSource::Hindi));
    assert_eq!(label_source("zho-hans"), Some(LabelSource::Mandarin));
    assert_eq!(label_source("jpn"), Some(LabelSource::Japanese));
    assert_eq!(label_source("tha"), Some(LabelSource::Thai));
    assert_eq!(label_source("kor"), Some(LabelSource::Korean));
    assert_eq!(label_source("spa"), Some(LabelSource::Espeak));
    assert_eq!(label_source("spa-419"), None);
    assert_eq!(label_source("xx"), None);
}

#[test]
fn routes_by_language() {
    assert_eq!(phonemize_lang("kor", "안녕"), Ok(Route::Korean));
    assert_eq!(phonemize_lang("tha", "x"), Ok(Route::Thai));
    assert_eq!(phonemize_lang("jpn", "x"), Ok(Route::Japanese));
    assert_eq!(phonemize_lang("zho-hans", "x"), Ok(Route::Mandarin));
    assert_eq!(phonemize_lang("por", "dia"), Ok(Route::Espeak("pt-br")));
    assert_eq!(
        phonemize_lang("xx", "x"),
        Err(Error::UnsupportedLanguage("xx".to_string()))
    );
    // Only English refuses Hangul.
    assert_eq!(phonemize_lang("fra", "ㄱ"), Ok(Route::Espeak("fr-fr")));
}
