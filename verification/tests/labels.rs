use g2p::{Error, Phoneme, Phonemized};

#[test]
fn imported_ipa_preserves_tokens_without_inventing_prosody() {
    let target = Phonemized::from_ipa_tokens(" | t͡ʃ oʊ | ts ãː || ").unwrap();
    assert_eq!(
        target.phonemes.iter().map(|p| p.as_str()).collect::<Vec<_>>(),
        ["t͡ʃ", "oʊ", "ts", "ãː"]
    );
    assert_eq!(target.raw, " | t͡ʃ oʊ | ts ãː || ");
    assert_eq!(target.word_spans, [(0, 2), (2, 4)]);
    assert!(target.stress.is_empty() && target.tone.is_empty() && target.pitch.is_empty());
    assert!(Phonemized::from_ipa_tokens(" | ").unwrap().phonemes.is_empty());
    assert!(Phonemized::from_ipa_tokens("unknown").is_err());
}

#[test]
fn typed_words_keep_their_boundaries() {
    let w = |ts: &[&str]| ts.iter().map(|t| Phoneme::from_text(t).unwrap()).collect::<Vec<_>>();
    let p = Phonemized::from_words(vec![w(&["k", "a"]), vec![], w(&["t͡ʃ"])]);
    assert_eq!(p.raw, "ka t͡ʃ");
    assert_eq!(p.word_spans, [(0, 2), (2, 3)]);
    assert!(p.stress.is_empty());
}

#[test]
fn unknown_tokens_are_named() {
    let e = Phoneme::from_text("1").unwrap_err();
    assert_eq!(e.token, "1");
    assert_eq!(Error::UnknownPhoneme(e).message(), "unknown phoneme 1");
    assert_eq!(Error::NulByte.message(), "text contains a NUL byte");
    assert_eq!(
        Error::Unlabelable("x:y".to_string()).message(),
        "cannot label this text: x:y"
    );
}

#[test]
fn voice_and_language_are_quoted_in_messages() {
    assert_eq!(Error::UnknownVoice("xx".to_string()).message(), "espeak-ng has no voice \"xx\"");
    assert_eq!(
        Error::UnsupportedLanguage("x\"y".to_string()).message(),
        "no G2P backend for language \"x\\\"y\""
    );
}
