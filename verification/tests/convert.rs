use g2p::convert::{
    espeak_phonemized, flatten_lines, japanese_phonemized, join_clauses, korean_phonemized,
    mandarin_phonemized, thai_phonemized, tone_language,
};
use g2p::{Error, Parsed, Pitch, Stress};

fn strings(v: &[&str]) -> Vec<String> {
    v.iter().map(|s| s.to_string()).collect()
}

#[test]
fn tone_codes_attach_to_the_phone_before_them() {
    let parsed = Parsed {
        phonemes: strings(&["n", "e", "i", "5", "h", "o", "u", "2"]),
        stress: vec![Stress::Unstressed; 8],
        word_spans: vec![(0, 4), (4, 8)],
    };
    let p = espeak_phonemized("nei5 hou2".to_string(), parsed, true).unwrap();
    assert_eq!(p.phonemes.iter().map(|x| x.as_str()).collect::<Vec<_>>(), ["n", "e", "i", "h", "o", "u"]);
    assert_eq!(p.tone, [None, None, Some(5), None, None, Some(2)]);
    assert_eq!(p.word_spans, [(0, 3), (3, 6)]);
    assert_eq!(p.stress.len(), p.phonemes.len());
    assert_eq!(p.raw, "nei5 hou2");
}

#[test]
fn unattached_tones_are_refused() {
    let parsed = Parsed {
        phonemes: strings(&["5", "a", "3", "4"]),
        stress: vec![Stress::Unstressed; 4],
        word_spans: vec![(0, 1), (1, 4)],
    };
    assert_eq!(
        espeak_phonemized(String::new(), parsed.clone(), true),
        Err(Error::Unlabelable("espeak_unattached_tone:5".to_string()))
    );
    let parsed = Parsed { phonemes: strings(&["a", "3", "4"]), stress: vec![Stress::Unstressed; 3], word_spans: vec![(0, 3)] };
    assert_eq!(
        espeak_phonemized(String::new(), parsed.clone(), true),
        Err(Error::Unlabelable("espeak_unattached_tone:4".to_string()))
    );
    // Without tones a digit is no label.
    assert!(matches!(espeak_phonemized(String::new(), parsed, false), Err(Error::UnknownPhoneme(u)) if u.token == "3"));
}

#[test]
fn words_without_labels_leave_no_span() {
    let parsed = Parsed {
        phonemes: strings(&["a", "5", "b"]),
        stress: vec![Stress::Primary, Stress::Unstressed, Stress::Unstressed],
        word_spans: vec![(0, 2), (2, 3)],
    };
    let p = espeak_phonemized("x".to_string(), parsed, true).unwrap();
    assert_eq!(p.word_spans, [(0, 1), (1, 2)]);
    assert_eq!(p.stress, [Stress::Primary, Stress::Unstressed]);
    assert!(p.syllables.is_empty() && p.pitch.is_empty());
}

#[test]
fn clauses_join_into_one_line() {
    assert_eq!(join_clauses(&strings(&["on  est", " là\n", ""])), "on est là");
    assert_eq!(join_clauses(&strings(&[])), "");
    assert_eq!(flatten_lines("on\nest\r"), "on est ");
    assert!(tone_language("yue") && tone_language("vi"));
    assert!(!tone_language("cmn"));
}

#[test]
fn korean_and_thai_labels_keep_their_fields() {
    let k = g2p::korean::Labels {
        raw: "가".to_string(),
        phonemes: strings(&["k", "a"]),
        stress: vec![Stress::Unstressed; 2],
        word_spans: vec![(0, 2)],
    };
    let p = korean_phonemized(k).unwrap();
    assert_eq!(p.raw, "가");
    assert_eq!(p.word_spans, [(0, 2)]);
    assert!(p.tone.is_empty());
    let t = g2p::thai::Labels {
        raw: "kʰráp".to_string(),
        phonemes: strings(&["kʰ", "r", "a", "p"]),
        stress: vec![Stress::Unstressed, Stress::Unstressed, Stress::Primary, Stress::Unstressed],
        tone: vec![None, None, Some(4), None],
        word_spans: vec![(0, 4)],
    };
    let p = thai_phonemized(t).unwrap();
    assert_eq!(p.tone, [None, None, Some(4), None]);
    let bad = g2p::korean::Labels { raw: String::new(), phonemes: strings(&["a", "?"]), stress: vec![], word_spans: vec![] };
    assert!(matches!(korean_phonemized(bad), Err(Error::UnknownPhoneme(u)) if u.token == "?"));
}

#[test]
fn japanese_labels_are_one_word() {
    let pitch = Pitch { phrase: 1, mora: 1, phrase_moras: 2, nucleus: 1, level: 1 };
    let l = g2p::japanese::Labels {
        phonemes: strings(&["h", "a"]),
        pitch: vec![None, Some(pitch)],
        accent_withheld: None,
        native_phones: strings(&["h", "a"]),
    };
    let p = japanese_phonemized(l).unwrap();
    assert_eq!(p.raw, "h a");
    assert_eq!(p.word_spans, [(0, 2)]);
    assert_eq!(p.stress, [Stress::Unstressed, Stress::Unstressed]);
    assert_eq!(p.pitch, [None, Some(pitch)]);
    let empty = japanese_phonemized(g2p::japanese::Labels::default()).unwrap();
    assert!(empty.word_spans.is_empty());
}

#[test]
fn mandarin_syllables_are_words() {
    let s = vec![
        g2p::mandarin::Syllable { char: '你', pinyin: "ni3".to_string(), phonemes: strings(&["n", "i"]), tone: vec![None, Some(3)] },
        g2p::mandarin::Syllable { char: '好', pinyin: "hao3".to_string(), phonemes: strings(&["x", "au̯"]), tone: vec![None, Some(3)] },
    ];
    let p = mandarin_phonemized(s).unwrap();
    assert_eq!(p.raw, "ni3 hao3");
    assert_eq!(p.word_spans, [(0, 2), (2, 4)]);
    assert_eq!(p.tone, [None, Some(3), None, Some(3)]);
    assert_eq!(p.stress, [Stress::Unstressed; 4]);
}
