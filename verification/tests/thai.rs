use g2p::thai::parse;
use g2p::Stress;

#[test]
fn parses_vachana_ipa_like_lexide() {
    let l = parse("sàwàtdiː kʰráp, pʰǒm tɕʰɯ̂ː").unwrap();
    assert_eq!(
        l.phonemes,
        [
            "s", "a", "w", "a", "t", "d", "iː", "kʰ", "r", "a", "p", "pʰ", "o", "m", "tɕʰ",
            "ɯː"
        ]
    );
    // Tones ride on vowels: low, low, mid, high, rising, falling.
    let tones: Vec<u8> = l.tone.iter().flatten().copied().collect();
    assert_eq!(tones, [2, 2, 1, 4, 5, 3]);
    // Final vowel of each word is stressed.
    let stressed: Vec<usize> = l
        .stress
        .iter()
        .enumerate()
        .filter(|(_, s)| **s == Stress::Primary)
        .map(|(i, _)| i)
        .collect();
    assert_eq!(stressed, [6, 9, 12, 15]);
    assert_eq!(l.word_spans, [(0, 7), (7, 11), (11, 14), (14, 16)]);
}


#[test]
fn refuses_mixed_script() {
    assert!(matches!(
        g2p::thai::screen("ผมใช้ AOL"),
        Err(g2p::Error::Unlabelable(r)) if r.starts_with("thai_mixed_latin")
    ));
    assert_eq!(g2p::thai::screen("ผมใช้"), Ok(()));
}

#[test]
fn consonants_bear_no_tone() {
    // A tone mark after a consonant is passed over; the vowel keeps its own.
    let l = parse("m\u{301}a").unwrap();
    assert_eq!(l.phonemes, ["m", "a"]);
    assert_eq!(l.tone, [None, Some(1)]);
}

#[test]
fn decomposed_scan_is_the_same_labels() {
    let raw = "kʰráp";
    let text: Vec<char> = "kʰra\u{301}p".chars().collect();
    let l = g2p::thai::parse_decomposed(raw, &text).unwrap();
    assert_eq!(l, parse(raw).unwrap());
    assert_eq!(l.raw, raw);
    assert_eq!(l.tone, [None, None, Some(4), None]);
}
