use g2p::japanese::{phonemize, tokyo_pitch_level, NjdNode, PhoneLabel};
use g2p::Error;

// Analyses in the front end's shape: word nodes (part of speech, moras,
// accent nucleus, chain flag) and one full-context label per phone (mora
// position in the accent phrase, accent phrase position in the breath
// group), between the utterance's two silences.
fn node(pos: &str, moras: usize, accent: usize, chain: Option<bool>) -> NjdNode {
    NjdNode { moras, pos: pos.to_string(), chain_flag: chain, accent }
}

fn sil() -> PhoneLabel {
    PhoneLabel { phone: Some("sil".to_string()), mora: None, accent_phrase: None }
}

fn ph(p: &str, mora: u8, accent_phrase: u8) -> PhoneLabel {
    PhoneLabel { phone: Some(p.to_string()), mora: Some(mora), accent_phrase: Some(accent_phrase) }
}

fn gakkou() -> (Vec<NjdNode>, Vec<PhoneLabel>) {
    // 学校: ガッコー, heiban, four moras.
    (
        vec![node("名詞,一般,*,*", 4, 0, None)],
        vec![sil(), ph("g", 1, 1), ph("a", 1, 1), ph("cl", 2, 1), ph("k", 3, 1), ph("o", 3, 1), ph("o", 4, 1), sil()],
    )
}

fn hashi(accent: usize) -> (Vec<NjdNode>, Vec<PhoneLabel>) {
    (
        vec![node("名詞,一般,*,*", 2, accent, None)],
        vec![sil(), ph("h", 1, 1), ph("a", 1, 1), ph("sh", 2, 1), ph("i", 2, 1), sil()],
    )
}

#[test]
fn maps_phones_and_gemination() {
    let (n, l) = gakkou();
    let l = phonemize(&n, &l).unwrap();
    assert_eq!(l.phonemes, ["ɡ", "a", "kː", "o", "o"]);
}

#[test]
fn pitch_accent_distinguishes_hashi() {
    // 箸 (chopsticks) is atamadaka HL; 橋 (bridge) is LH.
    let levels = |accent: usize| {
        let (n, l) = hashi(accent);
        let l = phonemize(&n, &l).unwrap();
        assert!(l.accent_withheld.is_none(), "{l:?}");
        l.pitch.iter().flatten().map(|p| p.level).collect::<Vec<_>>()
    };
    assert_eq!(levels(1), [1, 0]);
    assert_eq!(levels(2), [0, 1]);
}

#[test]
fn fragments_withhold_accent_but_keep_phones() {
    // ません: the first word is an auxiliary.
    let n = vec![node("助動詞,*,*,*", 2, 1, None), node("助動詞,*,*,*", 1, 0, Some(true))];
    let l = vec![sil(), ph("m", 1, 1), ph("a", 1, 1), ph("s", 2, 1), ph("e", 2, 1), ph("N", 3, 1), sil()];
    let l = phonemize(&n, &l).unwrap();
    assert!(!l.phonemes.is_empty());
    assert_eq!(l.accent_withheld.as_deref(), Some("japanese_accent_head_truncated"));
    assert!(l.pitch.is_empty());
}

#[test]
fn terminal_sokuon_is_refused() {
    // 早っ: the closure ends the utterance.
    let n = vec![node("形容詞,自立,*,*", 3, 1, None)];
    let l = vec![sil(), ph("h", 1, 1), ph("a", 1, 1), ph("y", 2, 1), ph("a", 2, 1), ph("cl", 3, 1), sil()];
    assert!(matches!(
        phonemize(&n, &l),
        Err(Error::Unlabelable(r)) if r == "japanese_terminal_sokuon"
    ));
}

#[test]
fn heiban_pitch_rises_after_the_first_mora() {
    let (n, l) = gakkou();
    let l = phonemize(&n, &l).unwrap();
    let p: Vec<(u8, u8)> = l.pitch.iter().flatten().map(|p| (p.mora, p.level)).collect();
    assert_eq!(p, [(1, 0), (3, 1), (4, 1)]);
    assert_eq!(l.pitch.len(), l.phonemes.len());
    assert_eq!(l.native_phones, ["g", "a", "cl", "k", "o", "o"]);
}

#[test]
fn tokyo_levels() {
    assert_eq!(tokyo_pitch_level(1, 0, 3), 0);
    assert_eq!(tokyo_pitch_level(2, 0, 3), 1);
    assert_eq!(tokyo_pitch_level(1, 1, 3), 1);
    assert_eq!(tokyo_pitch_level(2, 1, 3), 0);
    assert_eq!(tokyo_pitch_level(2, 2, 3), 1);
    assert_eq!(tokyo_pitch_level(3, 2, 3), 0);
    assert_eq!(tokyo_pitch_level(1, 1, 1), 1);
    assert_eq!(tokyo_pitch_level(1, 0, 1), 0);
}

#[test]
fn closures_that_cannot_geminate_are_refused() {
    // あっ、あ: a closure before a vowel.
    let n = vec![node("感動詞,*,*,*", 2, 1, None), node("感動詞,*,*,*", 1, 1, None)];
    let l = vec![sil(), ph("a", 1, 1), ph("cl", 2, 1), ph("a", 1, 2), sil()];
    assert_eq!(
        phonemize(&n, &l),
        Err(Error::Unlabelable("japanese_ungeminable_closure".to_string()))
    );
    let l = vec![sil(), ph("a", 1, 1), ph("cl", 2, 1), ph("cl", 2, 1), sil()];
    assert_eq!(
        phonemize(&n, &l),
        Err(Error::Unlabelable("japanese_double_closure".to_string()))
    );
}

#[test]
fn unknown_phones_and_missing_fields_are_errors() {
    let n = vec![node("名詞,一般,*,*", 1, 0, None)];
    let l = vec![sil(), ph("xx", 1, 1), sil()];
    assert_eq!(
        phonemize(&n, &l),
        Err(Error::Unlabelable("japanese_unknown_phone:xx".to_string()))
    );
    let l = vec![sil(), PhoneLabel { phone: Some("a".to_string()), mora: None, accent_phrase: Some(1) }, sil()];
    assert_eq!(
        phonemize(&n, &l),
        Err(Error::Synth("jpreprocess label for \"a\" lacks mora/accent-phrase fields".to_string()))
    );
}

#[test]
fn accent_is_withheld_without_content_or_on_mismatch() {
    // Only symbols: no content word.
    let n = vec![node("記号,一般,*,*", 1, 0, None)];
    let l = vec![sil(), ph("a", 1, 1), sil()];
    let r = phonemize(&n, &l).unwrap();
    assert_eq!(r.accent_withheld.as_deref(), Some("japanese_accent_no_content_word"));
    // Two phrases in the labels, one in the nodes.
    let n = vec![node("名詞,一般,*,*", 2, 0, None)];
    let l = vec![sil(), ph("a", 1, 1), ph("a", 1, 2), sil()];
    let r = phonemize(&n, &l);
    assert_eq!(r, Err(Error::Synth("jpreprocess accent-phrase mismatch".to_string())));
    let n = vec![node("名詞,一般,*,*", 1, 0, None), node("名詞,一般,*,*", 1, 0, None)];
    let l = vec![sil(), ph("a", 1, 1), sil()];
    let r = phonemize(&n, &l).unwrap();
    assert_eq!(r.accent_withheld.as_deref(), Some("njd_hts_phrase_boundary_mismatch"));
    assert!(r.pitch.is_empty());
    assert_eq!(r.phonemes, ["a"]);
}

#[test]
fn no_labels_is_empty() {
    let r = phonemize(&[], &[sil()]).unwrap();
    assert!(r.phonemes.is_empty() && r.native_phones.is_empty() && r.accent_withheld.is_none());
}
