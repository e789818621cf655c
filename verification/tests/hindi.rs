use g2p::convert::hindi_phonemized;
use g2p::hindi::{phonemize, schwas, units, word, Canon, Unit};
use g2p::{phonemize_lang, Error, Route, Stress};

// The schwa classifier's decisions for the words below, one list per
// Devanagari word of the text, one entry per inherent schwa (`true` keeps
// it). The chain's other stages are what these tests exercise.
fn ipa(text: &str, canon: Canon, decisions: &[&[bool]]) -> String {
    let d: Vec<Vec<bool>> = decisions.iter().map(|x| x.to_vec()).collect();
    phonemize(text, canon, &d)
        .unwrap()
        .iter()
        .map(|w| w.phonemes.join(" "))
        .collect::<Vec<_>>()
        .join(" | ")
}

#[test]
fn legacy_matches_the_python_chain_on_known_words() {
    assert_eq!(ipa("यह", Canon::Legacy, &[&[true, false]]), "j ə ɦ");
    assert_eq!(ipa("संकट", Canon::Legacy, &[&[true, true, false]]), "s ə̃ k ə ʈ");
    assert_eq!(ipa("ज्ञान", Canon::Legacy, &[&[false]]), "d͡ʒ ɲ aː n");
    assert_eq!(ipa("दुश्मनों", Canon::Legacy, &[&[false]]), "d̪ ʊ ʃ m n oː̃");
    assert_eq!(ipa("ज़्यादा", Canon::Legacy, &[&[]]), "z j aː d̪ aː");
    assert_eq!(ipa("सच्ची", Canon::Legacy, &[&[true]]), "s ə t͡ʃ t͡ʃ iː");
    assert_eq!(ipa("उन्नीस", Canon::Legacy, &[&[false]]), "ʊ n n iː s");
    assert_eq!(ipa("Avant, je n'aimais pas les épinards.", Canon::Legacy, &[]), "");
}

#[test]
fn loan_ph_is_f_unless_native() {
    assert_eq!(ipa("फ़ोन", Canon::Legacy, &[&[false]]), "f oː n");
    assert_eq!(ipa("फोन", Canon::Legacy, &[&[false]]), "f oː n");
    assert_eq!(ipa("फल", Canon::Legacy, &[&[true, false]]), "pʰ ə l");
}

#[test]
fn current_raises_schwa_beside_h() {
    assert_eq!(ipa("शहर", Canon::Current, &[&[true, true, false]]), "ʃ ɛː ɦ ɛː ɾ");
    assert_eq!(ipa("कहना", Canon::Current, &[&[true, false]]), "k ɛː ɦ n aː");
    assert_eq!(ipa("बहन", Canon::Current, &[&[true, true, false]]), "b ɛː ɦ ɛː n");
    assert_eq!(ipa("जगह", Canon::Current, &[&[true, true, false]]), "d͡ʒ ə ɡ ɛː ɦ");
    // Not before a full vowel.
    assert_eq!(ipa("पहाड़", Canon::Current, &[&[true, false]]), "p ə ɦ aː ɽ");
    assert_eq!(ipa("कहानी", Canon::Current, &[&[true]]), "k ə ɦ aː n iː");
    assert_eq!(
        ipa("यह वह", Canon::Current, &[&[true, false], &[true, false]]),
        "j eː | ʋ oː"
    );
}

#[test]
fn current_neutralizes_final_high_vowels() {
    assert_eq!(ipa("पति", Canon::Current, &[&[true]]), "p ə t̪ iː");
    assert_eq!(ipa("वस्तु", Canon::Current, &[&[true]]), "ʋ ə s t̪ uː");
    assert_eq!(ipa("पति", Canon::Legacy, &[&[true]]), "p ə t̪ ɪ");
    // Only word-finally.
    assert_eq!(ipa("किताब", Canon::Current, &[&[false]]), "k ɪ t̪ aː b");
}

#[test]
fn current_fixes_velar_nasal_and_jn() {
    assert_eq!(ipa("संकट", Canon::Current, &[&[true, true, false]]), "s ə ŋ k ə ʈ");
    assert_eq!(ipa("ज्ञान", Canon::Current, &[&[false]]), "ɡ j aː n");
}

#[test]
fn current_restores_impossible_deletions() {
    assert_eq!(ipa("दुश्मनों", Canon::Current, &[&[false]]), "d̪ ʊ ʃ m ə n oː̃");
    // Conjunct runs are left alone.
    assert_eq!(ipa("संस्कृत", Canon::Current, &[&[true, false]]), "s ə n s k ɾ ɪ t̪");
}

#[test]
fn current_refuses_digits_and_latin() {
    assert!(matches!(
        phonemize("19 वीं शताब्दी", Canon::Current, &[]),
        Err(Error::Unlabelable(r)) if r.starts_with("hindi_digits")
    ));
    assert!(matches!(
        phonemize("AOL अपनी", Canon::Current, &[]),
        Err(Error::Unlabelable(r)) if r.starts_with("hindi_latin")
    ));
    assert!(phonemize("19 वीं", Canon::Legacy, &[vec![]]).is_ok());
}

#[test]
fn stress_follows_roy_rules() {
    // हिन्दुस्तान: ɦ ɪ n d̪ ʊ s t̪ aː n — superheavy final syllable stressed.
    let words = phonemize("हिन्दुस्तान", Canon::Legacy, &[vec![false]]).unwrap();
    let w = &words[0];
    let last = w.syllables.last().unwrap();
    assert!(last.stressed && last.moras >= 3, "{w:?}");
    assert_eq!(w.stress.len(), w.phonemes.len());
    assert_eq!(w.syllables[0].start, 0);
    assert_eq!(last.end, w.phonemes.len());
}

#[test]
fn hindi_default_remains_the_trained_current_output() {
    assert_eq!(phonemize_lang("hin", "यह शहर"), Ok(Route::Hindi));
    let decisions = vec![vec![true, false], vec![true, true, false]];
    let words = phonemize("यह शहर", Canon::Current, &decisions).unwrap();
    let result = hindi_phonemized(words.clone()).unwrap();
    assert_eq!(
        result.phonemes.iter().map(|p| p.as_str()).collect::<Vec<_>>(),
        ["j", "eː", "ʃ", "ɛː", "ɦ", "ɛː", "ɾ"]
    );
    assert_eq!(
        result.phonemes.iter().map(|p| p.as_str().to_string()).collect::<Vec<_>>(),
        words.into_iter().flat_map(|w| w.phonemes).collect::<Vec<_>>()
    );
    assert_eq!(word("यह", Canon::Current, &[true, false]).unwrap().phonemes, ["j", "eː"]);
    assert!(matches!(
        phonemize("19 यह AOL", Canon::Current, &[]),
        Err(Error::Unlabelable(_))
    ));
    assert_eq!(
        word("ज्ञान", Canon::Current, &[false]).unwrap().phonemes,
        ["ɡ", "j", "aː", "n"]
    );
}

#[test]
fn units_write_every_inherent_schwa() {
    let us = units("संकट", Canon::Legacy).unwrap();
    assert_eq!(
        us,
        [Unit::S, Unit::A, Unit::Nasal, Unit::K, Unit::A, Unit::Tt, Unit::A]
    );
    assert_eq!(schwas(&us), 3);
    let names: Vec<&str> = us.iter().map(|u| u.name()).collect();
    assert_eq!(names, ["s", "a", "~", "k", "a", "tt", "a"]);
    // Anusvara before a velar is ŋ in the current convention.
    assert_eq!(units("संकट", Canon::Current).unwrap()[2], Unit::Ng);
}

#[test]
fn anusvara_without_a_rule_is_refused_with_both_spellings_quoted() {
    // ङ writes its own inherent schwa, which no anusvara rule covers.
    match units("ङ", Canon::Legacy) {
        Err(Error::Unlabelable(r)) => assert_eq!(r, "anusvara before \"a\" in \"ङ\""),
        other => panic!("{other:?}"),
    }
}

#[test]
fn words_are_runs_of_the_devanagari_block() {
    assert_eq!(g2p::hindi::words("यह, AOL शहर!"), ["यह", "शहर"]);
    assert!(g2p::hindi::words("abc").is_empty());
}

#[test]
fn screen_names_every_digit_and_latin_run() {
    assert_eq!(
        g2p::hindi::screen("1 २ ab cd", Canon::Current),
        Err(Error::Unlabelable("hindi_digits:1२".to_string()))
    );
    assert_eq!(
        g2p::hindi::screen("ab यह cd", Canon::Current),
        Err(Error::Unlabelable("hindi_latin_script:ab,cd".to_string()))
    );
    assert_eq!(g2p::hindi::screen("1 ab", Canon::Legacy), Ok(()));
}

#[test]
fn syllables_tile_and_stress_marks_their_nuclei() {
    let w = word("किताब", Canon::Current, &[false]).unwrap();
    // k ɪ | t̪ aː b: a light first syllable of two (stressed) and a
    // superheavy final one.
    assert_eq!(w.syllables.len(), 2);
    assert_eq!((w.syllables[0].start, w.syllables[0].end), (0, 2));
    assert_eq!((w.syllables[1].start, w.syllables[1].end), (2, 5));
    assert_eq!(w.syllables[1].moras, 3);
    assert_eq!(
        w.stress,
        [Stress::Unstressed, Stress::Primary, Stress::Unstressed, Stress::Primary, Stress::Unstressed]
    );
    assert_eq!(w.schwa_retained, [false]);
}

#[test]
fn flattened_words_shift_their_syllables() {
    let decisions = vec![vec![true], vec![false]];
    let words = phonemize("पति किताब", Canon::Current, &decisions).unwrap();
    let p = hindi_phonemized(words).unwrap();
    assert_eq!(p.raw, "pət̪iː kɪt̪aːb");
    assert_eq!(p.word_spans, [(0, 4), (4, 9)]);
    assert_eq!(p.syllables[2].start, 4);
    assert_eq!(p.syllables.last().unwrap().end, 9);
    assert_eq!(p.stress.len(), p.phonemes.len());
}
