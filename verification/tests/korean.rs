use g2p::korean::{labels, word_phones, words};
use g2p::{Error, Stress};

#[test]
fn maps_post_sandhi_hangul_to_phones() {
    let l = labels(&["갑씨".into(), "실라".into(), "꼰닙".into(), "의사".into()]).unwrap();
    assert_eq!(
        l.phonemes,
        [
            "k", "a", "p", "s͈", "i", "s", "i", "l", "l", "a", "k͈", "o", "n", "n", "i", "p",
            "ɯ", "i", "s", "a"
        ]
    );
    assert_eq!(l.word_spans, [(0, 5), (5, 10), (10, 16), (16, 20)]);
    assert!(l.stress.iter().all(|s| *s == Stress::Unstressed));
    assert_eq!(l.raw, "갑씨 실라 꼰닙 의사");
}

#[test]
fn tap_between_vowels_lateral_in_coda() {
    assert_eq!(word_phones("라디오").unwrap(), ["ɾ", "a", "t", "i", "o"]);
    assert_eq!(word_phones("물").unwrap(), ["m", "u", "l"]);
    assert_eq!(word_phones("설랄").unwrap(), ["s", "ʌ", "l", "l", "a", "l"]);
}

#[test]
fn rejects_unneutralized_codas() {
    assert!(matches!(word_phones("값"), Err(Error::Synth(_))));
}

#[test]
fn splits_words_and_strips_punctuation() {
    assert_eq!(
        words("“안녕, 라디오!” 뭐라고요?").unwrap(),
        ["안녕", "라디오", "뭐라고요"]
    );
    assert!(words("...").unwrap().is_empty());
}

#[test]
fn refuses_digits_latin_jamo_hanja() {
    for (text, reason) in [
        ("3개 주세요", "korean_digits:3"),
        ("mp3 파일", "korean_digits:3"),
        (
            "그 사람 좀 old school이야",
            "korean_latin_script:old,school",
        ),
        ("ㄴ 것 같다", "korean_jamo:ㄴ"),
        ("韓國 사람", "korean_unsupported_char:韓國"),
    ] {
        match words(text) {
            Err(Error::Unlabelable(r)) => assert_eq!(r, reason, "{text}"),
            other => panic!("{text}: {other:?}"),
        }
    }
}


#[test]
fn refusal_messages_quote_the_reply() {
    assert_eq!(
        word_phones("값"),
        Err(Error::Synth("korean backend left an unneutralized coda in \"값\"".into()))
    );
    assert_eq!(
        word_phones("가a"),
        Err(Error::Synth("korean backend returned a non-syllable 'a' in \"가a\"".into()))
    );
}
