use g2p::mandarin::{screen, slot, split_reading, syllable, Slot, Syllable};
use g2p::Error;

// A character read with its reading (the dictionary's, or the context
// model's choice) and the syllable table's IPA for the toneless syllable,
// `0` marking the phone that bears the contour.
fn read(c: char, reading: &str, variant: &[&str]) -> Syllable {
    let (pinyin, _, tone) = split_reading(c, reading).unwrap();
    let v: Vec<String> = variant.iter().map(|s| s.to_string()).collect();
    syllable(c, pinyin, tone, Some(&v)).unwrap()
}

#[test]
fn monophones_come_from_the_dictionary() {
    let labels: Vec<(String, String)> = [read('你', "ni3", &["n", "i0"]), read('好', "hao3", &["x", "a0u̯"])]
        .into_iter()
        .map(|s| (s.pinyin, s.phonemes.join(" ")))
        .collect();
    assert_eq!(labels, [("ni3".into(), "n i".into()), ("hao3".into(), "x au̯".into())]);
}

#[test]
fn tone_attaches_to_the_contour_phone() {
    let s = read('中', "zhong1", &["ʈʂ", "ʊ0", "ŋ"]);
    assert_eq!(s.phonemes, ["ʈʂ", "ʊ", "ŋ"]);
    assert_eq!(s.tone, [None, Some(1), None]);
    // Neutral tone goes on the first vowel-like phone.
    let le = read('了', "le5", &["l", "ɤ0"]);
    assert_eq!(le.pinyin, "le5");
    assert_eq!(le.tone, [None, Some(5)]);
}

#[test]
fn erhua_suffix_is_a_syllable() {
    let s = [read('哪', "na3", &["n", "a0"]), read('儿', "r5", &["ɚ0"])];
    assert_eq!(s[1].pinyin, "er5");
    assert_eq!(s[1].phonemes, ["ɚ"]);
    assert_eq!(s[1].tone, [Some(5)]);
}

#[test]
fn refuses_holes() {
    assert!(matches!(screen("我有2个"), Err(Error::Unlabelable(r)) if r.starts_with("mandarin_digits")));
    assert!(matches!(screen("我用AOL"), Err(Error::Unlabelable(r)) if r.starts_with("mandarin_latin")));
    // Punctuation is fine: it is skipped.
    let readings = [('你', 1), ('好', 2), ('，', 0), ('世', 1), ('界', 1), ('！', 0)];
    assert_eq!(screen("你好，世界！"), Ok(()));
    let read: Vec<Slot> = readings
        .iter()
        .map(|&(c, n)| slot(c, n).unwrap())
        .filter(|s| *s != Slot::Skip)
        .collect();
    assert_eq!(read.len(), 4);
}

#[test]
fn letter_like_characters_without_a_reading_are_refused() {
    assert_eq!(
        slot('カ', 0),
        Err(Error::Unlabelable("mandarin_unknown_char:カ".to_string()))
    );
    assert_eq!(slot('行', 2), Ok(Slot::Polyphone));
    assert_eq!(slot('中', 1), Ok(Slot::Reading));
}

#[test]
fn readings_are_normalized_and_split() {
    assert_eq!(
        split_reading('绿', "lu:4"),
        Ok(("lv4".to_string(), "lv".to_string(), 4))
    );
    assert_eq!(
        split_reading('儿', "r5"),
        Ok(("er5".to_string(), "er".to_string(), 5))
    );
    assert_eq!(
        split_reading('㎏', "qian1 ke4"),
        Err(Error::Unlabelable("mandarin_unknown_char:㎏".to_string()))
    );
    assert_eq!(
        split_reading('x', "5"),
        Err(Error::Unlabelable("mandarin_unknown_char:x".to_string()))
    );
}

#[test]
fn syllables_need_a_table_entry_and_a_bearer() {
    assert_eq!(
        syllable('x', "xx1".to_string(), 1, None),
        Err(Error::Unlabelable("mandarin_unknown_syllable:xx1".to_string()))
    );
    let v = vec!["m".to_string()];
    assert_eq!(
        syllable('m', "m5".to_string(), 5, Some(&v)),
        Err(Error::Unlabelable("mandarin_no_tone_bearer:m5".to_string()))
    );
    assert_eq!(screen("１"), Err(Error::Unlabelable("mandarin_digits:１".to_string())));
}

#[test]
fn readings_follow_the_dictionary_and_the_picks() {
    let chars: Vec<char> = "银行，了".chars().collect();
    let readings: Vec<Vec<String>> = vec![
        vec!["yin2".into()],
        vec!["xing2".into(), "hang2".into()],
        vec![],
        vec!["le5".into(), "liao3".into()],
    ];
    let picks: Vec<String> = vec!["hang2".into(), "le5".into()];
    assert_eq!(
        g2p::mandarin::choose_readings(&chars, &readings, &picks),
        [('银', "yin2".to_string()), ('行', "hang2".to_string()), ('了', "le5".to_string())]
    );
}

#[test]
fn vocabulary_rows_give_character_ids() {
    let (rows, ids) = g2p::mandarin::char_ids("<PAD>\n<UNK>\n<s>\n</s>\n你\n好\r\n");
    assert_eq!(rows, ["<PAD>", "<UNK>", "<s>", "</s>", "你", "好"]);
    assert_eq!(ids, [('你', 4), ('好', 5)]);
}

#[test]
fn dictionary_lines_give_readings() {
    assert_eq!(
        g2p::mandarin::dictionary("你\tni3\n行\txing2,hang2\n"),
        Some(vec![('你', vec!["ni3".to_string()]), ('行', vec!["xing2".to_string(), "hang2".to_string()])])
    );
    assert_eq!(g2p::mandarin::dictionary("你 ni3\n"), None);
    assert_eq!(g2p::mandarin::dictionary("\tni3\n"), None);
    assert_eq!(g2p::mandarin::dictionary(""), Some(vec![]));
}

#[test]
fn syllable_table_lines_give_variants() {
    let t = g2p::mandarin::syllable_table("zhong\tʈʂ|ʊ0|ŋ ; ʈʂ|o0|ŋ\nni\tn|i0\n").unwrap();
    assert_eq!(t.len(), 2);
    assert_eq!(t[0].0, "zhong");
    assert_eq!(t[0].1, [vec!["ʈʂ", "ʊ0", "ŋ"], vec!["ʈʂ", "o0", "ŋ"]]);
    assert_eq!(t[1], ("ni".to_string(), vec![vec!["n".to_string(), "i0".to_string()]]));
    assert_eq!(g2p::mandarin::syllable_table("ni n|i0\n"), None);
}

#[test]
fn lines_split_like_str_lines() {
    for text in ["a\nb", "a\r\nb\n", "", "\n\n", "x\r", "a\n\nb"] {
        let expected: Vec<String> = text.lines().map(str::to_string).collect();
        assert_eq!(g2p::text::lines(text), expected, "{text:?}");
    }
}
