use g2p::parse::{parse, parse_framed, strip_language_markers, Parsed, Stress, PHONE_SEPARATOR, WORD_BOUNDARIES};

fn phonemes(raw: &str) -> Vec<String> {
    parse(raw).phonemes
}

#[test]
fn stress_and_boundaries_are_not_tokens() {
    assert_eq!(phonemes("ˈɔ̃ n ɛ"), vec!["ɔ̃", "n", "ɛ"]);
    assert_eq!(phonemes("sˈiː aɪ"), vec!["s", "iː", "a", "ɪ"]);
    assert_eq!(phonemes("wˌi\nɡˈoʊ"), vec!["w", "i", "ɡ", "o", "ʊ"]);
    assert_eq!(phonemes("ːa"), vec!["ː", "a"]);
}

#[test]
fn pronunciation_is_ready_for_consumers() {
    let p = parse_framed("ˈɐ .ː ˌᵻ ɪ ɐ̯ hʲ", "en-us");
    assert_eq!(p.phonemes, ["ə", "ə", "ɪ", "ɐ̯", "hʲ"]);
    assert_eq!(p.stress[..2], [Stress::Primary, Stress::Secondary]);
    assert_eq!(p.word_spans, [(0, 1), (1, 2), (2, 3), (3, 4), (4, 5)]);
    assert_eq!(
        parse_framed("(en)uː ɔː ɑː oː aː iː yː eː ɜː ɪ ʊ ʌ ɒ ɐ", "fr-fr").phonemes,
        [
            "u", "ɔ", "a", "o", "a", "i", "y", "e", "œ", "i", "u", "a", "ɔ", "a"
        ]
    );
    assert_eq!(parse_framed("(en)ɪ ʊ ɪː", "it").phonemes, ["i", "u", "ɪː"]);
    assert_eq!(parse_framed("ˈε", "da").stress, [Stress::Primary]);
    assert_eq!(parse_framed("a.ːi", "en-us").phonemes, ["a", "i"]);
}

#[test]
fn palatalization_folds_onto_consonants_only() {
    assert_eq!(
        phonemes("tʲinʲ ɫʲ iʲo"),
        vec!["tʲ", "i", "nʲ", "ɫʲ", "i", "ʲ", "o"]
    );
}

#[test]
fn stress_attaches_to_the_next_nucleus() {
    let p = parse("bɔ̃ʒˈuʁ mˌadam");
    assert_eq!(
        p.phonemes,
        vec!["b", "ɔ̃", "ʒ", "u", "ʁ", "m", "a", "d", "a", "m"]
    );
    assert_eq!(
        p.stress,
        vec![
            Stress::Unstressed,
            Stress::Unstressed,
            Stress::Unstressed,
            Stress::Primary,
            Stress::Unstressed,
            Stress::Unstressed,
            Stress::Secondary,
            Stress::Unstressed,
            Stress::Unstressed,
            Stress::Unstressed,
        ]
    );
    assert_eq!(p.word_spans, vec![(0, 5), (5, 10)]);
}

#[test]
fn diphthong_second_half_keeps_stress() {
    // A vowel directly after a stressed vowel is the same nucleus.
    let p = parse("ˈaɪ");
    assert_eq!(p.stress, vec![Stress::Primary, Stress::Primary]);
}

#[test]
fn language_switch_markers_are_stripped() {
    assert_eq!(strip_language_markers("(en)fˈʊtbɔːl(fr)"), "fˈʊtbɔːl");
    assert_eq!(strip_language_markers("(en-us)a(fr-FR)"), "a");
    // Not markers: too short, too long, or unterminated.
    assert_eq!(strip_language_markers("(e)a"), "(e)a");
    assert_eq!(strip_language_markers("(abcde)a"), "(abcde)a");
    assert_eq!(strip_language_markers("(en"), "(en");
    assert_eq!(phonemes("(en)fˈʊt(fr)"), vec!["f", "ʊ", "t"]);
}

#[test]
fn empty_words_leave_no_spans() {
    let p = parse("  a  b ");
    assert_eq!(p.word_spans, vec![(0, 1), (1, 2)]);
    assert!(parse("").word_spans.is_empty());
}

fn framed(trace: &str, language: &str) -> Parsed {
    parse_framed(&trace.replace(';', &PHONE_SEPARATOR.to_string()), language)
}

#[test]
fn separator_is_not_whitespace_or_a_word_boundary() {
    assert!(!PHONE_SEPARATOR.is_whitespace());
    assert!(!WORD_BOUNDARIES.contains(PHONE_SEPARATOR));
}

#[test]
fn every_vowel_unit_and_its_near_misses() {
    let inventories = [
        (
            "en-us",
            vec![
                "eɪ", "aɪ", "ɔɪ", "aʊ", "oʊ", "əʊ", "ɑːɹ", "ɔːɹ", "ɪɹ", "ɛɹ", "ʊɹ",
            ],
        ),
        (
            "en-gb",
            vec![
                "eɪ", "aɪ", "ɔɪ", "aʊ", "oʊ", "əʊ", "ɑːɹ", "ɔːɹ", "ɪɹ", "ɛɹ", "ʊɹ",
            ],
        ),
        ("de", vec!["aɪ", "aʊ", "ɔʏ", "ɔø"]),
        (
            "pt-br",
            vec!["aʊ", "eɪ", "oʊ", "aɪ", "ɐ̃ʊ̃", "ɐ̃ɪ̃", "ɐ̃j", "õɪ̃", "ũɪ̃"],
        ),
        ("cs", vec!["eɪ", "oʊ", "aʊ"]),
    ];
    for (language, units) in inventories {
        for unit in units {
            let legacy = parse(unit).phonemes;
            assert_eq!(legacy.len(), 2, "{unit}");
            let p = framed(&format!("ˈ{unit}"), language);
            assert_eq!(p.phonemes, [unit], "{language}: {unit}");
            assert_eq!(p.stress, [Stress::Primary]);
            assert_eq!(p.word_spans, [(0, 1)]);
            // Identical spelling in another language is not sufficient.
            assert_eq!(framed(unit, "pl").phonemes, legacy);
            for boundary in WORD_BOUNDARIES.chars() {
                let p = framed(&legacy.join(&boundary.to_string()), language);
                assert_eq!(p.phonemes, legacy, "{language}: {unit} {boundary:?}");
                assert_eq!(p.word_spans, [(0, 1), (1, 2)]);
            }
            assert_eq!(framed(&legacy.join("ˈ"), language).phonemes, legacy);
            assert_eq!(framed(&legacy.join("ˌ"), language).phonemes, legacy);
            // Ordinary diphthongs must be one engine phone; only coda-r
            // and the attested mãe glide have narrow cross-phone rules.
            if !unit.ends_with('ɹ') && unit != "ɐ̃j" {
                assert_eq!(framed(&legacy.join(";"), language).phonemes, legacy);
            }
        }
    }
}

#[test]
fn every_affricate_requires_an_actual_phone() {
    for unit in [
        "tʃ", "dʒ", "ts", "dz", "tɕ", "dʑ", "tʂ", "dʐ", "pf", "bv", "tθ", "dð", "kx", "ɡɣ",
        "tʃʲ", "dzː", "tːs", "ʈʂ", "ɖʐ", "t͡s", "t͡ʃ", "t͡sʲ", "d͡z", "d͡zʲ", "ʈ͡ʂ", "ɖ͡ʐ", "d͡ʒ",
        "t͜s",
    ] {
        let legacy = parse(unit).phonemes;
        for language in [
            "en-us", "it", "pt-br", "ru", "de", "fa", "ar", "pl", "fr-fr",
        ] {
            assert_eq!(framed(unit, language).phonemes, [unit]);
            assert_eq!(framed(unit, language).stress, [Stress::Unstressed]);
            for delimiter in [";", " ", "ˈ", "ˌ", "(en)"] {
                if legacy.len() == 3 {
                    // A separator on EITHER side of the tie disqualifies
                    // the complete three-part unit, not only two at once.
                    for split in 1..3 {
                        let raw = format!(
                            "{}{}{}",
                            legacy[..split].concat(),
                            delimiter,
                            legacy[split..].concat()
                        );
                        assert_eq!(framed(&raw, language).phonemes, legacy);
                    }
                }
                assert_eq!(
                    framed(&legacy.join(delimiter), language).phonemes,
                    legacy,
                    "{unit} in {language} with {delimiter:?}"
                );
            }
        }
    }
    for near_miss in ["tɹ", "dɹ", "ps", "ks", "tʰ", "dʱ", "iʲo"] {
        assert_eq!(
            framed(near_miss, "en-us").phonemes,
            parse(near_miss).phonemes
        );
    }
}

#[test]
fn coda_exceptions_do_not_swallow_onsets_or_switches() {
    for unit in ["ɑːɹ", "ɔːɹ", "ɪɹ", "ɛɹ", "ʊɹ"] {
        let parts = parse(unit).phonemes;
        let split = parts.join(";");
        assert_eq!(framed(&split, "en-us").phonemes, [unit]);
        assert_eq!(
            framed(&format!("{split};ə"), "en-us").phonemes,
            [parts[0].as_str(), "ɹ", "ə"]
        );
        assert_eq!(framed(&parts.join("(en)"), "en-us").phonemes, parts);
    }
    assert_eq!(framed("ˈɐ̃;j", "pt-br").phonemes, ["ɐ̃j"]);
    assert_eq!(framed("ɐ̃;j;a", "pt-br").phonemes, ["ɐ̃", "j", "a"]);
    assert_eq!(framed("ɐ̃;j", "pt").phonemes, ["ɐ̃", "j"]);
}

#[test]
fn stress_length_tones_and_word_indices_stay_aligned() {
    let p = framed(";tʃ;ˈeɪ;t;s ;dʒ;ˌaʊ ;ˈa;ɪ ;iː;5", "en-us");
    assert_eq!(
        p.phonemes,
        ["tʃ", "eɪ", "t", "s", "dʒ", "aʊ", "a", "ɪ", "iː", "5"]
    );
    assert_eq!(p.word_spans, [(0, 4), (4, 6), (6, 8), (8, 10)]);
    assert_eq!(
        p.stress,
        [
            Stress::Unstressed,
            Stress::Primary,
            Stress::Unstressed,
            Stress::Unstressed,
            Stress::Unstressed,
            Stress::Secondary,
            Stress::Primary,
            Stress::Primary,
            Stress::Unstressed,
            Stress::Unstressed
        ]
    );
    for raw in ["iː5", "aˈɪ", "tʲ;ɪ;ɫʲ", "ː;a", "", ";;;", "  "] {
        assert_eq!(framed(raw, "cmn"), parse(&raw.replace(';', "")));
    }
}

#[test]
fn language_switches_change_only_merge_policy() {
    let p = framed("aɪ;(en)ˈaɪ;(fr)aɪ", "fr-fr");
    assert_eq!(p.phonemes, ["a", "i", "aɪ", "a", "i"]);
    assert_eq!(
        p.stress,
        [
            Stress::Unstressed,
            Stress::Unstressed,
            Stress::Primary,
            Stress::Primary,
            Stress::Primary
        ]
    );
    assert_eq!(framed("a(en)ɪ", "en-us").phonemes, ["a", "ɪ"]);
    assert_eq!(
        framed("(en)ˈaɪ (pt)m;ˈɐ̃;j", "pt-br").phonemes,
        ["aɪ", "m", "ɐ̃j"]
    );
}

#[test]
fn framing_only_joins_phones_of_one_word() {
    for (raw, lang) in [
        ("ˈt\u{1f}ʃa\u{1f} d\u{1f}a", "ru"),
        ("tʃ\u{1f}ˈa\u{1f}ɪ (en)d\u{1f}ʒ", "pt-br"),
        ("ts\u{1f}a. ˌpf\u{1f}o", "de"),
    ] {
        let framed = g2p::parse::parse_framed(raw, lang);
        let plain = g2p::parse::parse(&raw.replace('\u{1f}', ""));
        assert_eq!(framed.word_spans.len(), plain.word_spans.len(), "{raw}");
        assert!(framed.phonemes.len() <= plain.phonemes.len());
        for (f, p) in framed.word_spans.iter().zip(&plain.word_spans) {
            assert_eq!(framed.phonemes[f.0..f.1].concat(), plain.phonemes[p.0..p.1].concat(), "{raw}");
        }
    }
}
