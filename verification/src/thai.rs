//! Thai labels from vachana-thai's IPA: tokenization into the phone
//! inventory, tone per syllable on its vowel, and stress on each word's final
//! syllable.
//!
//! vachana-thai itself (TLTK's rule/lexicon front end over pythainlp's
//! dictionary segmenter) runs out of process; this module holds the label
//! stage and the refusal of mixed-script text.

use crate::error::{Error, ErrorS};
use crate::labels::is_whitespace;
use crate::parse::{copy_chars, views, Stress};
use unicode_normalization::UnicodeNormalization;
use vstd::prelude::*;

verus! {

/// One utterance's labels.
#[derive(Debug, Clone, PartialEq, Eq, Default)]
pub struct Labels {
    /// vachana's IPA string as returned.
    pub raw: String,
    pub phonemes: Vec<String>,
    pub stress: Vec<Stress>,
    /// Tone class per phoneme: 1 mid, 2 low, 3 falling, 4 high, 5 rising on
    /// vowels (the tone-bearing phone of each syllable), `None` on consonants.
    pub tone: Vec<Option<u8>>,
    /// `[start, end)` per word (vachana's space-separated tokens).
    pub word_spans: Vec<(usize, usize)>,
}

#[verifier::ext_equal]
pub struct LabelsS {
    pub raw: Seq<char>,
    pub phonemes: Seq<Seq<char>>,
    pub stress: Seq<Stress>,
    pub tone: Seq<Option<u8>>,
    pub word_spans: Seq<(usize, usize)>,
}

impl View for Labels {
    type V = LabelsS;

    open spec fn view(&self) -> LabelsS {
        LabelsS {
            raw: self.raw@,
            phonemes: self.phonemes@.map_values(|s: String| s@),
            stress: self.stress@,
            tone: self.tone@,
            word_spans: self.word_spans@,
        }
    }
}

/// Unicode canonical decomposition (NFD) of a text.
pub uninterp spec fn nfd(s: Seq<char>) -> Seq<char>;

/// `UnicodeNormalization::nfd` from `unicode-normalization`: the canonical
/// decomposition of `s`, collected.
#[verifier::external_body]
fn nfd_chars(s: &str) -> (r: Vec<char>)
    ensures
        r@ == nfd(s@),
{
    s.nfd().collect()
}

/// The phone inventory, longest first so multi-character phones win.
pub open spec fn thai_phones() -> Seq<Seq<char>> {
    seq![
        seq!['t', '\u{255}', '\u{2b0}'],
        seq!['i', '\u{259}'],
        seq!['\u{26f}', '\u{259}'],
        seq!['u', '\u{259}'],
        seq!['a', '\u{2d0}'],
        seq!['i', '\u{2d0}'],
        seq!['u', '\u{2d0}'],
        seq!['\u{26f}', '\u{2d0}'],
        seq!['e', '\u{2d0}'],
        seq!['\u{25b}', '\u{2d0}'],
        seq!['o', '\u{2d0}'],
        seq!['\u{254}', '\u{2d0}'],
        seq!['\u{259}', '\u{2d0}'],
        seq!['t', '\u{255}'],
        seq!['p', '\u{2b0}'],
        seq!['t', '\u{2b0}'],
        seq!['k', '\u{2b0}'],
        seq!['a'],
        seq!['i'],
        seq!['u'],
        seq!['\u{26f}'],
        seq!['e'],
        seq!['\u{25b}'],
        seq!['o'],
        seq!['\u{254}'],
        seq!['\u{259}'],
        seq!['b'],
        seq!['p'],
        seq!['m'],
        seq!['f'],
        seq!['d'],
        seq!['t'],
        seq!['n'],
        seq!['s'],
        seq!['r'],
        seq!['l'],
        seq!['k'],
        seq!['\u{14b}'],
        seq!['w'],
        seq!['j'],
        seq!['h'],
        seq!['\u{294}'],
    ]
}


fn thai_phone(k: usize) -> (r: Vec<char>)
    requires
        k < 42,
    ensures
        r@ == thai_phones()[k as int],
{
    if k == 0 {
        let r = copy_chars(&['t', '\u{255}', '\u{2b0}']);
        proof {
            assert(r@ =~= thai_phones()[k as int]);
        }
        r
    } else if k == 1 {
        let r = copy_chars(&['i', '\u{259}']);
        proof {
            assert(r@ =~= thai_phones()[k as int]);
        }
        r
    } else if k == 2 {
        let r = copy_chars(&['\u{26f}', '\u{259}']);
        proof {
            assert(r@ =~= thai_phones()[k as int]);
        }
        r
    } else if k == 3 {
        let r = copy_chars(&['u', '\u{259}']);
        proof {
            assert(r@ =~= thai_phones()[k as int]);
        }
        r
    } else if k == 4 {
        let r = copy_chars(&['a', '\u{2d0}']);
        proof {
            assert(r@ =~= thai_phones()[k as int]);
        }
        r
    } else if k == 5 {
        let r = copy_chars(&['i', '\u{2d0}']);
        proof {
            assert(r@ =~= thai_phones()[k as int]);
        }
        r
    } else if k == 6 {
        let r = copy_chars(&['u', '\u{2d0}']);
        proof {
            assert(r@ =~= thai_phones()[k as int]);
        }
        r
    } else if k == 7 {
        let r = copy_chars(&['\u{26f}', '\u{2d0}']);
        proof {
            assert(r@ =~= thai_phones()[k as int]);
        }
        r
    } else if k == 8 {
        let r = copy_chars(&['e', '\u{2d0}']);
        proof {
            assert(r@ =~= thai_phones()[k as int]);
        }
        r
    } else if k == 9 {
        let r = copy_chars(&['\u{25b}', '\u{2d0}']);
        proof {
            assert(r@ =~= thai_phones()[k as int]);
        }
        r
    } else if k == 10 {
        let r = copy_chars(&['o', '\u{2d0}']);
        proof {
            assert(r@ =~= thai_phones()[k as int]);
        }
        r
    } else if k == 11 {
        let r = copy_chars(&['\u{254}', '\u{2d0}']);
        proof {
            assert(r@ =~= thai_phones()[k as int]);
        }
        r
    } else if k == 12 {
        let r = copy_chars(&['\u{259}', '\u{2d0}']);
        proof {
            assert(r@ =~= thai_phones()[k as int]);
        }
        r
    } else if k == 13 {
        let r = copy_chars(&['t', '\u{255}']);
        proof {
            assert(r@ =~= thai_phones()[k as int]);
        }
        r
    } else if k == 14 {
        let r = copy_chars(&['p', '\u{2b0}']);
        proof {
            assert(r@ =~= thai_phones()[k as int]);
        }
        r
    } else if k == 15 {
        let r = copy_chars(&['t', '\u{2b0}']);
        proof {
            assert(r@ =~= thai_phones()[k as int]);
        }
        r
    } else if k == 16 {
        let r = copy_chars(&['k', '\u{2b0}']);
        proof {
            assert(r@ =~= thai_phones()[k as int]);
        }
        r
    } else if k == 17 {
        let r = copy_chars(&['a']);
        proof {
            assert(r@ =~= thai_phones()[k as int]);
        }
        r
    } else if k == 18 {
        let r = copy_chars(&['i']);
        proof {
            assert(r@ =~= thai_phones()[k as int]);
        }
        r
    } else if k == 19 {
        let r = copy_chars(&['u']);
        proof {
            assert(r@ =~= thai_phones()[k as int]);
        }
        r
    } else if k == 20 {
        let r = copy_chars(&['\u{26f}']);
        proof {
            assert(r@ =~= thai_phones()[k as int]);
        }
        r
    } else if k == 21 {
        let r = copy_chars(&['e']);
        proof {
            assert(r@ =~= thai_phones()[k as int]);
        }
        r
    } else if k == 22 {
        let r = copy_chars(&['\u{25b}']);
        proof {
            assert(r@ =~= thai_phones()[k as int]);
        }
        r
    } else if k == 23 {
        let r = copy_chars(&['o']);
        proof {
            assert(r@ =~= thai_phones()[k as int]);
        }
        r
    } else if k == 24 {
        let r = copy_chars(&['\u{254}']);
        proof {
            assert(r@ =~= thai_phones()[k as int]);
        }
        r
    } else if k == 25 {
        let r = copy_chars(&['\u{259}']);
        proof {
            assert(r@ =~= thai_phones()[k as int]);
        }
        r
    } else if k == 26 {
        let r = copy_chars(&['b']);
        proof {
            assert(r@ =~= thai_phones()[k as int]);
        }
        r
    } else if k == 27 {
        let r = copy_chars(&['p']);
        proof {
            assert(r@ =~= thai_phones()[k as int]);
        }
        r
    } else if k == 28 {
        let r = copy_chars(&['m']);
        proof {
            assert(r@ =~= thai_phones()[k as int]);
        }
        r
    } else if k == 29 {
        let r = copy_chars(&['f']);
        proof {
            assert(r@ =~= thai_phones()[k as int]);
        }
        r
    } else if k == 30 {
        let r = copy_chars(&['d']);
        proof {
            assert(r@ =~= thai_phones()[k as int]);
        }
        r
    } else if k == 31 {
        let r = copy_chars(&['t']);
        proof {
            assert(r@ =~= thai_phones()[k as int]);
        }
        r
    } else if k == 32 {
        let r = copy_chars(&['n']);
        proof {
            assert(r@ =~= thai_phones()[k as int]);
        }
        r
    } else if k == 33 {
        let r = copy_chars(&['s']);
        proof {
            assert(r@ =~= thai_phones()[k as int]);
        }
        r
    } else if k == 34 {
        let r = copy_chars(&['r']);
        proof {
            assert(r@ =~= thai_phones()[k as int]);
        }
        r
    } else if k == 35 {
        let r = copy_chars(&['l']);
        proof {
            assert(r@ =~= thai_phones()[k as int]);
        }
        r
    } else if k == 36 {
        let r = copy_chars(&['k']);
        proof {
            assert(r@ =~= thai_phones()[k as int]);
        }
        r
    } else if k == 37 {
        let r = copy_chars(&['\u{14b}']);
        proof {
            assert(r@ =~= thai_phones()[k as int]);
        }
        r
    } else if k == 38 {
        let r = copy_chars(&['w']);
        proof {
            assert(r@ =~= thai_phones()[k as int]);
        }
        r
    } else if k == 39 {
        let r = copy_chars(&['j']);
        proof {
            assert(r@ =~= thai_phones()[k as int]);
        }
        r
    } else if k == 40 {
        let r = copy_chars(&['h']);
        proof {
            assert(r@ =~= thai_phones()[k as int]);
        }
        r
    } else {
        let r = copy_chars(&['\u{294}']);
        proof {
            assert(r@ =~= thai_phones()[k as int]);
        }
        r
    }
}


pub open spec fn is_vowel_head(c: char) -> bool {
    c == 'a' || c == 'i' || c == 'u' || c == 'ɯ' || c == 'e' || c == 'ɛ' || c == 'o' || c == 'ɔ'
        || c == 'ə'
}

fn vowel_head(c: char) -> (r: bool)
    ensures
        r == is_vowel_head(c),
{
    c == 'a' || c == 'i' || c == 'u' || c == 'ɯ' || c == 'e' || c == 'ɛ' || c == 'o' || c == 'ɔ'
        || c == 'ə'
}

/// The tone a combining mark writes: grave low, circumflex falling, acute
/// high, caron rising.
pub open spec fn tone_mark(c: char) -> Option<u8> {
    if c == '\u{300}' {
        Some(2)
    } else if c == '\u{302}' {
        Some(3)
    } else if c == '\u{301}' {
        Some(4)
    } else if c == '\u{30c}' {
        Some(5)
    } else {
        None
    }
}

fn tone_of(c: char) -> (r: Option<u8>)
    ensures
        r == tone_mark(c),
{
    if c == '\u{300}' {
        Some(2)
    } else if c == '\u{302}' {
        Some(3)
    } else if c == '\u{301}' {
        Some(4)
    } else if c == '\u{30c}' {
        Some(5)
    } else {
        None
    }
}

pub open spec fn is_ascii_punct(c: char) -> bool {
    ('!' <= c && c <= '/') || (':' <= c && c <= '@') || ('[' <= c && c <= '`') || ('{' <= c && c
        <= '~')
}

pub open spec fn is_word_break(c: char) -> bool {
    is_whitespace(c) || ('0' <= c && c <= '9') || is_ascii_punct(c) || c == '\u{3001}' || c
        == '\u{ff0c}' || c == '\u{3002}'
}

fn word_break(c: char) -> (r: bool)
    ensures
        r == is_word_break(c),
{
    crate::labels::whitespace(c) || ('0' <= c && c <= '9') || ('!' <= c && c <= '/') || (':' <= c
        && c <= '@') || ('[' <= c && c <= '`') || ('{' <= c && c <= '~') || c == '\u{3001}' || c
        == '\u{ff0c}' || c == '\u{3002}'
}

pub open spec fn starts_at(text: Seq<char>, pos: int, cand: Seq<char>) -> bool {
    0 <= pos && pos + cand.len() <= text.len() && text.subrange(pos, pos + cand.len()) == cand
}

/// The first vowel-headed inventory phone from index `k` that matches at
/// `pos`, directly or with a tone mark written after its first character
/// (vachana writes îː, ìə), with that embedded tone.
pub open spec fn vowel_match(text: Seq<char>, pos: int, k: int) -> Option<(int, Option<u8>)>
    decreases thai_phones().len() - k,
{
    if k < 0 || k >= thai_phones().len() {
        None
    } else {
        let cc = thai_phones()[k];
        if !is_vowel_head(cc[0]) {
            vowel_match(text, pos, k + 1)
        } else if starts_at(text, pos, cc) {
            Some((k, None))
        } else if 0 <= pos && pos + 1 < text.len() && text[pos] == cc[0] && tone_mark(text[pos + 1]) is Some
            && starts_at(text, pos + 2, cc.drop_first()) {
            Some((k, tone_mark(text[pos + 1])))
        } else {
            vowel_match(text, pos, k + 1)
        }
    }
}

/// The first inventory phone from index `k` that matches at `pos`.
pub open spec fn any_match(text: Seq<char>, pos: int, k: int) -> Option<int>
    decreases thai_phones().len() - k,
{
    if k < 0 || k >= thai_phones().len() {
        None
    } else if starts_at(text, pos, thai_phones()[k]) {
        Some(k)
    } else {
        any_match(text, pos, k + 1)
    }
}

pub open spec fn phone_match(text: Seq<char>, pos: int) -> Option<(int, Option<u8>)> {
    match vowel_match(text, pos, 0) {
        Some(m) => Some(m),
        None => match any_match(text, pos, 0) {
            Some(k) => Some((k, None)),
            None => None,
        },
    }
}

/// First index at or after `j` that is not a tone mark.
pub open spec fn marks_end(text: Seq<char>, j: int) -> int
    decreases text.len() - j,
{
    if 0 <= j < text.len() && tone_mark(text[j]) is Some {
        marks_end(text, j + 1)
    } else {
        j
    }
}

pub proof fn lemma_marks_end(text: Seq<char>, j: int)
    requires
        0 <= j,
    ensures
        j <= marks_end(text, j),
        j <= text.len() ==> marks_end(text, j) <= text.len(),
        marks_end(text, j) > j ==> tone_mark(text[marks_end(text, j) - 1]) is Some,
    decreases text.len() - j,
{
    if 0 <= j < text.len() && tone_mark(text[j]) is Some {
        lemma_marks_end(text, j + 1);
    }
}

/// Label-stage state.
#[verifier::ext_equal]
pub struct ThaiS {
    pub ph: Seq<Seq<char>>,
    pub tone: Seq<Option<u8>>,
    pub stress: Seq<Stress>,
    pub spans: Seq<(usize, usize)>,
    pub word_start: int,
    pub vowels: Seq<int>,
    pub failed: Option<int>,
}

/// Close a word: its last vowel takes primary stress (Standard Thai words
/// stress their final syllable), and a non-empty word gets its span.
pub open spec fn finish_word(s: ThaiS) -> ThaiS {
    ThaiS {
        stress: if s.vowels.len() > 0 {
            s.stress.update(s.vowels.last(), Stress::Primary)
        } else {
            s.stress
        },
        spans: if s.ph.len() > s.word_start {
            s.spans.push((s.word_start as usize, s.ph.len() as usize))
        } else {
            s.spans
        },
        word_start: s.ph.len() as int,
        vowels: Seq::empty(),
        ..s
    }
}

pub open spec fn thai_scan(text: Seq<char>, pos: int, s: ThaiS) -> ThaiS
    decreases text.len() - pos,
{
    if pos < 0 || pos >= text.len() || s.failed is Some {
        s
    } else if is_word_break(text[pos]) {
        thai_scan(text, pos + 1, finish_word(s))
    } else {
        match phone_match(text, pos) {
            None => ThaiS { failed: Some(pos), ..s },
            Some((k, emb)) => {
                let phone = thai_phones()[k];
                let p1 = pos + phone.len() + (if emb is Some { 1int } else { 0 });
                let e = marks_end(text, p1);
                let vowel = is_vowel_head(phone[0]);
                let tone = if !vowel {
                    None
                } else if e > p1 {
                    tone_mark(text[e - 1])
                } else if emb is Some {
                    emb
                } else {
                    Some(1u8)
                };
                let s2 = ThaiS {
                    ph: s.ph.push(phone),
                    tone: s.tone.push(tone),
                    stress: s.stress.push(Stress::Unstressed),
                    vowels: if vowel {
                        s.vowels.push(s.ph.len() as int)
                    } else {
                        s.vowels
                    },
                    ..s
                };
                if pos < e <= text.len() {
                    thai_scan(text, e, s2)
                } else {
                    s2
                }
            },
        }
    }
}

pub open spec fn thai_init() -> ThaiS {
    ThaiS {
        ph: Seq::empty(),
        tone: Seq::empty(),
        stress: Seq::empty(),
        spans: Seq::empty(),
        word_start: 0,
        vowels: Seq::empty(),
        failed: None,
    }
}

/// Labels of vachana's IPA `raw` (decomposed first), or why a stretch of it
/// is not in the inventory.
pub open spec fn parse_spec(raw: Seq<char>) -> Result<LabelsS, ErrorS> {
    parse_text_spec(raw, nfd(raw))
}

/// Labels of vachana's IPA `raw`, scanned in its decomposition `text`, or
/// why a stretch of `text` is not in the inventory.
pub open spec fn parse_text_spec(raw: Seq<char>, text: Seq<char>) -> Result<LabelsS, ErrorS> {
    let s = thai_scan(text, 0, thai_init());
    match s.failed {
        Some(pos) => Err(
            ErrorS::Unlabelable(
                "thai_unparsed_ipa:"@ + text.subrange(
                    pos,
                    if pos + 20 <= text.len() {
                        pos + 20
                    } else {
                        text.len() as int
                    },
                ),
            ),
        ),
        None => {
            let f = finish_word(s);
            Ok(LabelsS { raw, phonemes: f.ph, stress: f.stress, tone: f.tone, word_spans: f.spans })
        },
    }
}


/// Tones sit exactly on the vowel-headed phones, one entry per phone.
pub open spec fn tones_on_vowels(ph: Seq<Seq<char>>, tone: Seq<Option<u8>>) -> bool {
    &&& tone.len() == ph.len()
    &&& forall|i: int| 0 <= i < ph.len() ==> (#[trigger] ph[i]).len() >= 1
    &&& forall|i: int| 0 <= i < ph.len() ==> ((#[trigger] tone[i]) is Some <==> is_vowel_head(ph[i][0]))
}

/// A phone of the inventory.
pub open spec fn in_inventory(p: Seq<char>) -> bool {
    exists|k: int| 0 <= k < thai_phones().len() && thai_phones()[k] == p
}

/// `i` is the last vowel-headed phone of `[a, b)`.
pub open spec fn is_last_vowel(ph: Seq<Seq<char>>, a: int, b: int, i: int) -> bool {
    &&& a <= i < b
    &&& is_vowel_head(ph[i][0])
    &&& forall|j: int| i < j < b ==> !is_vowel_head(#[trigger] ph[j][0])
}

/// The shape of Thai labels: phones of the inventory; tones on exactly the
/// vowel-headed phones, each a class from 1 to 5; stress parallel to the
/// phones; word spans tiling the phones; and primary stress exactly on each
/// word's last vowel-headed phone.
pub open spec fn thai_labels_wf(ph: Seq<Seq<char>>, tone: Seq<Option<u8>>, stress: Seq<Stress>, spans: Seq<(usize, usize)>) -> bool {
    &&& tones_on_vowels(ph, tone)
    &&& stress.len() == ph.len()
    &&& forall|i: int| 0 <= i < ph.len() ==> in_inventory(#[trigger] ph[i])
    &&& forall|i: int| 0 <= i < ph.len() && (#[trigger] tone[i]) is Some ==> 1 <= tone[i]->0 <= 5
    &&& crate::parse::tiles(spans, ph.len() as int)
    &&& forall|k: int, i: int|
        0 <= k < spans.len() && spans[k].0 <= i < spans[k].1 ==> (#[trigger] stress[i] == Stress::Primary
            <==> is_last_vowel(ph, #[trigger] spans[k].0 as int, spans[k].1 as int, i))
}

/// What the scan keeps true: the closed words as in [`thai_labels_wf`], the
/// open word still unstressed, and `vowels` ending at its last vowel.
pub open spec fn scan_ok(s: ThaiS) -> bool {
    &&& tones_on_vowels(s.ph, s.tone)
    &&& s.stress.len() == s.ph.len()
    &&& forall|i: int| 0 <= i < s.ph.len() ==> in_inventory(#[trigger] s.ph[i])
    &&& forall|i: int| 0 <= i < s.ph.len() && (#[trigger] s.tone[i]) is Some ==> 1 <= s.tone[i]->0 <= 5
    &&& 0 <= s.word_start <= s.ph.len()
    &&& crate::parse::tiles(s.spans, s.word_start)
    &&& forall|k: int, i: int|
        0 <= k < s.spans.len() && s.spans[k].0 <= i < s.spans[k].1 ==> (#[trigger] s.stress[i]
            == Stress::Primary <==> is_last_vowel(s.ph, #[trigger] s.spans[k].0 as int, s.spans[k].1 as int, i))
    &&& forall|i: int| s.word_start <= i < s.ph.len() ==> #[trigger] s.stress[i] == Stress::Unstressed
    &&& s.vowels.len() > 0 ==> is_last_vowel(s.ph, s.word_start, s.ph.len() as int, s.vowels.last())
    &&& s.vowels.len() == 0 ==> forall|j: int| s.word_start <= j < s.ph.len() ==> !is_vowel_head(#[trigger] s.ph[j][0])
}

proof fn lemma_finish_word_ok(s: ThaiS)
    requires
        scan_ok(s),
        s.ph.len() <= usize::MAX,
    ensures
        scan_ok(finish_word(s)),
        finish_word(s).word_start == s.ph.len(),
        finish_word(s).ph == s.ph,
        finish_word(s).tone == s.tone,
{
    let f = finish_word(s);
    let n = s.ph.len() as int;
    let ws = s.word_start;
    if n > ws {
        crate::parse::lemma_tiles_push(s.spans, ws, n);
    }
    assert forall|k: int, i: int|
        0 <= k < f.spans.len() && f.spans[k].0 <= i < f.spans[k].1 implies (#[trigger] f.stress[i]
            == Stress::Primary <==> is_last_vowel(f.ph, #[trigger] f.spans[k].0 as int, f.spans[k].1 as int, i)) by {
        if k < s.spans.len() {
            crate::parse::lemma_tiles_bounds(s.spans, ws, k);
            assert(f.spans[k] == s.spans[k]);
            assert(f.stress[i] == s.stress[i]);
        } else {
            assert(f.spans[k] == (ws as usize, n as usize));
            if s.vowels.len() > 0 {
                let v = s.vowels.last();
                if i != v {
                    assert(f.stress[i] == s.stress[i]);
                    if is_last_vowel(s.ph, ws, n, i) {
                        if i < v {
                            assert(!is_vowel_head(s.ph[v][0]));
                        } else {
                            assert(!is_vowel_head(s.ph[i][0]));
                        }
                    }
                }
            } else {
                assert(f.stress[i] == s.stress[i]);
            }
        }
    }
    assert forall|i: int| 0 <= i < f.ph.len() && (#[trigger] f.tone[i]) is Some implies 1 <= f.tone[i]->0 <= 5 by {
        assert(f.tone[i] == s.tone[i]);
    }
}

#[verifier::spinoff_prover]
proof fn lemma_thai_scan_ok(text: Seq<char>, pos: int, s: ThaiS)
    requires
        scan_ok(s),
        0 <= pos,
        s.ph.len() <= pos,
        text.len() <= usize::MAX,
    ensures
        scan_ok(thai_scan(text, pos, s)),
        thai_scan(text, pos, s).ph.len() <= (if pos < text.len() { text.len() as int } else { pos }),
    decreases text.len() - pos,
{
    if pos < 0 || pos >= text.len() || s.failed is Some {
    } else if is_word_break(text[pos]) {
        lemma_finish_word_ok(s);
        lemma_thai_scan_ok(text, pos + 1, finish_word(s));
    } else {
        lemma_vowel_match(text, pos, 0);
        lemma_any_match(text, pos, 0);
        match phone_match(text, pos) {
            None => {},
            Some((k, emb)) => {
                let phone = thai_phones()[k];
                let p1 = pos + phone.len() + (if emb is Some { 1int } else { 0 });
                lemma_marks_end(text, p1);
                let e = marks_end(text, p1);
                let vowel = is_vowel_head(phone[0]);
                let tone = if !vowel {
                    None
                } else if e > p1 {
                    tone_mark(text[e - 1])
                } else if emb is Some {
                    emb
                } else {
                    Some(1u8)
                };
                let n = s.ph.len() as int;
                let s2 = ThaiS {
                    ph: s.ph.push(phone),
                    tone: s.tone.push(tone),
                    stress: s.stress.push(Stress::Unstressed),
                    vowels: if vowel {
                        s.vowels.push(n)
                    } else {
                        s.vowels
                    },
                    ..s
                };
                assert(thai_scan(text, pos, s) == (if pos < e <= text.len() {
                    thai_scan(text, e, s2)
                } else {
                    s2
                }));
                assert(in_inventory(phone));
                assert forall|i: int| 0 <= i < s2.ph.len() implies ((#[trigger] s2.tone[i]) is Some
                    <==> is_vowel_head(s2.ph[i][0])) by {
                    if i < n {
                        assert(s2.tone[i] == s.tone[i] && s2.ph[i] == s.ph[i]);
                    }
                }
                assert forall|i: int| 0 <= i < s2.ph.len() implies (#[trigger] s2.ph[i]).len() >= 1 by {
                    if i < n {
                        assert(s2.ph[i] == s.ph[i]);
                    }
                }
                assert forall|i: int| 0 <= i < s2.ph.len() implies in_inventory(#[trigger] s2.ph[i]) by {
                    if i < n {
                        assert(s2.ph[i] == s.ph[i]);
                    }
                }
                assert forall|i: int| 0 <= i < s2.ph.len() && (#[trigger] s2.tone[i]) is Some implies 1
                    <= s2.tone[i]->0 <= 5 by {
                    if i < n {
                        assert(s2.tone[i] == s.tone[i]);
                    } else {
                        assert(s2.tone[i] == tone);
                        if vowel && e > p1 {
                            assert(tone_mark(text[e - 1]) is Some);
                        }
                    }
                }
                assert forall|kk: int, i: int|
                    0 <= kk < s2.spans.len() && s2.spans[kk].0 <= i < s2.spans[kk].1 implies (#[trigger] s2.stress[i]
                        == Stress::Primary <==> is_last_vowel(s2.ph, #[trigger] s2.spans[kk].0 as int, s2.spans[kk].1 as int, i)) by {
                    crate::parse::lemma_tiles_bounds(s.spans, s.word_start, kk);
                    assert(s2.stress[i] == s.stress[i]);
                    assert(is_last_vowel(s2.ph, s.spans[kk].0 as int, s.spans[kk].1 as int, i)
                        == is_last_vowel(s.ph, s.spans[kk].0 as int, s.spans[kk].1 as int, i)) by {
                        assert forall|j: int| i < j < s.spans[kk].1 implies s2.ph[j] == s.ph[j] by {}
                    }
                }
                assert forall|i: int| s2.word_start <= i < s2.ph.len() implies #[trigger] s2.stress[i]
                    == Stress::Unstressed by {
                    if i < n {
                        assert(s2.stress[i] == s.stress[i]);
                    }
                }
                if s2.vowels.len() > 0 {
                    if !vowel {
                        let v = s.vowels.last();
                        assert(s2.ph[v] == s.ph[v]);
                        assert forall|j: int| v < j < n + 1 implies !is_vowel_head(#[trigger] s2.ph[j][0]) by {
                            if j < n {
                                assert(s2.ph[j] == s.ph[j]);
                            }
                        }
                    }
                }
                if s2.vowels.len() == 0 {
                    assert forall|j: int| s2.word_start <= j < s2.ph.len() implies !is_vowel_head(#[trigger] s2.ph[j][0]) by {
                        if j < n {
                            assert(s2.ph[j] == s.ph[j]);
                        }
                    }
                }
                if pos < e <= text.len() {
                    lemma_thai_scan_ok(text, e, s2);
                }
            },
        }
    }
}

/// Thai labels are well-formed: every phone is of the inventory; a tone
/// class from 1 to 5 sits on every vowel-headed phone (the tone-bearing
/// phone of each syllable) and on nothing else; stress runs parallel to the
/// phones; the word spans tile the phones; and primary stress falls exactly
/// on the last vowel-headed phone of each word.
pub proof fn law_thai_labels_wf(raw: Seq<char>, text: Seq<char>)
    requires
        parse_text_spec(raw, text) is Ok,
        text.len() <= usize::MAX,
    ensures
        ({
            let l = parse_text_spec(raw, text)->Ok_0;
            &&& l.raw == raw
            &&& thai_labels_wf(l.phonemes, l.tone, l.stress, l.word_spans)
        }),
{
    let s = thai_scan(text, 0, thai_init());
    assert(crate::parse::tiles(thai_init().spans, 0));
    lemma_thai_scan_ok(text, 0, thai_init());
    lemma_finish_word_ok(s);
}

pub proof fn lemma_vowel_match(text: Seq<char>, pos: int, k: int)
    requires
        0 <= k,
    ensures
        vowel_match(text, pos, k) matches Some((j, emb)) ==> {
            &&& 0 <= j < thai_phones().len()
            &&& thai_phones()[j].len() >= 1
            &&& emb is None ==> starts_at(text, pos, thai_phones()[j])
            &&& emb is Some ==> 0 <= pos && pos + 1 < text.len() && starts_at(
                text,
                pos + 2,
                thai_phones()[j].drop_first(),
            )
            &&& emb matches Some(t) ==> 2 <= t <= 5
        },
    decreases thai_phones().len() - k,
{
    if k < thai_phones().len() {
        lemma_vowel_match(text, pos, k + 1);
    }
}

pub proof fn lemma_any_match(text: Seq<char>, pos: int, k: int)
    requires
        0 <= k,
    ensures
        any_match(text, pos, k) matches Some(j) ==> 0 <= j < thai_phones().len() && starts_at(
            text,
            pos,
            thai_phones()[j],
        ) && thai_phones()[j].len() >= 1,
    decreases thai_phones().len() - k,
{
    if k < thai_phones().len() {
        lemma_any_match(text, pos, k + 1);
    }
}

fn starts_at_exec(text: &[char], pos: usize, cand: &[char], from: usize) -> (r: bool)
    requires
        from <= cand@.len(),
    ensures
        r == starts_at(text@, pos as int, cand@.subrange(from as int, cand@.len() as int)),
{
    let n = cand.len() - from;
    if pos > text.len() || n > text.len() - pos {
        return false;
    }
    let ghost t1 = text@.subrange(pos as int, pos + n);
    let ghost t2 = cand@.subrange(from as int, cand@.len() as int);
    let mut k: usize = 0;
    while k < n
        invariant
            k <= n,
            n == cand@.len() - from,
            from <= cand@.len(),
            pos + n <= text@.len(),
            pos + n <= text.len(),
            from + n <= cand.len(),
            t1 == text@.subrange(pos as int, pos + n),
            t2 == cand@.subrange(from as int, cand@.len() as int),
            forall|j: int| 0 <= j < k ==> #[trigger] t1[j] == t2[j],
        decreases n - k,
    {
        if text[pos + k] != cand[from + k] {
            proof {
                assert(t1[k as int] != t2[k as int]);
            }
            return false;
        }
        k += 1;
    }
    proof {
        assert(t1 =~= t2);
    }
    true
}

fn find_phone(text: &[char], pos: usize) -> (r: Option<(usize, Option<u8>)>)
    requires
        pos < text@.len(),
    ensures
        match r {
            Some((k, emb)) => phone_match(text@, pos as int) == Some((k as int, emb)) && k < thai_phones().len(),
            None => phone_match(text@, pos as int) is None,
        },
{
    let mut k: usize = 0;
    while k < 42
        invariant
            k <= 42,
            pos < text@.len(),
            thai_phones().len() == 42,
            vowel_match(text@, pos as int, k as int) == vowel_match(text@, pos as int, 0),
        decreases 42 - k,
    {
        let cc = thai_phone(k);
        proof {
            assert(cc@ =~= cc@.subrange(0, cc@.len() as int));
            assert(cc@.drop_first() =~= cc@.subrange(1, cc@.len() as int));
        }
        if vowel_head(cc[0]) {
            if starts_at_exec(text, pos, &cc, 0) {
                return Some((k, None));
            }
            if pos < text.len() - 1 && text[pos] == cc[0] {
                let t = tone_of(text[pos + 1]);
                if t.is_some() && starts_at_exec(text, pos + 2, &cc, 1) {
                    return Some((k, t));
                }
            }
        }
        k += 1;
    }
    let mut j: usize = 0;
    while j < 42
        invariant
            j <= 42,
            thai_phones().len() == 42,
            vowel_match(text@, pos as int, 0) is None,
            any_match(text@, pos as int, j as int) == any_match(text@, pos as int, 0),
        decreases 42 - j,
    {
        let cc = thai_phone(j);
        proof {
            assert(cc@ =~= cc@.subrange(0, cc@.len() as int));
        }
        if starts_at_exec(text, pos, &cc, 0) {
            return Some((j, None));
        }
        j += 1;
    }
    None
}

/// Tokenize vachana's IPA into phones, tone per phone, stress on each word's
/// final vowel, and word spans. A stretch outside the inventory is refused
/// (`thai_unparsed_ipa:` and up to 20 characters from where it starts).
pub fn parse(raw: &str) -> (r: Result<Labels, Error>)
    ensures
        match r {
            Ok(l) => parse_spec(raw@) == Ok::<LabelsS, ErrorS>(l@),
            Err(e) => parse_spec(raw@) == Err::<LabelsS, ErrorS>(e@),
        },
{
    let text = nfd_chars(raw);
    parse_decomposed(raw, &text)
}

/// [`parse`] given the canonical decomposition `text` of `raw`: the scan
/// runs over `text`, and `raw` is kept as the labels' `raw`.
pub fn parse_decomposed(raw: &str, text: &[char]) -> (r: Result<Labels, Error>)
    ensures
        match r {
            Ok(l) => parse_text_spec(raw@, text@) == Ok::<LabelsS, ErrorS>(l@),
            Err(e) => parse_text_spec(raw@, text@) == Err::<LabelsS, ErrorS>(e@),
        },
{
    let mut ph: Vec<Vec<char>> = Vec::new();
    let mut tone: Vec<Option<u8>> = Vec::new();
    let mut stress: Vec<Stress> = Vec::new();
    let mut spans: Vec<(usize, usize)> = Vec::new();
    let mut word_start: usize = 0;
    let mut vowels: Vec<usize> = Vec::new();
    let mut pos: usize = 0;
    proof {
        assert(views(ph@) =~= Seq::<Seq<char>>::empty());
        assert(vowels@.map_values(|v: usize| v as int) =~= Seq::<int>::empty());
    }
    while pos < text.len()
        invariant
            pos <= text@.len(),
            thai_scan(
                text@,
                pos as int,
                ThaiS {
                    ph: views(ph@),
                    tone: tone@,
                    stress: stress@,
                    spans: spans@,
                    word_start: word_start as int,
                    vowels: vowels@.map_values(|v: usize| v as int),
                    failed: None,
                },
            ) == thai_scan(text@, 0, thai_init()),
            tone@.len() == ph@.len(),
            stress@.len() == ph@.len(),
            word_start <= ph@.len() <= pos,
            forall|k: int| 0 <= k < vowels@.len() ==> vowels@[k] < ph@.len(),
        decreases text@.len() - pos,
    {
        let ghost s0 = ThaiS {
            ph: views(ph@),
            tone: tone@,
            stress: stress@,
            spans: spans@,
            word_start: word_start as int,
            vowels: vowels@.map_values(|v: usize| v as int),
            failed: None,
        };
        let c = text[pos];
        if word_break(c) {
            close_word(&ph, &mut stress, &mut spans, &mut word_start, &mut vowels);
            pos += 1;
            continue;
        }
        match find_phone(text, pos) {
            None => {
                let end = if text.len() - pos >= 20 {
                    pos + 20
                } else {
                    text.len()
                };
                let tail = crate::parse::sub_chars(text, pos, end);
                proof {
                    assert(thai_scan(text@, pos as int, s0) == (ThaiS { failed: Some(pos as int), ..s0 }));
                }
                return Err(Error::Unlabelable(crate::text::prefixed("thai_unparsed_ipa:", &tail)));
            },
            Some((k, emb)) => {
                proof {
                    lemma_vowel_match(text@, pos as int, 0);
                    lemma_any_match(text@, pos as int, 0);
                }
                let phone = thai_phone(k);
                let p1 = pos + phone.len() + if emb.is_some() {
                    1
                } else {
                    0
                };
                let vowel = vowel_head(phone[0]);
                let mut t: Option<u8> = if emb.is_some() {
                    emb
                } else if vowel {
                    Some(1)
                } else {
                    None
                };
                let mut e = p1;
                proof {
                    lemma_marks_end(text@, p1 as int);
                }
                while e < text.len() && tone_of(text[e]).is_some()
                    invariant
                        p1 <= e <= text@.len(),
                        marks_end(text@, e as int) == marks_end(text@, p1 as int),
                        e > p1 ==> t == tone_mark(text@[e - 1]),
                        e == p1 ==> t == (if emb is Some {
                            emb
                        } else if vowel {
                            Some(1u8)
                        } else {
                            None
                        }),
                    decreases text@.len() - e,
                {
                    t = tone_of(text[e]);
                    e += 1;
                }
                // Tone marks after a consonant are passed over: only vowels
                // bear tone.
                let t = if vowel {
                    t
                } else {
                    None
                };
                if vowel {
                    vowels.push(ph.len());
                }
                let ghost ph0 = views(ph@);
                ph.push(phone);
                tone.push(t);
                stress.push(Stress::Unstressed);
                proof {
                    assert(views(ph@) =~= ph0.push(thai_phones()[k as int]));
                    assert(vowels@.map_values(|v: usize| v as int) =~= (if vowel {
                        s0.vowels.push(ph0.len() as int)
                    } else {
                        s0.vowels
                    }));
                }
                pos = e;
            },
        }
    }
    let ghost s_end = ThaiS {
        ph: views(ph@),
        tone: tone@,
        stress: stress@,
        spans: spans@,
        word_start: word_start as int,
        vowels: vowels@.map_values(|v: usize| v as int),
        failed: None,
    };
    close_word(&ph, &mut stress, &mut spans, &mut word_start, &mut vowels);
    let phonemes = crate::text::strings_of(&ph);
    let l = Labels { raw: String::from_str(raw), phonemes, stress, tone, word_spans: spans };
    proof {
        assert(l@ =~= (LabelsS { raw: raw@, phonemes: finish_word(s_end).ph, stress: finish_word(s_end).stress, tone: finish_word(s_end).tone, word_spans: finish_word(s_end).spans }));
    }
    Ok(l)
}

fn close_word(
    ph: &Vec<Vec<char>>,
    stress: &mut Vec<Stress>,
    spans: &mut Vec<(usize, usize)>,
    word_start: &mut usize,
    vowels: &mut Vec<usize>,
)
    requires
        old(stress)@.len() == ph@.len(),
        *old(word_start) <= ph@.len(),
        forall|k: int| 0 <= k < old(vowels)@.len() ==> old(vowels)@[k] < ph@.len(),
    ensures
        ({
            let s = finish_word(
                ThaiS {
                    ph: views(ph@),
                    tone: Seq::empty(),
                    stress: old(stress)@,
                    spans: old(spans)@,
                    word_start: *old(word_start) as int,
                    vowels: old(vowels)@.map_values(|v: usize| v as int),
                    failed: None,
                },
            );
            &&& final(stress)@ == s.stress
            &&& final(spans)@ == s.spans
            &&& *final(word_start) as int == s.word_start
            &&& final(vowels)@.map_values(|v: usize| v as int) == s.vowels
        }),
        final(stress)@.len() == ph@.len(),
        *final(word_start) == ph@.len(),
        final(vowels)@.len() == 0,
{
    if vowels.len() > 0 {
        let last = vowels[vowels.len() - 1];
        stress.set(last, Stress::Primary);
    }
    if ph.len() > *word_start {
        spans.push((*word_start, ph.len()));
    }
    *word_start = ph.len();
    *vowels = Vec::new();
    proof {
        assert(final(vowels)@.map_values(|v: usize| v as int) =~= Seq::<int>::empty());
    }
}


/// Why a text is refused before it reaches vachana, if it is: vachana has no
/// English or name path and mostly copies Latin spans through, so no
/// mixed-script sentence is labeled.
pub open spec fn screen_spec(text: Seq<char>) -> Result<(), ErrorS> {
    let latin = crate::text::alpha_runs(text);
    if latin.len() > 0 {
        Err(ErrorS::Unlabelable("thai_mixed_latin_script:"@ + crate::text::join_with(latin, ',')))
    } else {
        Ok(())
    }
}

/// Refuse text with Latin letters (`thai_mixed_latin_script:` and the runs,
/// comma-separated); anything else may go to vachana.
pub fn screen(text: &str) -> (r: Result<(), Error>)
    ensures
        match r {
            Ok(()) => screen_spec(text@) is Ok,
            Err(e) => screen_spec(text@) == Err::<(), ErrorS>(e@),
        },
{
    let cs = crate::text::chars_of(text);
    let latin = crate::text::latin_runs(&cs);
    if latin.len() > 0 {
        let joined = crate::text::join_chars(&latin, ',');
        return Err(Error::Unlabelable(crate::text::prefixed("thai_mixed_latin_script:", &joined)));
    }
    Ok(())
}

} // verus!
