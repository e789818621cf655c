//! The shared shape of one utterance's labels, and the phoneme inventory.

use crate::hindi::Syllable;
use crate::parse::{chars_eq, tiles, Stress};
use unicode_normalization::UnicodeNormalization;
use vstd::prelude::*;

verus! {

/// Tokyo pitch-accent factor for one mora-bearing phone (Japanese).
#[derive(Debug, Clone, Copy, PartialEq, Eq, Structural)]
pub struct Pitch {
    /// 1-based accent phrase index within the utterance.
    pub phrase: u8,
    /// 1-based mora index within the accent phrase.
    pub mora: u8,
    pub phrase_moras: u8,
    /// Accent nucleus mora (0 = heiban).
    pub nucleus: u8,
    /// Realized level: 0 = L, 1 = H.
    pub level: u8,
}

/// Where a language's phoneme labels come from. Which G2P a language may use
/// is a correctness constraint, not a preference: targets from a different
/// source than the model's training labels disagree about the phoneme
/// inventory, and nothing downstream can tell.
#[derive(Debug, Clone, Copy, PartialEq, Eq, Structural)]
pub enum LabelSource {
    /// The espeak-ng fork. Voice selection is private to the engine.
    Espeak,
    /// The Hindi chain ([`crate::hindi`]).
    Hindi,
    /// The g2pM + pinyin-to-IPA chain ([`crate::mandarin`]).
    Mandarin,
    /// OpenJTalk ([`crate::japanese`]).
    Japanese,
    /// vachana-thai ([`crate::thai`]).
    Thai,
    /// g2pk2 + mecab-ko ([`crate::korean`]).
    Korean,
}

// ---------------------------------------------------------------------------
// Phoneme inventory
// ---------------------------------------------------------------------------

/// Marks that decorate a phone: the continuations, palatalization,
/// aspiration, breathy voice, labialization, and tenseness.
pub open spec fn is_modifier(c: char) -> bool {
    crate::parse::is_continuation(c) || c == '\u{2b2}' || c == '\u{2b0}' || c == '\u{2b1}' || c
        == '\u{1d5d}' || c == '\u{348}'
}

/// Ties that join the two halves of an affricate.
pub open spec fn is_tie_char(c: char) -> bool {
    c == '\u{361}' || c == '\u{35c}'
}

/// Whitespace as Unicode's `White_Space` property defines it.
pub open spec fn is_whitespace(c: char) -> bool {
    ('\u{9}' <= c && c <= '\u{d}') || c == ' ' || c == '\u{85}' || c == '\u{a0}' || c == '\u{1680}'
        || ('\u{2000}' <= c && c <= '\u{200a}') || c == '\u{2028}' || c == '\u{2029}' || c
        == '\u{202f}' || c == '\u{205f}' || c == '\u{3000}'
}

/// Characters that can be the base of a phone: anything but marks, ties,
/// whitespace, ASCII controls, digits and punctuation, and prosodic marks.
pub open spec fn is_base(c: char) -> bool {
    &&& !is_modifier(c)
    &&& !is_tie_char(c)
    &&& !is_whitespace(c)
    &&& !(c <= '\u{40}')
    &&& !('\u{5b}' <= c && c <= '\u{60}')
    &&& !('\u{7b}' <= c && c <= '\u{7f}')
    &&& c != '\u{2c8}'
    &&& c != '\u{2cc}'
    &&& c != '\u{203f}'
}

/// The base characters of a token, marks and ties removed.
pub open spec fn bases(s: Seq<char>) -> Seq<char>
    decreases s.len(),
{
    if s.len() == 0 {
        s
    } else if is_modifier(s.last()) || is_tie_char(s.last()) {
        bases(s.drop_last())
    } else {
        bases(s.drop_last()).push(s.last())
    }
}

/// Multi-phone units of the label inventory: diphthongs and rhotic vowels
/// the vowel merges produce, affricates, and the Thai and Mandarin
/// diphthongs.
pub open spec fn is_multi_unit(b: Seq<char>) -> bool {
    ||| b == seq!['e', 'ɪ'] || b == seq!['a', 'ɪ'] || b == seq!['ɔ', 'ɪ'] || b == seq!['a', 'ʊ']
    ||| b == seq!['o', 'ʊ'] || b == seq!['ə', 'ʊ'] || b == seq!['ɑ', 'ɹ'] || b == seq!['ɔ', 'ɹ']
    ||| b == seq!['ɪ', 'ɹ'] || b == seq!['ɛ', 'ɹ'] || b == seq!['ʊ', 'ɹ'] || b == seq!['ɔ', 'ʏ']
    ||| b == seq!['ɔ', 'ø'] || b == seq!['ɐ', 'ʊ'] || b == seq!['ɐ', 'ɪ'] || b == seq!['ɐ', 'j']
    ||| b == seq!['\u{f5}', 'ɪ'] || b == seq!['\u{169}', 'ɪ'] || b == seq!['o', 'ɪ'] || b == seq!['u', 'ɪ']
    ||| b == seq!['t', 'ʃ'] || b == seq!['t', 's'] || b == seq!['t', 'ɕ'] || b == seq!['t', 'ʂ']
    ||| b == seq!['t', 'θ'] || b == seq!['d', 'ʒ'] || b == seq!['d', 'z'] || b == seq!['d', 'ʑ']
    ||| b == seq!['d', 'ʐ'] || b == seq!['d', 'ð'] || b == seq!['p', 'f'] || b == seq!['b', 'v']
    ||| b == seq!['k', 'x'] || b == seq!['\u{261}', '\u{263}'] || b == seq!['ʈ', 'ʂ']
    ||| b == seq!['ɖ', 'ʐ']
    ||| b == seq!['i', 'ə'] || b == seq!['ɯ', 'ə'] || b == seq!['u', 'ə']
    ||| b == seq!['a', 'i'] || b == seq!['e', 'i'] || b == seq!['a', 'u'] || b == seq!['o', 'u']
}

/// Whether a token belongs to the label inventory: a base character
/// followed by marks, or one of the multi-phone units, with its marks and
/// ties.
pub open spec fn is_phoneme(s: Seq<char>) -> bool {
    &&& s.len() > 0
    &&& is_base(s[0])
    &&& forall|k: int| 0 <= k < s.len() ==> is_base(#[trigger] s[k]) || is_modifier(s[k]) || is_tie_char(s[k])
    &&& (bases(s).len() == 1 || is_multi_unit(bases(s)))
}

fn modifier(c: char) -> (r: bool)
    ensures
        r == is_modifier(c),
{
    crate::parse::continuation(c) || c == '\u{2b2}' || c == '\u{2b0}' || c == '\u{2b1}' || c
        == '\u{1d5d}' || c == '\u{348}'
}

fn tie_char(c: char) -> (r: bool)
    ensures
        r == is_tie_char(c),
{
    c == '\u{361}' || c == '\u{35c}'
}

/// Whether `c` is Unicode whitespace (`char::is_whitespace`).
pub fn whitespace(c: char) -> (r: bool)
    ensures
        r == is_whitespace(c),
{
    ('\u{9}' <= c && c <= '\u{d}') || c == ' ' || c == '\u{85}' || c == '\u{a0}' || c == '\u{1680}'
        || ('\u{2000}' <= c && c <= '\u{200a}') || c == '\u{2028}' || c == '\u{2029}' || c
        == '\u{202f}' || c == '\u{205f}' || c == '\u{3000}'
}

fn base(c: char) -> (r: bool)
    ensures
        r == is_base(c),
{
    !modifier(c) && !tie_char(c) && !whitespace(c) && !(c <= '\u{40}') && !('\u{5b}' <= c && c
        <= '\u{60}') && !('\u{7b}' <= c && c <= '\u{7f}') && c != '\u{2c8}' && c != '\u{2cc}' && c
        != '\u{203f}'
}

fn multi_unit(b: &[char]) -> (r: bool)
    ensures
        r == is_multi_unit(b@),
{
    chars_eq(b, &['e', 'ɪ']) || chars_eq(b, &['a', 'ɪ']) || chars_eq(b, &['ɔ', 'ɪ']) || chars_eq(
        b,
        &['a', 'ʊ'],
    ) || chars_eq(b, &['o', 'ʊ']) || chars_eq(b, &['ə', 'ʊ']) || chars_eq(b, &['ɑ', 'ɹ']) || chars_eq(
        b,
        &['ɔ', 'ɹ'],
    ) || chars_eq(b, &['ɪ', 'ɹ']) || chars_eq(b, &['ɛ', 'ɹ']) || chars_eq(b, &['ʊ', 'ɹ']) || chars_eq(
        b,
        &['ɔ', 'ʏ'],
    ) || chars_eq(b, &['ɔ', 'ø']) || chars_eq(b, &['ɐ', 'ʊ']) || chars_eq(b, &['ɐ', 'ɪ']) || chars_eq(
        b,
        &['ɐ', 'j'],
    ) || chars_eq(b, &['\u{f5}', 'ɪ']) || chars_eq(b, &['\u{169}', 'ɪ']) || chars_eq(b, &['o', 'ɪ']) || chars_eq(b, &['u', 'ɪ']) || chars_eq(b, &['t', 'ʃ'])
        || chars_eq(b, &['t', 's']) || chars_eq(b, &['t', 'ɕ']) || chars_eq(b, &['t', 'ʂ'])
        || chars_eq(b, &['t', 'θ']) || chars_eq(b, &['d', 'ʒ']) || chars_eq(b, &['d', 'z'])
        || chars_eq(b, &['d', 'ʑ']) || chars_eq(b, &['d', 'ʐ']) || chars_eq(b, &['d', 'ð'])
        || chars_eq(b, &['p', 'f']) || chars_eq(b, &['b', 'v']) || chars_eq(b, &['k', 'x'])
        || chars_eq(b, &['\u{261}', '\u{263}']) || chars_eq(b, &['ʈ', 'ʂ']) || chars_eq(b, &['ɖ', 'ʐ'])
        || chars_eq(b, &['i', 'ə']) || chars_eq(b, &['ɯ', 'ə']) || chars_eq(b, &['u', 'ə'])
        || chars_eq(b, &['a', 'i']) || chars_eq(b, &['e', 'i']) || chars_eq(b, &['a', 'u'])
        || chars_eq(b, &['o', 'u'])
}

/// Whether `s` is in the label inventory.
pub fn known_phoneme(s: &[char]) -> (r: bool)
    ensures
        r == is_phoneme(s@),
{
    if s.len() == 0 || !base(s[0]) {
        return false;
    }
    let mut b: Vec<char> = Vec::new();
    let mut i: usize = 0;
    while i < s.len()
        invariant
            i <= s.len(),
            b@ == bases(s@.subrange(0, i as int)),
            forall|k: int| 0 <= k < i ==> is_base(#[trigger] s@[k]) || is_modifier(s@[k]) || is_tie_char(s@[k]),
        decreases s.len() - i,
    {
        proof {
            assert(s@.subrange(0, i + 1).drop_last() =~= s@.subrange(0, i as int));
        }
        let c = s[i];
        if modifier(c) || tie_char(c) {
        } else if base(c) {
            b.push(c);
        } else {
            return false;
        }
        i += 1;
    }
    proof {
        assert(s@.subrange(0, s@.len() as int) =~= s@);
    }
    b.len() == 1 || multi_unit(&b)
}

/// A phone label of the inventory.
#[derive(Debug, PartialEq, Eq, Hash)]
pub struct Phoneme {
    text: String,
}

/// A token that is not in the label inventory.
#[derive(Debug, Clone, PartialEq, Eq)]
pub struct UnknownPhoneme {
    pub token: String,
}

impl View for Phoneme {
    type V = Seq<char>;

    closed spec fn view(&self) -> Seq<char> {
        self.text@
    }
}

impl Clone for Phoneme {
    fn clone(&self) -> (r: Self)
        ensures
            r@ == self@,
    {
        proof {
            use_type_invariant(self);
        }
        Phoneme { text: self.text.clone() }
    }
}

impl Phoneme {
    /// The label spelled `token`, if the inventory has it.
    pub fn from_chars(token: &[char]) -> (r: Result<Phoneme, UnknownPhoneme>)
        ensures
            r is Ok <==> is_phoneme(token@),
            r matches Ok(p) ==> p@ == token@,
            r matches Err(e) ==> e.token@ == token@,
    {
        let text = crate::text::string_of(token);
        if known_phoneme(token) {
            Ok(Phoneme { text })
        } else {
            Err(UnknownPhoneme { token: text })
        }
    }

    /// The label spelled `token`, if the inventory has it.
    pub fn from_text(token: &str) -> (r: Result<Phoneme, UnknownPhoneme>)
        ensures
            r is Ok <==> is_phoneme(token@),
            r matches Ok(p) ==> p@ == token@,
            r matches Err(e) ==> e.token@ == token@,
    {
        let cs = crate::text::chars_of(token);
        Phoneme::from_chars(&cs)
    }

    /// The label's spelling; every label is in the inventory.
    pub fn as_str(&self) -> (r: &str)
        ensures
            r@ == self@,
            is_phoneme(r@),
    {
        proof {
            use_type_invariant(self);
        }
        self.text.as_str()
    }

    #[verifier::type_invariant]
    spec fn in_inventory(self) -> bool {
        is_phoneme(self.text@)
    }
}


// ---------------------------------------------------------------------------
// Phonemized
// ---------------------------------------------------------------------------

/// Phonemization of one utterance.
#[derive(Debug, Clone, PartialEq, Eq, Default)]
pub struct Phonemized {
    /// Readable source IPA, including any stress marks and word boundaries.
    /// Not for scoring; imported dictionary IPA retains its token separators.
    pub raw: String,
    /// Phoneme tokens supplied by the engine or imported from tokenized IPA.
    pub phonemes: Vec<Phoneme>,
    /// Parallel to `phonemes`; empty when unknown.
    pub stress: Vec<Stress>,
    /// `[start, end)` ranges into `phonemes`, one per word when known.
    pub word_spans: Vec<(usize, usize)>,
    /// Syllable spans (absolute indices into `phonemes`) for backends that
    /// compute them — Hindi. Empty for espeak languages.
    pub syllables: Vec<Syllable>,
    /// Lexical tone per phoneme for tone languages, `None` on phones that
    /// bear none; empty for languages without tone labels.
    pub tone: Vec<Option<u8>>,
    /// Tokyo pitch-accent factor per phoneme — Japanese. Parallel to
    /// `phonemes`; empty when withheld or for other languages.
    pub pitch: Vec<Option<Pitch>>,
    /// Why `pitch` is empty although the language has accent labels.
    pub accent_withheld: Option<String>,
}

#[verifier::ext_equal]
pub struct PhonemizedS {
    pub raw: Seq<char>,
    pub phonemes: Seq<Seq<char>>,
    pub stress: Seq<Stress>,
    pub word_spans: Seq<(usize, usize)>,
    pub syllables: Seq<Syllable>,
    pub tone: Seq<Option<u8>>,
    pub pitch: Seq<Option<Pitch>>,
    pub accent_withheld: Option<Seq<char>>,
}

pub open spec fn phoneme_views(v: Seq<Phoneme>) -> Seq<Seq<char>> {
    v.map_values(|p: Phoneme| p@)
}

pub open spec fn opt_view(o: Option<String>) -> Option<Seq<char>> {
    match o {
        Some(s) => Some(s@),
        None => None,
    }
}

impl View for Phonemized {
    type V = PhonemizedS;

    open spec fn view(&self) -> PhonemizedS {
        PhonemizedS {
            raw: self.raw@,
            phonemes: phoneme_views(self.phonemes@),
            stress: self.stress@,
            word_spans: self.word_spans@,
            syllables: self.syllables@,
            tone: self.tone@,
            pitch: self.pitch@,
            accent_withheld: opt_view(self.accent_withheld),
        }
    }
}

pub open spec fn empty_phonemized() -> PhonemizedS {
    PhonemizedS {
        raw: Seq::empty(),
        phonemes: Seq::empty(),
        stress: Seq::empty(),
        word_spans: Seq::empty(),
        syllables: Seq::empty(),
        tone: Seq::empty(),
        pitch: Seq::empty(),
        accent_withheld: None,
    }
}

/// The phones of the first `k` words, in order.
pub open spec fn flat_phones(ws: Seq<Seq<Seq<char>>>, k: int) -> Seq<Seq<char>>
    decreases k,
{
    if k <= 0 {
        Seq::empty()
    } else {
        flat_phones(ws, k - 1) + ws[k - 1]
    }
}

/// One span per non-empty word among the first `k`.
pub open spec fn spans_of_words(ws: Seq<Seq<Seq<char>>>, k: int) -> Seq<(usize, usize)>
    decreases k,
{
    if k <= 0 {
        Seq::empty()
    } else if ws[k - 1].len() == 0 {
        spans_of_words(ws, k - 1)
    } else {
        spans_of_words(ws, k - 1).push(
            (flat_phones(ws, k - 1).len() as usize, flat_phones(ws, k).len() as usize),
        )
    }
}

/// The concatenated spelling of some phones.
pub open spec fn spelling(p: Seq<Seq<char>>) -> Seq<char>
    decreases p.len(),
{
    if p.len() == 0 {
        Seq::empty()
    } else {
        spelling(p.drop_last()) + p.last()
    }
}

/// The non-empty words among the first `k`, each spelled, joined by spaces.
pub open spec fn raw_of_words(ws: Seq<Seq<Seq<char>>>, k: int) -> Seq<char>
    decreases k,
{
    if k <= 0 {
        Seq::empty()
    } else if ws[k - 1].len() == 0 {
        raw_of_words(ws, k - 1)
    } else if spans_of_words(ws, k - 1).len() == 0 {
        spelling(ws[k - 1])
    } else {
        raw_of_words(ws, k - 1) + seq![' '] + spelling(ws[k - 1])
    }
}

/// Labels built from typed words: prosody unknown.
pub open spec fn from_words_spec(ws: Seq<Seq<Seq<char>>>) -> PhonemizedS {
    PhonemizedS {
        raw: raw_of_words(ws, ws.len() as int),
        phonemes: flat_phones(ws, ws.len() as int),
        word_spans: spans_of_words(ws, ws.len() as int),
        ..empty_phonemized()
    }
}

pub open spec fn word_views(ws: Seq<Vec<Phoneme>>) -> Seq<Seq<Seq<char>>> {
    ws.map_values(|w: Vec<Phoneme>| phoneme_views(w@))
}

pub proof fn lemma_spans_of_words(ws: Seq<Seq<Seq<char>>>, k: int)
    requires
        0 <= k <= ws.len(),
        flat_phones(ws, k).len() <= usize::MAX,
    ensures
        tiles(spans_of_words(ws, k), flat_phones(ws, k).len() as int),
        flat_phones(ws, k).len() >= 0,
    decreases k,
{
    if k > 0 {
        lemma_flat_mono(ws, k - 1, k);
        lemma_spans_of_words(ws, k - 1);
        if ws[k - 1].len() > 0 {
            crate::parse::lemma_tiles_push(spans_of_words(ws, k - 1), flat_phones(ws, k - 1).len() as int, flat_phones(ws, k).len() as int);
        }
    }
}

pub proof fn lemma_raw_empty(ws: Seq<Seq<Seq<char>>>, k: int)
    requires
        spans_of_words(ws, k).len() == 0,
    ensures
        raw_of_words(ws, k) == Seq::<char>::empty(),
    decreases k,
{
    if k > 0 {
        lemma_raw_empty(ws, k - 1);
    }
}

pub proof fn lemma_flat_mono(ws: Seq<Seq<Seq<char>>>, j: int, k: int)
    requires
        0 <= j <= k <= ws.len(),
    ensures
        flat_phones(ws, j).len() <= flat_phones(ws, k).len(),
    decreases k - j,
{
    if j < k {
        lemma_flat_mono(ws, j, k - 1);
    }
}

fn append_spelling(raw: &mut String, p: &Phoneme)
    ensures
        final(raw)@ == old(raw)@ + p@,
{
    let s = p.as_str();
    raw.append(s);
}

impl Phonemized {
    /// Construct a target directly from typed words, without reparsing IPA.
    /// Prosody is unknown: stress, tone, pitch and syllables are empty.
    pub fn from_words(words: Vec<Vec<Phoneme>>) -> (r: Phonemized)
        ensures
            r@ == from_words_spec(word_views(words@)),
    {
        let ghost ws = word_views(words@);
        let mut phonemes: Vec<Phoneme> = Vec::new();
        let mut word_spans: Vec<(usize, usize)> = Vec::new();
        let mut raw = String::new();
        let mut k: usize = 0;
        while k < words.len()
            invariant
                k <= words@.len(),
                ws == word_views(words@),
                phoneme_views(phonemes@) == flat_phones(ws, k as int),
                word_spans@ == spans_of_words(ws, k as int),
                raw@ == raw_of_words(ws, k as int),
            decreases words@.len() - k,
        {
            let word = &words[k];
            let start = phonemes.len();
            let had_words = word_spans.len() > 0;
            if word.len() > 0 && had_words {
                raw.append(" ");
                proof {
                    reveal_strlit(" ");
                }
            }
            let ghost raw0 = raw@;
            let ghost ph0 = phoneme_views(phonemes@);
            let mut j: usize = 0;
            while j < word.len()
                invariant
                    j <= word@.len(),
                    word@ == words@[k as int]@,
                    phoneme_views(phonemes@) == ph0 + phoneme_views(word@).subrange(0, j as int),
                    raw@ == raw0 + spelling(phoneme_views(word@).subrange(0, j as int)),
                decreases word@.len() - j,
            {
                let p = word[j].clone();
                append_spelling(&mut raw, &p);
                let ghost before = phoneme_views(phonemes@);
                phonemes.push(p);
                proof {
                    let pv = phoneme_views(word@);
                    assert(phoneme_views(phonemes@) =~= before.push(p@));
                    assert(pv.subrange(0, j + 1) =~= pv.subrange(0, j as int).push(pv[j as int]));
                    assert(pv.subrange(0, j + 1).drop_last() =~= pv.subrange(0, j as int));
                    assert(ph0 + pv.subrange(0, j + 1) =~= (ph0 + pv.subrange(0, j as int)).push(pv[j as int]));
                }
                j += 1;
            }
            proof {
                let pv = phoneme_views(word@);
                assert(pv.subrange(0, pv.len() as int) =~= pv);
                assert(ws[k as int] == pv);
            }
            let end = phonemes.len();
            if end > start {
                word_spans.push((start, end));
            }
            proof {
                if ws[k as int].len() > 0 && had_words {
                    assert(raw@ =~= raw_of_words(ws, k as int) + seq![' '] + spelling(ws[k as int]));
                } else if ws[k as int].len() > 0 {
                    lemma_raw_empty(ws, k as int);
                    assert(raw@ =~= spelling(ws[k as int]));
                } else {
                    assert(spelling(ws[k as int]) =~= Seq::<char>::empty());
                    assert(raw@ =~= raw_of_words(ws, k as int));
                }
            }
            k += 1;
        }
        let r = Phonemized {
            raw,
            phonemes,
            stress: Vec::new(),
            word_spans,
            syllables: Vec::new(),
            tone: Vec::new(),
            pitch: Vec::new(),
            accent_withheld: None,
        };
        proof {
            assert(r@ =~= from_words_spec(ws));
        }
        r
    }
}


// ---------------------------------------------------------------------------
// Importing tokenized IPA
// ---------------------------------------------------------------------------

/// Tokenizer state: the words so far (the last one open) and the open token.
#[verifier::ext_equal]
pub struct TokS {
    pub words: Seq<Seq<Seq<char>>>,
    pub cur: Seq<char>,
}

/// Stress marks and syllable/liaison separators: kept in `raw`, not phones.
pub open spec fn is_prosodic_mark(c: char) -> bool {
    c == '\u{2c8}' || c == '\u{2cc}' || c == '.' || c == '\u{203f}'
}

pub open spec fn tok_flush(s: TokS) -> TokS {
    if s.cur.len() > 0 {
        TokS { words: s.words.update(s.words.len() - 1, s.words.last().push(s.cur)), cur: Seq::empty() }
    } else {
        s
    }
}

pub open spec fn tok_step(s: TokS, c: char) -> TokS {
    if c == '|' {
        TokS { words: tok_flush(s).words.push(Seq::empty()), cur: Seq::empty() }
    } else if is_whitespace(c) {
        tok_flush(s)
    } else if is_prosodic_mark(c) {
        s
    } else {
        TokS { cur: s.cur.push(c), ..s }
    }
}

pub open spec fn tok_prefix(cs: Seq<char>, n: int) -> TokS
    decreases n,
{
    if n <= 0 {
        TokS { words: seq![Seq::empty()], cur: Seq::empty() }
    } else {
        tok_step(tok_prefix(cs, n - 1), cs[n - 1])
    }
}

/// The words of `|`-separated, space-separated phoneme tokens, with stress
/// marks and syllable/liaison separators removed and empty tokens dropped.
pub open spec fn ipa_words(cs: Seq<char>) -> Seq<Seq<Seq<char>>> {
    tok_flush(tok_prefix(cs, cs.len() as int)).words
}

pub open spec fn all_known(ws: Seq<Seq<Seq<char>>>) -> bool {
    forall|wi: int, ti: int|
        0 <= wi < ws.len() && 0 <= ti < ws[wi].len() ==> is_phoneme(#[trigger] ws[wi][ti])
}

/// `t` is the first token, in reading order, that is not in the inventory.
pub open spec fn first_unknown(ws: Seq<Seq<Seq<char>>>, t: Seq<char>) -> bool {
    exists|wi: int, ti: int|
        {
            &&& 0 <= wi < ws.len()
            &&& 0 <= ti < ws[wi].len()
            &&& #[trigger] ws[wi][ti] == t
            &&& !is_phoneme(t)
            &&& forall|wj: int, tj: int|
                (0 <= wj < wi && 0 <= tj < ws[wj].len()) || (wj == wi && 0 <= tj < ti) ==> is_phoneme(
                    #[trigger] ws[wj][tj],
                )
        }
}

/// Unicode canonical composition (NFC) of a text.
pub uninterp spec fn nfc(s: Seq<char>) -> Seq<char>;

/// `UnicodeNormalization::nfc` from `unicode-normalization`: the canonical
/// composition of `s`, collected.
#[verifier::external_body]
fn nfc_chars(s: &str) -> (r: Vec<char>)
    ensures
        r@ == nfc(s@),
{
    s.nfc().collect()
}

/// The tokens of `ws`, each canonically composed.
pub open spec fn composed_words(ws: Seq<Seq<Seq<char>>>) -> Seq<Seq<Seq<char>>> {
    ws.map_values(|w: Seq<Seq<char>>| w.map_values(|t: Seq<char>| nfc(t)))
}

pub open spec fn word_token_views(v: Seq<Vec<Vec<char>>>) -> Seq<Seq<Seq<char>>> {
    v.map_values(|w: Vec<Vec<char>>| crate::parse::views(w@))
}

fn tokenize_ipa(cs: &[char]) -> (r: Vec<Vec<Vec<char>>>)
    ensures
        word_token_views(r@) == ipa_words(cs@),
{
    let mut words: Vec<Vec<Vec<char>>> = Vec::new();
    words.push(Vec::new());
    let mut cur: Vec<char> = Vec::new();
    let mut i: usize = 0;
    proof {
        assert(word_token_views(words@) =~= seq![Seq::<Seq<char>>::empty()]) by {
            assert(crate::parse::views(words@[0]@) =~= Seq::<Seq<char>>::empty());
        }
    }
    while i < cs.len()
        invariant
            i <= cs.len(),
            words@.len() >= 1,
            (TokS { words: word_token_views(words@), cur: cur@ }) == tok_prefix(cs@, i as int),
        decreases cs.len() - i,
    {
        let c = cs[i];
        let ghost s0 = TokS { words: word_token_views(words@), cur: cur@ };
        if c == '|' || whitespace(c) {
            if cur.len() > 0 {
                let ghost w0 = words@;
                let mut last = words.pop().unwrap();
                let ghost l0 = last@;
                last.push(cur);
                words.push(last);
                cur = Vec::new();
                proof {
                    assert(crate::parse::views(last@) =~= crate::parse::views(l0).push(s0.cur));
                    assert(word_token_views(words@) =~= s0.words.update(s0.words.len() - 1, s0.words.last().push(s0.cur)));
                }
            }
            if c == '|' {
                let ghost w1 = word_token_views(words@);
                words.push(Vec::new());
                proof {
                    assert(crate::parse::views(words@[words@.len() - 1]@) =~= Seq::<Seq<char>>::empty());
                    assert(word_token_views(words@) =~= w1.push(Seq::empty()));
                }
            }
        } else if !(c == '\u{2c8}' || c == '\u{2cc}' || c == '.' || c == '\u{203f}') {
            cur.push(c);
        }
        proof {
            assert((TokS { words: word_token_views(words@), cur: cur@ }) =~= tok_step(s0, c));
        }
        i += 1;
    }
    if cur.len() > 0 {
        let ghost s0 = TokS { words: word_token_views(words@), cur: cur@ };
        let mut last = words.pop().unwrap();
        let ghost l0 = last@;
        last.push(cur);
        words.push(last);
        proof {
            assert(crate::parse::views(last@) =~= crate::parse::views(l0).push(s0.cur));
            assert(word_token_views(words@) =~= tok_flush(s0).words);
        }
    }
    words
}

impl Phonemized {
    /// Import space-separated phoneme tokens, with `|` word boundaries.
    /// Stress marks and syllable/liaison separators are retained in `raw`,
    /// not treated as segmental phones. Prosody remains unaligned. Each
    /// remaining token is canonically composed (NFC) and must then belong to
    /// the inventory; the first unknown one, composed, is the error.
    pub fn from_ipa_tokens(ipa: &str) -> (r: Result<Phonemized, UnknownPhoneme>)
        ensures
            r is Ok <==> all_known(composed_words(ipa_words(ipa@))),
            r matches Ok(p) ==> p@ == (PhonemizedS { raw: ipa@, ..from_words_spec(composed_words(ipa_words(ipa@))) }),
            r matches Err(e) ==> first_unknown(composed_words(ipa_words(ipa@)), e.token@),
    {
        let cs = crate::text::chars_of(ipa);
        let words = tokenize_ipa(&cs);
        let ghost raw_ws = word_token_views(words@);
        let ghost ws = composed_words(raw_ws);
        let mut out: Vec<Vec<Phoneme>> = Vec::new();
        let mut wi: usize = 0;
        while wi < words.len()
            invariant
                wi <= words@.len(),
                raw_ws == word_token_views(words@),
                raw_ws == ipa_words(ipa@),
                ws == composed_words(raw_ws),
                word_views(out@) == ws.subrange(0, wi as int),
                forall|wj: int, tj: int|
                    0 <= wj < wi && 0 <= tj < ws[wj].len() ==> is_phoneme(#[trigger] ws[wj][tj]),
            decreases words@.len() - wi,
        {
            let word = &words[wi];
            let mut pw: Vec<Phoneme> = Vec::new();
            let mut ti: usize = 0;
            while ti < word.len()
                invariant
                    ti <= word@.len(),
                    wi < words@.len(),
                    word@ == words@[wi as int]@,
                    raw_ws == word_token_views(words@),
                    raw_ws == ipa_words(ipa@),
                    ws == composed_words(raw_ws),
                    phoneme_views(pw@) == ws[wi as int].subrange(0, ti as int),
                    forall|wj: int, tj: int|
                        0 <= wj < wi && 0 <= tj < ws[wj].len() ==> is_phoneme(#[trigger] ws[wj][tj]),
                    forall|tj: int| 0 <= tj < ti ==> is_phoneme(#[trigger] ws[wi as int][tj]),
                decreases word@.len() - ti,
            {
                let composed = nfc_chars(&crate::text::string_of(&word[ti]));
                proof {
                    assert(raw_ws[wi as int][ti as int] == word@[ti as int]@);
                    assert(ws[wi as int][ti as int] == nfc(word@[ti as int]@));
                }
                match Phoneme::from_chars(&composed) {
                    Ok(p) => {
                        let ghost before = phoneme_views(pw@);
                        pw.push(p);
                        proof {
                            assert(phoneme_views(pw@) =~= before.push(p@));
                            assert(ws[wi as int].subrange(0, ti + 1) =~= ws[wi as int].subrange(0, ti as int).push(ws[wi as int][ti as int]));
                        }
                    },
                    Err(e) => {
                        proof {
                            let a = wi as int;
                            let b = ti as int;
                            assert(ws[a][b] == e.token@);
                            assert(!is_phoneme(ws[a][b]));
                            assert(!all_known(ws)) by {
                                if all_known(ws) {
                                    assert(is_phoneme(ws[a][b]));
                                }
                            }
                            assert forall|wj: int, tj: int|
                                (0 <= wj < a && 0 <= tj < ws[wj].len()) || (wj == a && 0 <= tj < b) implies is_phoneme(
                                #[trigger] ws[wj][tj]) by {}
                            assert(first_unknown(ws, e.token@));
                        }
                        return Err(e);
                    },
                }
                ti += 1;
            }
            let ghost before = word_views(out@);
            out.push(pw);
            proof {
                assert(ws[wi as int].subrange(0, ws[wi as int].len() as int) =~= ws[wi as int]);
                assert(word_views(out@) =~= before.push(ws[wi as int]));
                assert(ws.subrange(0, wi + 1) =~= ws.subrange(0, wi as int).push(ws[wi as int]));
            }
            wi += 1;
        }
        proof {
            assert(ws.subrange(0, ws.len() as int) =~= ws);
        }
        let mut result = Phonemized::from_words(out);
        result.raw = ipa.to_owned();
        Ok(result)
    }
}

} // verus!
