//! Hindi grapheme-to-phoneme labels.
//!
//! The chain: Devanagari is transliterated into the Google `hi_ur` unit
//! scheme with every inherent schwa written out; a classifier decides which
//! schwas survive (its decisions are an input here); a deletion that would
//! leave an unpronounceable consonant run is undone ([`Canon::Current`]);
//! units become broad IPA, aspiration folded into its consonant and
//! nasalization onto its vowel; and lexical stress comes from Roy's (2017)
//! surface syllable-weight rules, with the syllable spans kept.

use crate::error::{Error, ErrorS};
use crate::parse::Stress;
use vstd::prelude::*;

verus! {

/// Which label convention to produce.
#[derive(Debug, Clone, Copy, PartialEq, Eq, Structural)]
pub enum Canon {
    /// The convention the deployed pronunciation model was trained on.
    Legacy,
    /// Legacy plus the audited corrections: `/ə/` beside `/ɦ/` is `[ɛː]`
    /// and यह/वह are `[jeː]`/`[ʋoː]`; word-final short ɪ/ʊ are long;
    /// anusvara before a velar is `ŋ`; ज्ञ is `[ɡj]`; a schwa deletion that
    /// would leave an unpronounceable consonant run is undone; digits and
    /// Latin script are an error rather than silently missing.
    Current,
}

/// A syllable span within a word's phoneme list (`[start, end)`), with its
/// mora weight and stress from Roy's rules.
#[derive(Debug, Clone, Copy, PartialEq, Eq, Structural)]
pub struct Syllable {
    pub start: usize,
    pub end: usize,
    pub nucleus: usize,
    pub moras: u8,
    pub stressed: bool,
}

/// One Devanagari word's labels.
#[derive(Debug, Clone, PartialEq, Eq, Default)]
pub struct Word {
    pub phonemes: Vec<String>,
    pub stress: Vec<Stress>,
    pub syllables: Vec<Syllable>,
    /// One entry per orthographic schwa: whether it was kept.
    pub schwa_retained: Vec<bool>,
}

/// A [`Word`] with its phonemes as character sequences.
#[verifier::ext_equal]
pub struct WordS {
    pub phonemes: Seq<Seq<char>>,
    pub stress: Seq<Stress>,
    pub syllables: Seq<Syllable>,
    pub schwa_retained: Seq<bool>,
}

impl View for Word {
    type V = WordS;

    open spec fn view(&self) -> WordS {
        WordS {
            phonemes: crate::text::string_views(self.phonemes@),
            stress: self.stress@,
            syllables: self.syllables@,
            schwa_retained: self.schwa_retained@,
        }
    }
}

// ---------------------------------------------------------------------------
// Transliteration tables
// ---------------------------------------------------------------------------

/// A unit of the transliteration scheme: a vowel, a consonant, the nasal
/// mark, or the anusvara's velar nasal. Every inherent schwa is a unit `A`.
#[derive(Debug, Clone, Copy, PartialEq, Eq, Structural)]
pub enum Unit {
    A,
    Aa,
    I,
    Ii,
    U,
    Uu,
    E,
    Ai,
    O,
    Au,
    Nasal,
    Ng,
    K,
    Kh,
    G,
    Gh,
    C,
    Ch,
    J,
    Jh,
    Ny,
    Tt,
    Tth,
    Dd,
    Ddh,
    N,
    T,
    Th,
    D,
    Dh,
    P,
    Ph,
    B,
    Bh,
    M,
    Y,
    R,
    L,
    V,
    Sh,
    S,
    H,
    Q,
    X,
    Ghain,
    Z,
    Zh,
    F,
    Rr,
    Rrh,
}

/// The unit's spelling in the scheme (the names the schwa classifier's
/// phonological features are keyed by).
pub open spec fn unit_name(u: Unit) -> Seq<char> {
    match u {
        Unit::A => "a"@,
        Unit::Aa => "aa"@,
        Unit::I => "i"@,
        Unit::Ii => "ii"@,
        Unit::U => "u"@,
        Unit::Uu => "uu"@,
        Unit::E => "e"@,
        Unit::Ai => "E"@,
        Unit::O => "o"@,
        Unit::Au => "O"@,
        Unit::Nasal => "~"@,
        Unit::Ng => "ng"@,
        Unit::K => "k"@,
        Unit::Kh => "kh"@,
        Unit::G => "g"@,
        Unit::Gh => "gh"@,
        Unit::C => "c"@,
        Unit::Ch => "ch"@,
        Unit::J => "j"@,
        Unit::Jh => "jh"@,
        Unit::Ny => "?"@,
        Unit::Tt => "tt"@,
        Unit::Tth => "tth"@,
        Unit::Dd => "dd"@,
        Unit::Ddh => "ddh"@,
        Unit::N => "n"@,
        Unit::T => "t"@,
        Unit::Th => "th"@,
        Unit::D => "d"@,
        Unit::Dh => "dh"@,
        Unit::P => "p"@,
        Unit::Ph => "ph"@,
        Unit::B => "b"@,
        Unit::Bh => "bh"@,
        Unit::M => "m"@,
        Unit::Y => "y"@,
        Unit::R => "r"@,
        Unit::L => "l"@,
        Unit::V => "v"@,
        Unit::Sh => "sh"@,
        Unit::S => "s"@,
        Unit::H => "h"@,
        Unit::Q => "q"@,
        Unit::X => "x"@,
        Unit::Ghain => "Gh"@,
        Unit::Z => "z"@,
        Unit::Zh => "Zh"@,
        Unit::F => "f"@,
        Unit::Rr => "rr"@,
        Unit::Rrh => "rrh"@,
    }
}

impl Unit {
    /// The unit's spelling in the scheme.
    pub fn name(self) -> (r: &'static str)
        ensures
            r@ == unit_name(self),
    {
        match self {
            Unit::A => "a",
            Unit::Aa => "aa",
            Unit::I => "i",
            Unit::Ii => "ii",
            Unit::U => "u",
            Unit::Uu => "uu",
            Unit::E => "e",
            Unit::Ai => "E",
            Unit::O => "o",
            Unit::Au => "O",
            Unit::Nasal => "~",
            Unit::Ng => "ng",
            Unit::K => "k",
            Unit::Kh => "kh",
            Unit::G => "g",
            Unit::Gh => "gh",
            Unit::C => "c",
            Unit::Ch => "ch",
            Unit::J => "j",
            Unit::Jh => "jh",
            Unit::Ny => "?",
            Unit::Tt => "tt",
            Unit::Tth => "tth",
            Unit::Dd => "dd",
            Unit::Ddh => "ddh",
            Unit::N => "n",
            Unit::T => "t",
            Unit::Th => "th",
            Unit::D => "d",
            Unit::Dh => "dh",
            Unit::P => "p",
            Unit::Ph => "ph",
            Unit::B => "b",
            Unit::Bh => "bh",
            Unit::M => "m",
            Unit::Y => "y",
            Unit::R => "r",
            Unit::L => "l",
            Unit::V => "v",
            Unit::Sh => "sh",
            Unit::S => "s",
            Unit::H => "h",
            Unit::Q => "q",
            Unit::X => "x",
            Unit::Ghain => "Gh",
            Unit::Z => "z",
            Unit::Zh => "Zh",
            Unit::F => "f",
            Unit::Rr => "rr",
            Unit::Rrh => "rrh",
        }
    }
}

/// A consonant letter: its unit (the inherent schwa follows it).
pub open spec fn consonant_unit(c: char) -> Option<Unit> {
    match c {
        '\u{915}' => Some(Unit::K),
        '\u{916}' => Some(Unit::Kh),
        '\u{917}' => Some(Unit::G),
        '\u{918}' => Some(Unit::Gh),
        '\u{919}' => Some(Unit::Ng),
        '\u{91a}' => Some(Unit::C),
        '\u{91b}' => Some(Unit::Ch),
        '\u{91c}' => Some(Unit::J),
        '\u{91d}' => Some(Unit::Jh),
        '\u{91e}' => Some(Unit::Ny),
        '\u{91f}' => Some(Unit::Tt),
        '\u{920}' => Some(Unit::Tth),
        '\u{921}' => Some(Unit::Dd),
        '\u{922}' => Some(Unit::Ddh),
        '\u{923}' => Some(Unit::N),
        '\u{924}' => Some(Unit::T),
        '\u{925}' => Some(Unit::Th),
        '\u{926}' => Some(Unit::D),
        '\u{927}' => Some(Unit::Dh),
        '\u{928}' => Some(Unit::N),
        '\u{92a}' => Some(Unit::P),
        '\u{92b}' => Some(Unit::Ph),
        '\u{92c}' => Some(Unit::B),
        '\u{92d}' => Some(Unit::Bh),
        '\u{92e}' => Some(Unit::M),
        '\u{92f}' => Some(Unit::Y),
        '\u{930}' => Some(Unit::R),
        '\u{932}' => Some(Unit::L),
        '\u{935}' => Some(Unit::V),
        '\u{936}' => Some(Unit::Sh),
        '\u{937}' => Some(Unit::Sh),
        '\u{938}' => Some(Unit::S),
        '\u{939}' => Some(Unit::H),
        '\u{958}' => Some(Unit::Q),
        '\u{959}' => Some(Unit::X),
        '\u{95a}' => Some(Unit::Ghain),
        '\u{95b}' => Some(Unit::Z),
        '\u{95c}' => Some(Unit::Rr),
        '\u{95d}' => Some(Unit::Rrh),
        '\u{95e}' => Some(Unit::F),
        _ => None,
    }
}

fn consonant(c: char) -> (r: Option<Unit>)
    ensures
        r == consonant_unit(c),
{
    match c {
            '\u{915}' => Some(Unit::K),
            '\u{916}' => Some(Unit::Kh),
            '\u{917}' => Some(Unit::G),
            '\u{918}' => Some(Unit::Gh),
            '\u{919}' => Some(Unit::Ng),
            '\u{91a}' => Some(Unit::C),
            '\u{91b}' => Some(Unit::Ch),
            '\u{91c}' => Some(Unit::J),
            '\u{91d}' => Some(Unit::Jh),
            '\u{91e}' => Some(Unit::Ny),
            '\u{91f}' => Some(Unit::Tt),
            '\u{920}' => Some(Unit::Tth),
            '\u{921}' => Some(Unit::Dd),
            '\u{922}' => Some(Unit::Ddh),
            '\u{923}' => Some(Unit::N),
            '\u{924}' => Some(Unit::T),
            '\u{925}' => Some(Unit::Th),
            '\u{926}' => Some(Unit::D),
            '\u{927}' => Some(Unit::Dh),
            '\u{928}' => Some(Unit::N),
            '\u{92a}' => Some(Unit::P),
            '\u{92b}' => Some(Unit::Ph),
            '\u{92c}' => Some(Unit::B),
            '\u{92d}' => Some(Unit::Bh),
            '\u{92e}' => Some(Unit::M),
            '\u{92f}' => Some(Unit::Y),
            '\u{930}' => Some(Unit::R),
            '\u{932}' => Some(Unit::L),
            '\u{935}' => Some(Unit::V),
            '\u{936}' => Some(Unit::Sh),
            '\u{937}' => Some(Unit::Sh),
            '\u{938}' => Some(Unit::S),
            '\u{939}' => Some(Unit::H),
            '\u{958}' => Some(Unit::Q),
            '\u{959}' => Some(Unit::X),
            '\u{95a}' => Some(Unit::Ghain),
            '\u{95b}' => Some(Unit::Z),
            '\u{95c}' => Some(Unit::Rr),
            '\u{95d}' => Some(Unit::Rrh),
            '\u{95e}' => Some(Unit::F),
            _ => None,
    }
}

/// An independent vowel letter or a nasal sign: its unit.
pub open spec fn vowel_letter_unit(c: char) -> Option<Unit> {
    match c {
        '\u{905}' => Some(Unit::A),
        '\u{906}' => Some(Unit::Aa),
        '\u{907}' => Some(Unit::I),
        '\u{908}' => Some(Unit::Ii),
        '\u{909}' => Some(Unit::U),
        '\u{90a}' => Some(Unit::Uu),
        '\u{90f}' => Some(Unit::E),
        '\u{910}' | '\u{90d}' => Some(Unit::Ai),
        '\u{913}' => Some(Unit::O),
        '\u{914}' | '\u{911}' => Some(Unit::Au),
        '\u{901}' => Some(Unit::Nasal),
        '\u{902}' => Some(Unit::Ng),
        _ => None,
    }
}

fn vowel_letter(c: char) -> (r: Option<Unit>)
    ensures
        r == vowel_letter_unit(c),
{
    match c {
            '\u{905}' => Some(Unit::A),
            '\u{906}' => Some(Unit::Aa),
            '\u{907}' => Some(Unit::I),
            '\u{908}' => Some(Unit::Ii),
            '\u{909}' => Some(Unit::U),
            '\u{90a}' => Some(Unit::Uu),
            '\u{90f}' => Some(Unit::E),
            '\u{910}' | '\u{90d}' => Some(Unit::Ai),
            '\u{913}' => Some(Unit::O),
            '\u{914}' | '\u{911}' => Some(Unit::Au),
            '\u{901}' => Some(Unit::Nasal),
            '\u{902}' => Some(Unit::Ng),
            _ => None,
    }
}

/// A dependent vowel sign: the unit that replaces the inherent schwa.
pub open spec fn matra_unit(c: char) -> Option<Unit> {
    match c {
        '\u{93e}' => Some(Unit::Aa),
        '\u{93f}' => Some(Unit::I),
        '\u{940}' => Some(Unit::Ii),
        '\u{941}' => Some(Unit::U),
        '\u{942}' => Some(Unit::Uu),
        '\u{947}' => Some(Unit::E),
        '\u{948}' | '\u{945}' => Some(Unit::Ai),
        '\u{94b}' => Some(Unit::O),
        '\u{94c}' | '\u{949}' => Some(Unit::Au),
        _ => None,
    }
}

fn matra(c: char) -> (r: Option<Unit>)
    ensures
        r == matra_unit(c),
{
    match c {
            '\u{93e}' => Some(Unit::Aa),
            '\u{93f}' => Some(Unit::I),
            '\u{940}' => Some(Unit::Ii),
            '\u{941}' => Some(Unit::U),
            '\u{942}' => Some(Unit::Uu),
            '\u{947}' => Some(Unit::E),
            '\u{948}' | '\u{945}' => Some(Unit::Ai),
            '\u{94b}' => Some(Unit::O),
            '\u{94c}' | '\u{949}' => Some(Unit::Au),
            _ => None,
    }
}

/// The Hindi IPA of a unit; the nasal mark has none of its own.
pub open spec fn unit_ipa(u: Unit) -> Option<Seq<char>> {
    match u {
        Unit::A => Some(seq!['\u{259}']),
        Unit::Aa => Some(seq!['a', '\u{2d0}']),
        Unit::I => Some(seq!['\u{26a}']),
        Unit::Ii => Some(seq!['i', '\u{2d0}']),
        Unit::U => Some(seq!['\u{28a}']),
        Unit::Uu => Some(seq!['u', '\u{2d0}']),
        Unit::E => Some(seq!['e', '\u{2d0}']),
        Unit::Ai => Some(seq!['\u{25b}', '\u{2d0}']),
        Unit::O => Some(seq!['o', '\u{2d0}']),
        Unit::Au => Some(seq!['\u{254}', '\u{2d0}']),
        Unit::Nasal => None,
        Unit::Ng => Some(seq!['\u{14b}']),
        Unit::K => Some(seq!['k']),
        Unit::Kh => Some(seq!['k', '\u{2b0}']),
        Unit::G => Some(seq!['\u{261}']),
        Unit::Gh => Some(seq!['\u{261}', '\u{2b1}']),
        Unit::C => Some(seq!['t', '\u{361}', '\u{283}']),
        Unit::Ch => Some(seq!['t', '\u{361}', '\u{283}', '\u{2b0}']),
        Unit::J => Some(seq!['d', '\u{361}', '\u{292}']),
        Unit::Jh => Some(seq!['d', '\u{361}', '\u{292}', '\u{2b1}']),
        Unit::Ny => Some(seq!['\u{272}']),
        Unit::Tt => Some(seq!['\u{288}']),
        Unit::Tth => Some(seq!['\u{288}', '\u{2b0}']),
        Unit::Dd => Some(seq!['\u{256}']),
        Unit::Ddh => Some(seq!['\u{256}', '\u{2b1}']),
        Unit::N => Some(seq!['n']),
        Unit::T => Some(seq!['t', '\u{32a}']),
        Unit::Th => Some(seq!['t', '\u{32a}', '\u{2b0}']),
        Unit::D => Some(seq!['d', '\u{32a}']),
        Unit::Dh => Some(seq!['d', '\u{32a}', '\u{2b1}']),
        Unit::P => Some(seq!['p']),
        Unit::Ph => Some(seq!['p', '\u{2b0}']),
        Unit::B => Some(seq!['b']),
        Unit::Bh => Some(seq!['b', '\u{2b1}']),
        Unit::M => Some(seq!['m']),
        Unit::Y => Some(seq!['j']),
        Unit::R => Some(seq!['\u{27e}']),
        Unit::L => Some(seq!['l']),
        Unit::V => Some(seq!['\u{28b}']),
        Unit::Sh => Some(seq!['\u{283}']),
        Unit::S => Some(seq!['s']),
        Unit::H => Some(seq!['\u{266}']),
        Unit::Q => Some(seq!['q']),
        Unit::X => Some(seq!['x']),
        Unit::Ghain => Some(seq!['\u{263}']),
        Unit::Z => Some(seq!['z']),
        Unit::Zh => Some(seq!['\u{292}']),
        Unit::F => Some(seq!['f']),
        Unit::Rr => Some(seq!['\u{27d}']),
        Unit::Rrh => Some(seq!['\u{27d}', '\u{2b1}']),
    }
}

/// Each aspirated stop is its plain stop with the aspiration mark: `ʰ` on
/// the voiceless ones (ख छ ठ थ फ), breathy `ʱ` on the voiced ones (घ झ ढ ध
/// भ ढ़).
pub proof fn law_aspirates_extend_their_stops()
    ensures
        unit_ipa(Unit::Kh) == Some(unit_ipa(Unit::K)->0.push('\u{2b0}')),
        unit_ipa(Unit::Ch) == Some(unit_ipa(Unit::C)->0.push('\u{2b0}')),
        unit_ipa(Unit::Tth) == Some(unit_ipa(Unit::Tt)->0.push('\u{2b0}')),
        unit_ipa(Unit::Th) == Some(unit_ipa(Unit::T)->0.push('\u{2b0}')),
        unit_ipa(Unit::Ph) == Some(unit_ipa(Unit::P)->0.push('\u{2b0}')),
        unit_ipa(Unit::Gh) == Some(unit_ipa(Unit::G)->0.push('\u{2b1}')),
        unit_ipa(Unit::Jh) == Some(unit_ipa(Unit::J)->0.push('\u{2b1}')),
        unit_ipa(Unit::Ddh) == Some(unit_ipa(Unit::Dd)->0.push('\u{2b1}')),
        unit_ipa(Unit::Dh) == Some(unit_ipa(Unit::D)->0.push('\u{2b1}')),
        unit_ipa(Unit::Bh) == Some(unit_ipa(Unit::B)->0.push('\u{2b1}')),
        unit_ipa(Unit::Rrh) == Some(unit_ipa(Unit::Rr)->0.push('\u{2b1}')),
{
    assert(unit_ipa(Unit::Kh)->0 =~= unit_ipa(Unit::K)->0.push('\u{2b0}'));
    assert(unit_ipa(Unit::Ch)->0 =~= unit_ipa(Unit::C)->0.push('\u{2b0}'));
    assert(unit_ipa(Unit::Tth)->0 =~= unit_ipa(Unit::Tt)->0.push('\u{2b0}'));
    assert(unit_ipa(Unit::Th)->0 =~= unit_ipa(Unit::T)->0.push('\u{2b0}'));
    assert(unit_ipa(Unit::Ph)->0 =~= unit_ipa(Unit::P)->0.push('\u{2b0}'));
    assert(unit_ipa(Unit::Gh)->0 =~= unit_ipa(Unit::G)->0.push('\u{2b1}'));
    assert(unit_ipa(Unit::Jh)->0 =~= unit_ipa(Unit::J)->0.push('\u{2b1}'));
    assert(unit_ipa(Unit::Ddh)->0 =~= unit_ipa(Unit::Dd)->0.push('\u{2b1}'));
    assert(unit_ipa(Unit::Dh)->0 =~= unit_ipa(Unit::D)->0.push('\u{2b1}'));
    assert(unit_ipa(Unit::Bh)->0 =~= unit_ipa(Unit::B)->0.push('\u{2b1}'));
    assert(unit_ipa(Unit::Rrh)->0 =~= unit_ipa(Unit::Rr)->0.push('\u{2b1}'));
}

/// The palatal affricates च and ज are the tied stops before the fricatives
/// of श and ज़ (`t͡ʃ`, `d͡ʒ`); the long vowels are written with the length
/// mark and the three short ones (the schwa, इ, उ) without it.
pub proof fn law_affricates_and_vowel_length()
    ensures
        unit_ipa(Unit::C) == Some(seq!['t', '\u{361}'] + unit_ipa(Unit::Sh)->0),
        unit_ipa(Unit::J) == Some(seq!['d', '\u{361}'] + unit_ipa(Unit::Zh)->0),
        forall|u: Unit|
            #![trigger unit_ipa(u)]
            (u == Unit::Aa || u == Unit::Ii || u == Unit::Uu || u == Unit::E || u == Unit::Ai || u == Unit::O
                || u == Unit::Au) ==> unit_ipa(u)->0.len() == 2 && unit_ipa(u)->0[1] == '\u{2d0}',
        forall|u: Unit|
            #![trigger unit_ipa(u)]
            (u == Unit::A || u == Unit::I || u == Unit::U) ==> unit_ipa(u)->0.len() == 1,
{
    assert(unit_ipa(Unit::C)->0 =~= seq!['t', '\u{361}'] + unit_ipa(Unit::Sh)->0);
    assert(unit_ipa(Unit::J)->0 =~= seq!['d', '\u{361}'] + unit_ipa(Unit::Zh)->0);
}

/// A phone's length and its first and last characters.
pub open spec fn phone_key(s: Seq<char>) -> (nat, char, char) {
    (s.len(), s[0], s[s.len() - 1])
}

/// Different units are labeled with different phones: no two units of the
/// scheme share a label.
#[verifier::rlimit(80)]
pub proof fn law_units_have_distinct_phones(u1: Unit, u2: Unit)
    ensures
        u1 != u2 && unit_ipa(u1) is Some && unit_ipa(u2) is Some ==> unit_ipa(u1) != unit_ipa(u2),
{
    if u1 != u2 && unit_ipa(u1) is Some && unit_ipa(u2) is Some && unit_ipa(u1) == unit_ipa(u2) {
        assert(phone_key(unit_ipa(u1)->0) == phone_key(unit_ipa(u2)->0));
        assert(false);
    }
}

fn ipa_of(u: Unit) -> (r: Option<Vec<char>>)
    ensures
        match r {
            Some(v) => unit_ipa(u) == Some(v@),
            None => unit_ipa(u) is None,
        },
{
    match u {
        Unit::A => Some(vec!['\u{259}']),
        Unit::Aa => Some(vec!['a', '\u{2d0}']),
        Unit::I => Some(vec!['\u{26a}']),
        Unit::Ii => Some(vec!['i', '\u{2d0}']),
        Unit::U => Some(vec!['\u{28a}']),
        Unit::Uu => Some(vec!['u', '\u{2d0}']),
        Unit::E => Some(vec!['e', '\u{2d0}']),
        Unit::Ai => Some(vec!['\u{25b}', '\u{2d0}']),
        Unit::O => Some(vec!['o', '\u{2d0}']),
        Unit::Au => Some(vec!['\u{254}', '\u{2d0}']),
        Unit::Nasal => None,
        Unit::Ng => Some(vec!['\u{14b}']),
        Unit::K => Some(vec!['k']),
        Unit::Kh => Some(vec!['k', '\u{2b0}']),
        Unit::G => Some(vec!['\u{261}']),
        Unit::Gh => Some(vec!['\u{261}', '\u{2b1}']),
        Unit::C => Some(vec!['t', '\u{361}', '\u{283}']),
        Unit::Ch => Some(vec!['t', '\u{361}', '\u{283}', '\u{2b0}']),
        Unit::J => Some(vec!['d', '\u{361}', '\u{292}']),
        Unit::Jh => Some(vec!['d', '\u{361}', '\u{292}', '\u{2b1}']),
        Unit::Ny => Some(vec!['\u{272}']),
        Unit::Tt => Some(vec!['\u{288}']),
        Unit::Tth => Some(vec!['\u{288}', '\u{2b0}']),
        Unit::Dd => Some(vec!['\u{256}']),
        Unit::Ddh => Some(vec!['\u{256}', '\u{2b1}']),
        Unit::N => Some(vec!['n']),
        Unit::T => Some(vec!['t', '\u{32a}']),
        Unit::Th => Some(vec!['t', '\u{32a}', '\u{2b0}']),
        Unit::D => Some(vec!['d', '\u{32a}']),
        Unit::Dh => Some(vec!['d', '\u{32a}', '\u{2b1}']),
        Unit::P => Some(vec!['p']),
        Unit::Ph => Some(vec!['p', '\u{2b0}']),
        Unit::B => Some(vec!['b']),
        Unit::Bh => Some(vec!['b', '\u{2b1}']),
        Unit::M => Some(vec!['m']),
        Unit::Y => Some(vec!['j']),
        Unit::R => Some(vec!['\u{27e}']),
        Unit::L => Some(vec!['l']),
        Unit::V => Some(vec!['\u{28b}']),
        Unit::Sh => Some(vec!['\u{283}']),
        Unit::S => Some(vec!['s']),
        Unit::H => Some(vec!['\u{266}']),
        Unit::Q => Some(vec!['q']),
        Unit::X => Some(vec!['x']),
        Unit::Ghain => Some(vec!['\u{263}']),
        Unit::Z => Some(vec!['z']),
        Unit::Zh => Some(vec!['\u{292}']),
        Unit::F => Some(vec!['f']),
        Unit::Rr => Some(vec!['\u{27d}']),
        Unit::Rrh => Some(vec!['\u{27d}', '\u{2b1}']),
    }
}

/// 33 entries.
pub open spec fn native_ph_prefixes() -> Seq<Seq<char>> {
    seq![
        seq!['\u{92b}', '\u{93f}', '\u{930}'],
        seq!['\u{92b}', '\u{932}'],
        seq!['\u{92b}', '\u{942}', '\u{932}'],
        seq!['\u{92b}', '\u{948}', '\u{932}'],
        seq!['\u{92b}', '\u{947}', '\u{902}', '\u{915}'],
        seq!['\u{92b}', '\u{902}', '\u{938}'],
        seq!['\u{92b}', '\u{901}', '\u{938}'],
        seq!['\u{92b}', '\u{942}', '\u{91f}'],
        seq!['\u{92b}', '\u{91f}'],
        seq!['\u{92b}', '\u{94b}', '\u{921}', '\u{93c}'],
        seq!['\u{92b}', '\u{93e}', '\u{921}', '\u{93c}'],
        seq!['\u{92b}', '\u{93e}', '\u{921}', '\u{929}'],
        seq!['\u{92b}', '\u{93f}', '\u{938}', '\u{932}'],
        seq!['\u{92b}', '\u{941}', '\u{938}', '\u{92b}', '\u{941}', '\u{938}'],
        seq!['\u{92b}', '\u{941}', '\u{901}', '\u{92b}'],
        seq!['\u{92b}', '\u{92b}'],
        seq!['\u{92b}', '\u{93e}', '\u{902}', '\u{938}', '\u{940}'],
        seq!['\u{92b}', '\u{93e}', '\u{91f}', '\u{915}'],
        seq!['\u{92b}', '\u{940}', '\u{915}', '\u{93e}'],
        seq!['\u{92b}', '\u{940}', '\u{915}', '\u{940}'],
        seq!['\u{92b}', '\u{940}', '\u{924}'],
        seq!['\u{92b}', '\u{947}', '\u{930}'],
        seq!['\u{92b}', '\u{941}', '\u{92b}', '\u{947}', '\u{930}'],
        seq!['\u{926}', '\u{941}', '\u{92b}', '\u{947}', '\u{930}'],
        seq!['\u{92b}', '\u{917}', '\u{935}', '\u{93e}', '\u{921}', '\u{93c}'],
        seq!['\u{92b}', '\u{941}', '\u{932}', '\u{91d}', '\u{921}', '\u{93c}'],
        seq!['\u{92b}', '\u{942}', '\u{901}', '\u{915}'],
        seq!['\u{92b}', '\u{941}', '\u{938}'],
        seq!['\u{92b}', '\u{942}', '\u{938}'],
        seq!['\u{92b}', '\u{941}', '\u{939}', '\u{93e}', '\u{930}'],
        seq!['\u{92b}', '\u{935}', '\u{94d}', '\u{935}', '\u{93e}', '\u{930}'],
        seq!['\u{92b}', '\u{932}', '\u{93e}', '\u{902}', '\u{917}'],
        seq!['\u{92b}', '\u{932}', '\u{926}'],
    ]
}

fn native_ph_prefix(k: usize) -> (r: Vec<char>)
    requires
        k < 33,
    ensures
        r@ == native_ph_prefixes()[k as int],
{
    match k {
        0 => vec!['\u{92b}', '\u{93f}', '\u{930}'],
        1 => vec!['\u{92b}', '\u{932}'],
        2 => vec!['\u{92b}', '\u{942}', '\u{932}'],
        3 => vec!['\u{92b}', '\u{948}', '\u{932}'],
        4 => vec!['\u{92b}', '\u{947}', '\u{902}', '\u{915}'],
        5 => vec!['\u{92b}', '\u{902}', '\u{938}'],
        6 => vec!['\u{92b}', '\u{901}', '\u{938}'],
        7 => vec!['\u{92b}', '\u{942}', '\u{91f}'],
        8 => vec!['\u{92b}', '\u{91f}'],
        9 => vec!['\u{92b}', '\u{94b}', '\u{921}', '\u{93c}'],
        10 => vec!['\u{92b}', '\u{93e}', '\u{921}', '\u{93c}'],
        11 => vec!['\u{92b}', '\u{93e}', '\u{921}', '\u{929}'],
        12 => vec!['\u{92b}', '\u{93f}', '\u{938}', '\u{932}'],
        13 => vec!['\u{92b}', '\u{941}', '\u{938}', '\u{92b}', '\u{941}', '\u{938}'],
        14 => vec!['\u{92b}', '\u{941}', '\u{901}', '\u{92b}'],
        15 => vec!['\u{92b}', '\u{92b}'],
        16 => vec!['\u{92b}', '\u{93e}', '\u{902}', '\u{938}', '\u{940}'],
        17 => vec!['\u{92b}', '\u{93e}', '\u{91f}', '\u{915}'],
        18 => vec!['\u{92b}', '\u{940}', '\u{915}', '\u{93e}'],
        19 => vec!['\u{92b}', '\u{940}', '\u{915}', '\u{940}'],
        20 => vec!['\u{92b}', '\u{940}', '\u{924}'],
        21 => vec!['\u{92b}', '\u{947}', '\u{930}'],
        22 => vec!['\u{92b}', '\u{941}', '\u{92b}', '\u{947}', '\u{930}'],
        23 => vec!['\u{926}', '\u{941}', '\u{92b}', '\u{947}', '\u{930}'],
        24 => vec!['\u{92b}', '\u{917}', '\u{935}', '\u{93e}', '\u{921}', '\u{93c}'],
        25 => vec!['\u{92b}', '\u{941}', '\u{932}', '\u{91d}', '\u{921}', '\u{93c}'],
        26 => vec!['\u{92b}', '\u{942}', '\u{901}', '\u{915}'],
        27 => vec!['\u{92b}', '\u{941}', '\u{938}'],
        28 => vec!['\u{92b}', '\u{942}', '\u{938}'],
        29 => vec!['\u{92b}', '\u{941}', '\u{939}', '\u{93e}', '\u{930}'],
        30 => vec!['\u{92b}', '\u{935}', '\u{94d}', '\u{935}', '\u{93e}', '\u{930}'],
        31 => vec!['\u{92b}', '\u{932}', '\u{93e}', '\u{902}', '\u{917}'],
        _ => vec!['\u{92b}', '\u{932}', '\u{926}'],
    }
}

/// 9 entries.
pub open spec fn native_ph_substrings() -> Seq<Seq<char>> {
    seq![
        seq!['\u{938}', '\u{92b}', '\u{932}'],
        seq!['\u{935}', '\u{93f}', '\u{92b}', '\u{932}'],
        seq!['\u{915}', '\u{94d}', '\u{937}', '\u{947}', '\u{924}', '\u{94d}', '\u{930}', '\u{92b}', '\u{932}'],
        seq!['\u{938}', '\u{94d}', '\u{92b}', '\u{940}', '\u{924}', '\u{93f}'],
        seq!['\u{938}', '\u{94d}', '\u{92b}', '\u{94b}', '\u{91f}'],
        seq!['\u{939}', '\u{947}', '\u{930}', '\u{92b}', '\u{947}', '\u{930}'],
        seq!['\u{939}', '\u{947}', '\u{930}', '\u{93e}', '\u{92b}', '\u{947}', '\u{930}'],
        seq!['\u{92b}', '\u{91f}', '\u{93e}', '\u{92b}', '\u{91f}'],
        seq!['\u{926}', '\u{94b}', '\u{92b}', '\u{939}', '\u{930}'],
    ]
}

fn native_ph_substring(k: usize) -> (r: Vec<char>)
    requires
        k < 9,
    ensures
        r@ == native_ph_substrings()[k as int],
{
    match k {
        0 => vec!['\u{938}', '\u{92b}', '\u{932}'],
        1 => vec!['\u{935}', '\u{93f}', '\u{92b}', '\u{932}'],
        2 => vec!['\u{915}', '\u{94d}', '\u{937}', '\u{947}', '\u{924}', '\u{94d}', '\u{930}', '\u{92b}', '\u{932}'],
        3 => vec!['\u{938}', '\u{94d}', '\u{92b}', '\u{940}', '\u{924}', '\u{93f}'],
        4 => vec!['\u{938}', '\u{94d}', '\u{92b}', '\u{94b}', '\u{91f}'],
        5 => vec!['\u{939}', '\u{947}', '\u{930}', '\u{92b}', '\u{947}', '\u{930}'],
        6 => vec!['\u{939}', '\u{947}', '\u{930}', '\u{93e}', '\u{92b}', '\u{947}', '\u{930}'],
        7 => vec!['\u{92b}', '\u{91f}', '\u{93e}', '\u{92b}', '\u{91f}'],
        _ => vec!['\u{926}', '\u{94b}', '\u{92b}', '\u{939}', '\u{930}'],
    }
}

/// What a nukta makes of the consonant before it.
pub open spec fn nukta_unit(u: Unit) -> Unit {
    match u {
        Unit::K => Unit::Q,
        Unit::Kh => Unit::X,
        Unit::G => Unit::Ghain,
        Unit::Ph => Unit::F,
        Unit::J => Unit::Z,
        Unit::Jh => Unit::Zh,
        Unit::Dd => Unit::Rr,
        Unit::Ddh => Unit::Rrh,
        other => other,
    }
}

fn nukta(u: Unit) -> (r: Unit)
    ensures
        r == nukta_unit(u),
{
    match u {
        Unit::K => Unit::Q,
        Unit::Kh => Unit::X,
        Unit::G => Unit::Ghain,
        Unit::Ph => Unit::F,
        Unit::J => Unit::Z,
        Unit::Jh => Unit::Zh,
        Unit::Dd => Unit::Rr,
        Unit::Ddh => Unit::Rrh,
        other => other,
    }
}

/// How anusvara assimilates to the unit after it; `None` before a vowel, a
/// mark, ञ or ʒ, where no assimilation is defined.
pub open spec fn assimilation(next: Unit, canon: Canon) -> Option<Unit> {
    match next {
        Unit::K | Unit::Kh => Some(
            match canon {
                Canon::Legacy => Unit::Nasal,
                Canon::Current => Unit::Ng,
            },
        ),
        Unit::G | Unit::Gh | Unit::Ng | Unit::Ghain => Some(Unit::Ng),
        Unit::C | Unit::Ch | Unit::J | Unit::N | Unit::Tt | Unit::Tth | Unit::Dd | Unit::Ddh
        | Unit::T | Unit::Th | Unit::D | Unit::Dh | Unit::Sh | Unit::S => Some(Unit::N),
        Unit::P | Unit::Ph | Unit::B | Unit::Bh | Unit::M => Some(Unit::M),
        Unit::Jh | Unit::Y | Unit::R | Unit::L | Unit::V | Unit::H | Unit::Q | Unit::X
        | Unit::F | Unit::Z | Unit::Rr | Unit::Rrh => Some(Unit::Nasal),
        _ => None,
    }
}

fn nasal_assimilation(next: Unit, canon: Canon) -> (r: Option<Unit>)
    ensures
        r == assimilation(next, canon),
{
    match next {
        Unit::K | Unit::Kh => Some(
            match canon {
                Canon::Legacy => Unit::Nasal,
                Canon::Current => Unit::Ng,
            },
        ),
        Unit::G | Unit::Gh | Unit::Ng | Unit::Ghain => Some(Unit::Ng),
        Unit::C | Unit::Ch | Unit::J | Unit::N | Unit::Tt | Unit::Tth | Unit::Dd | Unit::Ddh
        | Unit::T | Unit::Th | Unit::D | Unit::Dh | Unit::Sh | Unit::S => Some(Unit::N),
        Unit::P | Unit::Ph | Unit::B | Unit::Bh | Unit::M => Some(Unit::M),
        Unit::Jh | Unit::Y | Unit::R | Unit::L | Unit::V | Unit::H | Unit::Q | Unit::X
        | Unit::F | Unit::Z | Unit::Rr | Unit::Rrh => Some(Unit::Nasal),
        _ => None,
    }
}

/// The vowel units.
pub open spec fn is_vowel_unit(u: Unit) -> bool {
    match u {
        Unit::A | Unit::Aa | Unit::I | Unit::Ii | Unit::U | Unit::Uu | Unit::E | Unit::Ai
        | Unit::O | Unit::Au => true,
        _ => false,
    }
}

fn vowel_unit(u: Unit) -> (r: bool)
    ensures
        r == is_vowel_unit(u),
{
    match u {
        Unit::A | Unit::Aa | Unit::I | Unit::Ii | Unit::U | Unit::Uu | Unit::E | Unit::Ai
        | Unit::O | Unit::Au => true,
        _ => false,
    }
}


// ---------------------------------------------------------------------------
// Transliteration
// ---------------------------------------------------------------------------

/// `ऋ` spelled as `रि` and the sign `ृ` as `्रि`.
pub open spec fn expand_r(cs: Seq<char>) -> Seq<char>
    decreases cs.len(),
{
    if cs.len() == 0 {
        cs
    } else {
        let c = cs.last();
        expand_r(cs.drop_last()) + (if c == '\u{90b}' {
            seq!['\u{930}', '\u{93f}']
        } else if c == '\u{943}' {
            seq!['\u{94d}', '\u{930}', '\u{93f}']
        } else {
            seq![c]
        })
    }
}

/// Every `ज्ञ` spelled `ग्य`, left to right.
pub open spec fn replace_jna(cs: Seq<char>) -> Seq<char>
    decreases cs.len(),
{
    if cs.len() >= 3 && cs[0] == '\u{91c}' && cs[1] == '\u{94d}' && cs[2] == '\u{91e}' {
        seq!['\u{917}', '\u{94d}', '\u{92f}'] + replace_jna(cs.subrange(3, cs.len() as int))
    } else if cs.len() == 0 {
        cs
    } else {
        seq![cs[0]] + replace_jna(cs.subrange(1, cs.len() as int))
    }
}

/// The text the units are read from.
pub open spec fn spelled(word: Seq<char>, canon: Canon) -> Seq<char> {
    if canon == Canon::Current {
        replace_jna(expand_r(word))
    } else {
        expand_r(word)
    }
}

fn expand_r_exec(cs: &[char]) -> (r: Vec<char>)
    ensures
        r@ == expand_r(cs@),
{
    let mut out: Vec<char> = Vec::new();
    let mut i: usize = 0;
    while i < cs.len()
        invariant
            i <= cs.len(),
            out@ == expand_r(cs@.subrange(0, i as int)),
        decreases cs.len() - i,
    {
        let c = cs[i];
        if c == '\u{90b}' {
            out.push('\u{930}');
            out.push('\u{93f}');
        } else if c == '\u{943}' {
            out.push('\u{94d}');
            out.push('\u{930}');
            out.push('\u{93f}');
        } else {
            out.push(c);
        }
        proof {
            let pre = cs@.subrange(0, i + 1);
            assert(pre.drop_last() =~= cs@.subrange(0, i as int));
            assert(out@ =~= expand_r(pre));
        }
        i += 1;
    }
    proof {
        assert(cs@.subrange(0, cs@.len() as int) =~= cs@);
    }
    out
}

fn replace_jna_exec(cs: &[char]) -> (r: Vec<char>)
    ensures
        r@ == replace_jna(cs@),
{
    let mut out: Vec<char> = Vec::new();
    let mut i: usize = 0;
    proof {
        assert(cs@.subrange(0, cs@.len() as int) =~= cs@);
    }
    while i < cs.len()
        invariant
            i <= cs.len(),
            out@ + replace_jna(cs@.subrange(i as int, cs@.len() as int)) == replace_jna(cs@),
        decreases cs.len() - i,
    {
        let ghost rest = cs@.subrange(i as int, cs@.len() as int);
        if cs.len() >= 3 && i <= cs.len() - 3 && cs[i] == '\u{91c}' && cs[i + 1] == '\u{94d}' && cs[i + 2] == '\u{91e}' {
            let ghost o = out@;
            out.push('\u{917}');
            out.push('\u{94d}');
            out.push('\u{92f}');
            proof {
                assert(rest.subrange(3, rest.len() as int) =~= cs@.subrange(i + 3, cs@.len() as int));
                assert(out@ =~= o + seq!['\u{917}', '\u{94d}', '\u{92f}']);
                assert(o + replace_jna(rest) == replace_jna(cs@));
                assert(out@ + replace_jna(cs@.subrange(i + 3, cs@.len() as int)) =~= o + replace_jna(rest));
            }
            i += 3;
        } else {
            let ghost o = out@;
            out.push(cs[i]);
            proof {
                assert(rest.subrange(1, rest.len() as int) =~= cs@.subrange(i + 1, cs@.len() as int));
                assert(out@ + replace_jna(cs@.subrange(i + 1, cs@.len() as int)) =~= o + replace_jna(rest));
            }
            i += 1;
        }
    }
    proof {
        assert(cs@.subrange(i as int, cs@.len() as int) =~= Seq::<char>::empty());
        assert(out@ + Seq::<char>::empty() =~= out@);
    }
    out
}

/// The units after one more character: a virama removes the inherent schwa,
/// a nukta modifies the consonant before it (its schwa lifted off and put
/// back), a consonant brings its schwa, a vowel sign replaces it; anything
/// else in the block (danda, digits, avagraha) is ignored.
pub open spec fn unit_step(res: Seq<Unit>, c: char) -> Seq<Unit> {
    if c == '\u{94d}' {
        if res.len() > 0 {
            res.drop_last()
        } else {
            res
        }
    } else if c == '\u{93c}' {
        if res.len() > 0 && res.last() == Unit::A {
            let r1 = res.drop_last();
            if r1.len() > 0 {
                r1.drop_last().push(nukta_unit(r1.last())).push(Unit::A)
            } else {
                r1.push(Unit::A)
            }
        } else if res.len() > 0 {
            res.drop_last().push(nukta_unit(res.last()))
        } else {
            res
        }
    } else {
        match consonant_unit(c) {
            Some(u) => res.push(u).push(Unit::A),
            None => match vowel_letter_unit(c) {
                Some(u) => res.push(u),
                None => match matra_unit(c) {
                    Some(u) => (if res.len() > 0 {
                        res.drop_last()
                    } else {
                        res
                    }).push(u),
                    None => res,
                },
            },
        }
    }
}

/// The units of a spelling, before anusvara assimilation.
pub open spec fn raw_units(cs: Seq<char>) -> Seq<Unit>
    decreases cs.len(),
{
    if cs.len() == 0 {
        Seq::empty()
    } else {
        unit_step(raw_units(cs.drop_last()), cs.last())
    }
}

fn raw_units_exec(cs: &[char]) -> (r: Vec<Unit>)
    ensures
        r@ == raw_units(cs@),
{
    let mut res: Vec<Unit> = Vec::new();
    let mut i: usize = 0;
    while i < cs.len()
        invariant
            i <= cs.len(),
            res@ == raw_units(cs@.subrange(0, i as int)),
        decreases cs.len() - i,
    {
        let c = cs[i];
        let ghost r0 = res@;
        if c == '\u{94d}' {
            res.pop();
        } else if c == '\u{93c}' {
            if res.len() > 0 && res[res.len() - 1] == Unit::A {
                res.pop();
                match res.pop() {
                    Some(l) => res.push(nukta(l)),
                    None => {},
                }
                res.push(Unit::A);
            } else {
                match res.pop() {
                    Some(l) => res.push(nukta(l)),
                    None => {},
                }
            }
        } else {
            match consonant(c) {
                Some(u) => {
                    res.push(u);
                    res.push(Unit::A);
                },
                None => match vowel_letter(c) {
                    Some(u) => res.push(u),
                    None => match matra(c) {
                        Some(u) => {
                            res.pop();
                            res.push(u);
                        },
                        None => {},
                    },
                },
            }
        }
        proof {
            let pre = cs@.subrange(0, i + 1);
            assert(pre.drop_last() =~= cs@.subrange(0, i as int));
            assert(res@ =~= unit_step(r0, c));
        }
        i += 1;
    }
    proof {
        assert(cs@.subrange(0, cs@.len() as int) =~= cs@);
    }
    res
}

/// Unit `i` after anusvara assimilation; `None` where the anusvara has no
/// rule for what follows it.
pub open spec fn assimilated(res: Seq<Unit>, i: int, canon: Canon) -> Option<Unit> {
    if res[i] != Unit::Ng {
        Some(res[i])
    } else if i + 1 >= res.len() {
        Some(Unit::Nasal)
    } else {
        assimilation(res[i + 1], canon)
    }
}

pub open spec fn assimilated_unit(res: Seq<Unit>, i: int, canon: Canon) -> Unit {
    match assimilated(res, i, canon) {
        Some(u) => u,
        None => Unit::Nasal,
    }
}

/// The first position at or after `i` whose anusvara cannot assimilate.
pub open spec fn first_unassimilated(res: Seq<Unit>, canon: Canon, i: int) -> Option<int>
    decreases res.len() - i,
{
    if i < 0 || i >= res.len() {
        None
    } else if assimilated(res, i, canon) is None {
        Some(i)
    } else {
        first_unassimilated(res, canon, i + 1)
    }
}

proof fn lemma_first_unassimilated(res: Seq<Unit>, canon: Canon, k: int, i: int)
    requires
        0 <= k <= i <= res.len(),
        forall|j: int| k <= j < i ==> (#[trigger] assimilated(res, j, canon)) is Some,
    ensures
        first_unassimilated(res, canon, k) == first_unassimilated(res, canon, i),
    decreases i - k,
{
    if k < i {
        lemma_first_unassimilated(res, canon, k + 1, i);
    }
}

/// The refusal for an anusvara before a unit it cannot assimilate to.
pub open spec fn anusvara_message(next: Unit, word: Seq<char>) -> Seq<char> {
    "anusvara before "@ + crate::text::str_debug(unit_name(next)) + " in "@ + crate::text::str_debug(word)
}

/// Anusvara assimilated throughout, or the refusal for the first position
/// where it cannot be.
pub open spec fn assimilate_spec(res: Seq<Unit>, canon: Canon, word: Seq<char>) -> Result<Seq<Unit>, ErrorS> {
    match first_unassimilated(res, canon, 0) {
        Some(i) => Err(ErrorS::Unlabelable(anusvara_message(res[i + 1], word))),
        None => Ok(Seq::new(res.len(), |i: int| assimilated_unit(res, i, canon))),
    }
}

fn assimilate(res: &Vec<Unit>, canon: Canon, word: &str) -> (r: Result<Vec<Unit>, Error>)
    ensures
        crate::error::result_view(r, |v: Vec<Unit>| v@) == assimilate_spec(res@, canon, word@),
{
    let n = res.len();
    let mut out: Vec<Unit> = Vec::new();
    let mut i: usize = 0;
    while i < n
        invariant
            i <= n,
            n == res@.len(),
            out@ == Seq::new(i as nat, |j: int| assimilated_unit(res@, j, canon)),
            forall|j: int| 0 <= j < i ==> (#[trigger] assimilated(res@, j, canon)) is Some,
        decreases n - i,
    {
        let u = res[i];
        let ghost o = out@;
        if u == Unit::Ng {
            if i + 1 == n {
                out.push(Unit::Nasal);
            } else {
                match nasal_assimilation(res[i + 1], canon) {
                    Some(a) => out.push(a),
                    None => {
                        proof {
                            lemma_first_unassimilated(res@, canon, 0, i as int);
                        }
                        let a = crate::text::debug_quoted(res[i + 1].name());
                        let b = crate::text::debug_quoted(word);
                        let mut msg = crate::text::concat3("anusvara before ", a.as_str(), " in ");
                        msg.append(b.as_str());
                        return Err(Error::Unlabelable(msg));
                    },
                }
            }
        } else {
            out.push(u);
        }
        proof {
            assert(assimilated(res@, i as int, canon) is Some);
            assert(out@ =~= Seq::new((i + 1) as nat, |j: int| assimilated_unit(res@, j, canon)));
        }
        i += 1;
    }
    proof {
        lemma_first_unassimilated(res@, canon, 0, n as int);
    }
    Ok(out)
}

// ---------------------------------------------------------------------------
// Loanword फ
// ---------------------------------------------------------------------------

/// `p` is a prefix of `w`.
pub open spec fn has_prefix(w: Seq<char>, p: Seq<char>) -> bool {
    p.len() <= w.len() && w.subrange(0, p.len() as int) == p
}

/// `s` occurs in `w`.
pub open spec fn contains_seq(w: Seq<char>, s: Seq<char>) -> bool {
    exists|j: int| 0 <= j && j + s.len() <= w.len() && #[trigger] w.subrange(j, j + s.len()) == s
}

/// Words whose nukta-less फ is the native aspirated stop /pʰ/ rather than
/// the loan /f/: those that start with one of the native prefixes or
/// contain one of the native stems.
pub open spec fn ph_is_native(w: Seq<char>) -> bool {
    ||| exists|k: int| 0 <= k < 33 && has_prefix(w, #[trigger] native_ph_prefixes()[k])
    ||| exists|k: int| 0 <= k < 9 && contains_seq(w, #[trigger] native_ph_substrings()[k])
}

fn matches_at(w: &[char], j: usize, s: &[char]) -> (r: bool)
    requires
        j + s.len() <= w.len(),
    ensures
        r == (w@.subrange(j as int, j + s.len()) == s@),
{
    let mut k: usize = 0;
    while k < s.len()
        invariant
            k <= s.len(),
            j + s.len() <= w.len(),
            forall|m: int| 0 <= m < k ==> w@[j + m] == s@[m],
        decreases s.len() - k,
    {
        if w[j + k] != s[k] {
            assert(w@.subrange(j as int, j + s.len())[k as int] != s@[k as int]);
            return false;
        }
        k += 1;
    }
    assert(w@.subrange(j as int, j + s.len()) =~= s@);
    true
}

fn contains_chars(w: &[char], s: &[char]) -> (r: bool)
    ensures
        r == contains_seq(w@, s@),
{
    if s.len() > w.len() {
        return false;
    }
    let limit = w.len() - s.len();
    let mut j: usize = 0;
    loop
        invariant
            s.len() <= w.len(),
            limit == w.len() - s.len(),
            j <= limit,
            forall|m: int| 0 <= m < j ==> #[trigger] w@.subrange(m, m + s.len()) != s@,
        decreases limit - j,
    {
        if matches_at(w, j, s) {
            return true;
        }
        if j == limit {
            return false;
        }
        j += 1;
    }
}

fn ph_native(w: &[char]) -> (r: bool)
    ensures
        r == ph_is_native(w@),
{
    let mut k: usize = 0;
    while k < 33
        invariant
            k <= 33,
            forall|m: int| 0 <= m < k ==> !has_prefix(w@, #[trigger] native_ph_prefixes()[m]),
        decreases 33 - k,
    {
        let p = native_ph_prefix(k);
        if p.len() <= w.len() && matches_at(w, 0, &p) {
            return true;
        }
        k += 1;
    }
    let mut k: usize = 0;
    while k < 9
        invariant
            k <= 9,
            forall|m: int| 0 <= m < 33 ==> !has_prefix(w@, #[trigger] native_ph_prefixes()[m]),
            forall|m: int| 0 <= m < k ==> !contains_seq(w@, #[trigger] native_ph_substrings()[m]),
        decreases 9 - k,
    {
        let s = native_ph_substring(k);
        if contains_chars(w, &s) {
            return true;
        }
        k += 1;
    }
    false
}

/// Every फ unit read as /f/.
pub open spec fn loan_ph(us: Seq<Unit>) -> Seq<Unit> {
    us.map_values(|u: Unit| if u == Unit::Ph { Unit::F } else { u })
}

/// A word's units: transliterated with every inherent schwa, anusvara
/// assimilated, and फ read as /f/ unless the word is a native /pʰ/ word.
pub open spec fn units_spec(word: Seq<char>, canon: Canon) -> Result<Seq<Unit>, ErrorS> {
    match assimilate_spec(raw_units(spelled(word, canon)), canon, word) {
        Err(e) => Err(e),
        Ok(us) => Ok(
            if ph_is_native(word) {
                us
            } else {
                loan_ph(us)
            },
        ),
    }
}

/// The units of one Devanagari word, every inherent schwa written out.
pub fn units(word: &str, canon: Canon) -> (r: Result<Vec<Unit>, Error>)
    ensures
        crate::error::result_view(r, |v: Vec<Unit>| v@) == units_spec(word@, canon),
{
    let w = crate::text::chars_of(word);
    let e = expand_r_exec(&w);
    let text = if canon == Canon::Current {
        replace_jna_exec(&e)
    } else {
        e
    };
    let raw = raw_units_exec(&text);
    let mut us = match assimilate(&raw, canon, word) {
        Ok(us) => us,
        Err(e) => return Err(e),
    };
    let mut has_ph = false;
    let mut i: usize = 0;
    while i < us.len()
        invariant
            i <= us@.len(),
            has_ph <==> exists|j: int| 0 <= j < i && us@[j] == Unit::Ph,
        decreases us@.len() - i,
    {
        if us[i] == Unit::Ph {
            has_ph = true;
        }
        i += 1;
    }
    if has_ph && !ph_native(&w) {
        let ghost u0 = us@;
        let mut i: usize = 0;
        while i < us.len()
            invariant
                i <= us@.len(),
                us@.len() == u0.len(),
                forall|j: int| 0 <= j < i ==> us@[j] == loan_ph(u0)[j],
                forall|j: int| i <= j < us@.len() ==> us@[j] == u0[j],
            decreases us@.len() - i,
        {
            if us[i] == Unit::Ph {
                us.set(i, Unit::F);
            }
            i += 1;
        }
        proof {
            assert(us@ =~= loan_ph(u0));
        }
    } else {
        proof {
            if !ph_is_native(w@) {
                assert(us@ =~= loan_ph(us@));
            }
        }
    }
    Ok(us)
}

/// The number of schwa units.
pub open spec fn schwa_count(us: Seq<Unit>) -> nat
    decreases us.len(),
{
    if us.len() == 0 {
        0
    } else {
        schwa_count(us.drop_last()) + (if us.last() == Unit::A {
            1nat
        } else {
            0nat
        })
    }
}

/// How many schwa decisions a word's units call for.
pub fn schwas(us: &[Unit]) -> (r: usize)
    ensures
        r == schwa_count(us@),
{
    let mut n: usize = 0;
    let mut i: usize = 0;
    while i < us.len()
        invariant
            i <= us.len(),
            n == schwa_count(us@.subrange(0, i as int)),
            n <= i,
        decreases us.len() - i,
    {
        proof {
            assert(us@.subrange(0, i + 1).drop_last() =~= us@.subrange(0, i as int));
        }
        if us[i] == Unit::A {
            n += 1;
        }
        i += 1;
    }
    proof {
        assert(us@.subrange(0, us@.len() as int) =~= us@);
    }
    n
}


// ---------------------------------------------------------------------------
// Undoing impossible deletions
// ---------------------------------------------------------------------------

/// A consonant run of the stream after deletion, with the deleted schwa
/// sites inside it as (schwa index, offset within the run).
pub struct RunS {
    pub run: Seq<Unit>,
    pub sites: Seq<(int, int)>,
}

/// Runs closed so far, the open run and its sites, and how many schwas have
/// been passed.
pub struct RunScan {
    pub done: Seq<RunS>,
    pub run: Seq<Unit>,
    pub sites: Seq<(int, int)>,
    pub schwa: int,
}

pub open spec fn close_run(s: RunScan) -> RunScan {
    RunScan {
        done: s.done.push(RunS { run: s.run, sites: s.sites }),
        run: Seq::empty(),
        sites: Seq::empty(),
        schwa: s.schwa,
    }
}

/// One more unit: a deleted schwa is a site in the open run; a vowel or the
/// nasal mark closes the run; a consonant joins it.
pub open spec fn run_step(s: RunScan, u: Unit, retained: Seq<bool>) -> RunScan {
    if u == Unit::A && !retained[s.schwa] {
        RunScan { sites: s.sites.push((s.schwa, s.run.len() as int)), schwa: s.schwa + 1, ..s }
    } else {
        let s1 = if u == Unit::A {
            RunScan { schwa: s.schwa + 1, ..s }
        } else {
            s
        };
        if is_vowel_unit(u) || u == Unit::Nasal {
            close_run(s1)
        } else {
            RunScan { run: s1.run.push(u), ..s1 }
        }
    }
}

pub open spec fn run_scan(units: Seq<Unit>, retained: Seq<bool>, n: int) -> RunScan
    decreases n,
{
    if n <= 0 {
        RunScan { done: Seq::empty(), run: Seq::empty(), sites: Seq::empty(), schwa: 0 }
    } else {
        run_step(run_scan(units, retained, n - 1), units[n - 1], retained)
    }
}

/// The consonant runs of the stream after deletion, in order.
pub open spec fn runs_of(units: Seq<Unit>, retained: Seq<bool>) -> Seq<RunS> {
    close_run(run_scan(units, retained, units.len() as int)).done
}

pub open spec fn is_stop(u: Unit) -> bool {
    match u {
        Unit::K | Unit::Kh | Unit::G | Unit::Gh | Unit::C | Unit::Ch | Unit::J | Unit::Jh
        | Unit::Tt | Unit::Tth | Unit::Dd | Unit::Ddh | Unit::T | Unit::Th | Unit::D | Unit::Dh
        | Unit::P | Unit::Ph | Unit::B | Unit::Bh | Unit::Q => true,
        _ => false,
    }
}

pub open spec fn is_glide(u: Unit) -> bool {
    match u {
        Unit::R | Unit::Y | Unit::L | Unit::V => true,
        _ => false,
    }
}

/// A legal syllable onset: a single consonant, consonant + `r`/`y`/`l`/`v`,
/// `s` + stop, or `s` + stop + `r`/`y`/`l`/`v`.
pub open spec fn legal_onset(o: Seq<Unit>) -> bool {
    ||| o.len() <= 1
    ||| o.len() == 2 && is_glide(o[1])
    ||| o.len() == 2 && o[0] == Unit::S && is_stop(o[1])
    ||| o.len() == 3 && o[0] == Unit::S && is_stop(o[1]) && is_glide(o[2])
}

/// A run a Hindi syllable structure can carry: fewer than three consonants,
/// or a coda of at most one consonant before a legal onset.
pub open spec fn legal_run(run: Seq<Unit>) -> bool {
    run.len() < 3 || legal_onset(run) || legal_onset(run.subrange(1, run.len() as int))
}

/// Restoring a schwa at `off` splits `run` into two legal halves.
pub open spec fn splits(run: Seq<Unit>, off: int) -> bool {
    legal_run(run.subrange(0, off)) && legal_run(run.subrange(off, run.len() as int))
}

/// The first illegal run at or after `k` that holds a deleted schwa.
pub open spec fn first_offender(rs: Seq<RunS>, k: int) -> Option<int>
    decreases rs.len() - k,
{
    if k < 0 || k >= rs.len() {
        None
    } else if !legal_run(rs[k].run) && rs[k].sites.len() > 0 {
        Some(k)
    } else {
        first_offender(rs, k + 1)
    }
}

/// The first site at or after `j` whose restoration splits the run legally.
pub open spec fn first_split(run: Seq<Unit>, sites: Seq<(int, int)>, j: int) -> Option<int>
    decreases sites.len() - j,
{
    if j < 0 || j >= sites.len() {
        None
    } else if splits(run, sites[j].1) {
        Some(j)
    } else {
        first_split(run, sites, j + 1)
    }
}

/// The schwa to restore in an offending run: the first that splits it into
/// two legal halves, or else its first deleted schwa.
pub open spec fn chosen_site(run: Seq<Unit>, sites: Seq<(int, int)>) -> int {
    match first_split(run, sites, 0) {
        Some(j) => sites[j].0,
        None => sites[0].0,
    }
}

/// The schwa the next restoration brings back, if any run needs one.
pub open spec fn restore_site(units: Seq<Unit>, retained: Seq<bool>) -> Option<int> {
    let rs = runs_of(units, retained);
    match first_offender(rs, 0) {
        Some(k) => Some(chosen_site(rs[k].run, rs[k].sites)),
        None => None,
    }
}

pub open spec fn count_false(r: Seq<bool>) -> nat
    decreases r.len(),
{
    if r.len() == 0 {
        0
    } else {
        count_false(r.drop_last()) + (if !r.last() {
            1nat
        } else {
            0nat
        })
    }
}

proof fn lemma_count_false_update(r: Seq<bool>, i: int)
    requires
        0 <= i < r.len(),
        !r[i],
    ensures
        count_false(r.update(i, true)) < count_false(r),
    decreases r.len(),
{
    let u = r.update(i, true);
    if i == r.len() - 1 {
        assert(u.drop_last() =~= r.drop_last());
    } else {
        lemma_count_false_update(r.drop_last(), i);
        assert(u.drop_last() =~= r.drop_last().update(i, true));
    }
}

#[via_fn]
proof fn restored_decreases(units: Seq<Unit>, retained: Seq<bool>) {
    match restore_site(units, retained) {
        Some(s) => {
            if 0 <= s < retained.len() && !retained[s] {
                lemma_count_false_update(retained, s);
            }
        },
        None => {},
    }
}

/// The decisions after undoing, one at a time, every deletion that leaves
/// an unpronounceable consonant run; runs that come purely from conjuncts
/// (no deleted schwa inside) are never touched.
pub open spec fn restored(units: Seq<Unit>, retained: Seq<bool>) -> Seq<bool>
    decreases count_false(retained),
    via restored_decreases
{
    match restore_site(units, retained) {
        Some(s) => if 0 <= s < retained.len() && !retained[s] {
            restored(units, retained.update(s, true))
        } else {
            retained
        },
        None => retained,
    }
}

pub open spec fn run_view(r: (Vec<Unit>, Vec<(usize, usize)>)) -> RunS {
    RunS { run: r.0@, sites: r.1@.map_values(|p: (usize, usize)| (p.0 as int, p.1 as int)) }
}

pub open spec fn run_views(v: Seq<(Vec<Unit>, Vec<(usize, usize)>)>) -> Seq<RunS> {
    v.map_values(|r: (Vec<Unit>, Vec<(usize, usize)>)| run_view(r))
}

/// Every site is a deleted schwa, at an offset inside its run.
pub open spec fn sites_ok(rs: Seq<RunS>, retained: Seq<bool>) -> bool {
    forall|k: int, j: int|
        0 <= k < rs.len() && 0 <= j < rs[k].sites.len() ==> {
            let site = #[trigger] rs[k].sites[j];
            &&& 0 <= site.0 < retained.len()
            &&& !retained[site.0]
            &&& 0 <= site.1 <= rs[k].run.len()
        }
}

proof fn lemma_schwa_count_prefix(us: Seq<Unit>, i: int, j: int)
    requires
        0 <= i <= j <= us.len(),
    ensures
        schwa_count(us.subrange(0, i)) <= schwa_count(us.subrange(0, j)),
    decreases j - i,
{
    if i < j {
        lemma_schwa_count_prefix(us, i, j - 1);
        assert(us.subrange(0, j).drop_last() =~= us.subrange(0, j - 1));
    }
}

fn scan_runs(units: &[Unit], retained: &Vec<bool>) -> (r: Vec<(Vec<Unit>, Vec<(usize, usize)>)>)
    requires
        retained@.len() == schwa_count(units@),
    ensures
        run_views(r@) == runs_of(units@, retained@),
        sites_ok(run_views(r@), retained@),
{
    let mut done: Vec<(Vec<Unit>, Vec<(usize, usize)>)> = Vec::new();
    let mut run: Vec<Unit> = Vec::new();
    let mut sites: Vec<(usize, usize)> = Vec::new();
    let mut schwa: usize = 0;
    let mut i: usize = 0;
    let nret = retained.len();
    proof {
        assert(units@.subrange(0, 0) =~= Seq::<Unit>::empty());
        assert(run_views(done@) =~= Seq::<RunS>::empty());
    }
    while i < units.len()
        invariant
            i <= units.len(),
            retained@.len() == schwa_count(units@),
            nret == retained@.len(),
            schwa == schwa_count(units@.subrange(0, i as int)),
            ({
                let s = run_scan(units@, retained@, i as int);
                &&& s.done == run_views(done@)
                &&& s.run == run@
                &&& s.sites == run_view((run, sites)).sites
                &&& s.schwa == schwa
            }),
            sites_ok(run_views(done@), retained@),
            forall|j: int|
                0 <= j < sites@.len() ==> {
                    let site = #[trigger] sites@[j];
                    &&& site.0 < retained@.len()
                    &&& !retained@[site.0 as int]
                    &&& site.1 <= run@.len()
                },
        decreases units.len() - i,
    {
        let u = units[i];
        proof {
            assert(units@.subrange(0, i + 1).drop_last() =~= units@.subrange(0, i as int));
            lemma_schwa_count_prefix(units@, i + 1, units@.len() as int);
            assert(units@.subrange(0, units@.len() as int) =~= units@);
        }
        let ghost s0 = run_scan(units@, retained@, i as int);
        if u == Unit::A && !retained[schwa] {
            let ghost sv = sites@;
            sites.push((schwa, run.len()));
            schwa += 1;
            proof {
                assert(run_view((run, sites)).sites =~= s0.sites.push((s0.schwa, s0.run.len() as int)));
            }
        } else {
            if u == Unit::A {
                schwa += 1;
            }
            if vowel_unit(u) || u == Unit::Nasal {
                let ghost dv = run_views(done@);
                let closed = (run, sites);
                run = Vec::new();
                sites = Vec::new();
                done.push(closed);
                proof {
                    assert(run_views(done@) =~= dv.push(run_view(closed)));
                    assert(run_view((run, sites)).sites =~= Seq::<(int, int)>::empty());
                    assert forall|k: int, j: int|
                        0 <= k < run_views(done@).len() && 0 <= j < run_views(done@)[k].sites.len() implies {
                            let site = #[trigger] run_views(done@)[k].sites[j];
                            &&& 0 <= site.0 < retained@.len()
                            &&& !retained@[site.0]
                            &&& 0 <= site.1 <= run_views(done@)[k].run.len()
                        } by {
                        if k == dv.len() {
                            assert(run_views(done@)[k] == run_view(closed));
                        }
                    }
                }
            } else {
                run.push(u);
            }
        }
        i += 1;
    }
    let ghost dv = run_views(done@);
    let closed = (run, sites);
    done.push(closed);
    proof {
        assert(units@.subrange(0, units@.len() as int) =~= units@);
        assert(run_views(done@) =~= dv.push(run_view(closed)));
        assert forall|k: int, j: int|
            0 <= k < run_views(done@).len() && 0 <= j < run_views(done@)[k].sites.len() implies {
                let site = #[trigger] run_views(done@)[k].sites[j];
                &&& 0 <= site.0 < retained@.len()
                &&& !retained@[site.0]
                &&& 0 <= site.1 <= run_views(done@)[k].run.len()
            } by {
            if k == dv.len() {
                assert(run_views(done@)[k] == run_view(closed));
            }
        }
    }
    done
}


fn stop(u: Unit) -> (r: bool)
    ensures
        r == is_stop(u),
{
    match u {
        Unit::K | Unit::Kh | Unit::G | Unit::Gh | Unit::C | Unit::Ch | Unit::J | Unit::Jh
        | Unit::Tt | Unit::Tth | Unit::Dd | Unit::Ddh | Unit::T | Unit::Th | Unit::D | Unit::Dh
        | Unit::P | Unit::Ph | Unit::B | Unit::Bh | Unit::Q => true,
        _ => false,
    }
}

fn glide(u: Unit) -> (r: bool)
    ensures
        r == is_glide(u),
{
    match u {
        Unit::R | Unit::Y | Unit::L | Unit::V => true,
        _ => false,
    }
}

fn legal_onset_range(run: &[Unit], a: usize, b: usize) -> (r: bool)
    requires
        a <= b <= run.len(),
    ensures
        r == legal_onset(run@.subrange(a as int, b as int)),
{
    let n = b - a;
    if n <= 1 {
        return true;
    }
    if n == 2 && glide(run[a + 1]) {
        return true;
    }
    if n == 2 && run[a] == Unit::S && stop(run[a + 1]) {
        return true;
    }
    n == 3 && run[a] == Unit::S && stop(run[a + 1]) && glide(run[a + 2])
}

fn legal_run_range(run: &[Unit], a: usize, b: usize) -> (r: bool)
    requires
        a <= b <= run.len(),
    ensures
        r == legal_run(run@.subrange(a as int, b as int)),
{
    if b - a < 3 {
        return true;
    }
    proof {
        let sub = run@.subrange(a as int, b as int);
        assert(sub.subrange(1, sub.len() as int) =~= run@.subrange(a + 1, b as int));
    }
    legal_onset_range(run, a, b) || legal_onset_range(run, a + 1, b)
}

proof fn lemma_first_offender(rs: Seq<RunS>, a: int, b: int)
    requires
        0 <= a <= b <= rs.len(),
        forall|m: int| a <= m < b ==> !(!legal_run(#[trigger] rs[m].run) && rs[m].sites.len() > 0),
    ensures
        first_offender(rs, a) == first_offender(rs, b),
    decreases b - a,
{
    if a < b {
        lemma_first_offender(rs, a + 1, b);
    }
}

proof fn lemma_first_split(run: Seq<Unit>, sites: Seq<(int, int)>, a: int, b: int)
    requires
        0 <= a <= b <= sites.len(),
        forall|m: int| a <= m < b ==> !splits(run, #[trigger] sites[m].1),
    ensures
        first_split(run, sites, a) == first_split(run, sites, b),
    decreases b - a,
{
    if a < b {
        lemma_first_split(run, sites, a + 1, b);
    }
}

proof fn lemma_first_offender_some(rs: Seq<RunS>, a: int)
    requires
        first_offender(rs, a) is Some,
    ensures
        ({
            let k = first_offender(rs, a)->0;
            &&& a <= k < rs.len()
            &&& 0 <= k
            &&& !legal_run(rs[k].run)
            &&& rs[k].sites.len() > 0
        }),
    decreases rs.len() - a,
{
    if a >= 0 && a < rs.len() && !(!legal_run(rs[a].run) && rs[a].sites.len() > 0) {
        lemma_first_offender_some(rs, a + 1);
    }
}

proof fn lemma_first_split_some(run: Seq<Unit>, sites: Seq<(int, int)>, a: int)
    requires
        first_split(run, sites, a) is Some,
    ensures
        a <= first_split(run, sites, a)->0 < sites.len(),
        0 <= first_split(run, sites, a)->0,
    decreases sites.len() - a,
{
    if a >= 0 && a < sites.len() && !splits(run, sites[a].1) {
        lemma_first_split_some(run, sites, a + 1);
    }
}

fn find_offender(rs: &Vec<(Vec<Unit>, Vec<(usize, usize)>)>) -> (r: Option<usize>)
    ensures
        match r {
            Some(k) => k < rs@.len() && first_offender(run_views(rs@), 0) == Some(k as int),
            None => first_offender(run_views(rs@), 0) is None,
        },
{
    let ghost rv = run_views(rs@);
    let mut k: usize = 0;
    while k < rs.len()
        invariant
            k <= rs@.len(),
            rv == run_views(rs@),
            forall|m: int| 0 <= m < k ==> !(!legal_run(#[trigger] rv[m].run) && rv[m].sites.len() > 0),
        decreases rs@.len() - k,
    {
        let run = &rs[k].0;
        let n = run.len();
        if !legal_run_range(run.as_slice(), 0, n) && rs[k].1.len() > 0 {
            proof {
                assert(run@.subrange(0, n as int) =~= run@);
                lemma_first_offender(rv, 0, k as int);
            }
            return Some(k);
        }
        proof {
            assert(run@.subrange(0, n as int) =~= run@);
        }
        k += 1;
    }
    proof {
        lemma_first_offender(rv, 0, k as int);
    }
    None
}

fn choose_site(run: &Vec<Unit>, sites: &Vec<(usize, usize)>) -> (r: usize)
    requires
        sites@.len() > 0,
        forall|j: int| 0 <= j < sites@.len() ==> (#[trigger] sites@[j]).1 <= run@.len(),
    ensures
        r as int == chosen_site(run@, run_view((*run, *sites)).sites),
{
    let ghost sv = run_view((*run, *sites)).sites;
    let mut j: usize = 0;
    while j < sites.len()
        invariant
            j <= sites@.len(),
            sites@.len() > 0,
            sv == run_view((*run, *sites)).sites,
            forall|m: int| 0 <= m < sites@.len() ==> (#[trigger] sites@[m]).1 <= run@.len(),
            forall|m: int| 0 <= m < j ==> !splits(run@, #[trigger] sv[m].1),
        decreases sites@.len() - j,
    {
        let off = sites[j].1;
        if legal_run_range(run.as_slice(), 0, off) && legal_run_range(run.as_slice(), off, run.len()) {
            proof {
                lemma_first_split(run@, sv, 0, j as int);
            }
            return sites[j].0;
        }
        j += 1;
    }
    proof {
        lemma_first_split(run@, sv, 0, j as int);
    }
    sites[0].0
}

/// Every site recorded in a run is a deleted schwa of the decisions.
pub open spec fn sites_deleted(sites: Seq<(int, int)>, retained: Seq<bool>) -> bool {
    forall|j: int|
        0 <= j < sites.len() ==> 0 <= (#[trigger] sites[j]).0 < retained.len() && !retained[sites[j].0]
}

proof fn lemma_run_scan_sites(units: Seq<Unit>, retained: Seq<bool>, n: int)
    requires
        0 <= n <= units.len(),
        retained.len() == schwa_count(units),
    ensures
        run_scan(units, retained, n).schwa == schwa_count(units.subrange(0, n)),
        sites_deleted(run_scan(units, retained, n).sites, retained),
        forall|k: int|
            0 <= k < run_scan(units, retained, n).done.len() ==> sites_deleted(
                (#[trigger] run_scan(units, retained, n).done[k]).sites,
                retained,
            ),
    decreases n,
{
    if n == 0 {
        assert(units.subrange(0, 0) =~= Seq::<Unit>::empty());
    } else {
        lemma_run_scan_sites(units, retained, n - 1);
        assert(units.subrange(0, n).drop_last() =~= units.subrange(0, n - 1));
        lemma_schwa_count_prefix(units, n, units.len() as int);
        assert(units.subrange(0, units.len() as int) =~= units);
        let s0 = run_scan(units, retained, n - 1);
        let s1 = run_scan(units, retained, n);
        assert forall|k: int| 0 <= k < s1.done.len() implies sites_deleted(
            (#[trigger] s1.done[k]).sites,
            retained,
        ) by {
            if k < s0.done.len() {
                assert(s1.done[k] == s0.done[k]);
            }
        }
    }
}

proof fn lemma_first_offender_none(rs: Seq<RunS>, a: int, k: int)
    requires
        0 <= a <= k < rs.len(),
        first_offender(rs, a) is None,
    ensures
        !(!legal_run(rs[k].run) && rs[k].sites.len() > 0),
    decreases k - a,
{
    if a < k {
        lemma_first_offender_none(rs, a + 1, k);
    }
}

proof fn lemma_restore_site_deleted(units: Seq<Unit>, retained: Seq<bool>)
    requires
        retained.len() == schwa_count(units),
        restore_site(units, retained) is Some,
    ensures
        0 <= restore_site(units, retained)->0 < retained.len(),
        !retained[restore_site(units, retained)->0],
{
    let rs = runs_of(units, retained);
    lemma_run_scan_sites(units, retained, units.len() as int);
    lemma_first_offender_some(rs, 0);
    let k = first_offender(rs, 0)->0;
    let s = run_scan(units, retained, units.len() as int);
    if k < s.done.len() {
        assert(rs[k] == s.done[k]);
        assert(sites_deleted(rs[k].sites, retained));
    } else {
        assert(rs[k].sites == s.sites);
    }
    let j = if first_split(rs[k].run, rs[k].sites, 0) is Some {
        lemma_first_split_some(rs[k].run, rs[k].sites, 0);
        first_split(rs[k].run, rs[k].sites, 0)->0
    } else {
        0
    };
    assert(rs[k].sites[j].0 == restore_site(units, retained)->0);
}

/// Restoration only brings schwas back, changes nothing where no run with a
/// deleted schwa inside it is illegal, and afterwards no such run is.
proof fn lemma_first_offender_all_legal(rs: Seq<RunS>, a: int)
    requires
        0 <= a,
        forall|k: int| 0 <= k < rs.len() && (#[trigger] rs[k]).sites.len() > 0 ==> legal_run(rs[k].run),
    ensures
        first_offender(rs, a) is None,
    decreases rs.len() - a,
{
    if a < rs.len() {
        lemma_first_offender_all_legal(rs, a + 1);
    }
}

pub proof fn law_restoration_leaves_no_illegal_run(units: Seq<Unit>, retained: Seq<bool>)
    requires
        retained.len() == schwa_count(units),
    ensures
        restored(units, retained).len() == retained.len(),
        forall|i: int| 0 <= i < retained.len() && retained[i] ==> #[trigger] restored(units, retained)[i],
        restore_site(units, restored(units, retained)) is None,
        restore_site(units, retained) is None ==> restored(units, retained) == retained,
        (forall|k: int|
            0 <= k < runs_of(units, retained).len() && (#[trigger] runs_of(units, retained)[k]).sites.len() > 0
                ==> legal_run(runs_of(units, retained)[k].run)) ==> restored(units, retained) == retained,
        forall|k: int|
            0 <= k < runs_of(units, restored(units, retained)).len() && (#[trigger] runs_of(
                units,
                restored(units, retained),
            )[k]).sites.len() > 0 ==> legal_run(runs_of(units, restored(units, retained))[k].run),
    decreases count_false(retained),
{
    if forall|k: int|
        0 <= k < runs_of(units, retained).len() && (#[trigger] runs_of(units, retained)[k]).sites.len() > 0
            ==> legal_run(runs_of(units, retained)[k].run) {
        lemma_first_offender_all_legal(runs_of(units, retained), 0);
    }
    match restore_site(units, retained) {
        Some(s) => {
            lemma_restore_site_deleted(units, retained);
            lemma_count_false_update(retained, s);
            let next = retained.update(s, true);
            law_restoration_leaves_no_illegal_run(units, next);
            assert(restored(units, retained) == restored(units, next));
            assert forall|i: int| 0 <= i < retained.len() && retained[i] implies #[trigger] restored(units, retained)[i] by {
                assert(next[i]);
            }
        },
        None => {
            let rs = runs_of(units, retained);
            assert(first_offender(rs, 0) is None);
            assert forall|k: int|
                0 <= k < rs.len() && (#[trigger] rs[k]).sites.len() > 0 implies legal_run(rs[k].run) by {
                lemma_first_offender_none(rs, 0, k);
            }
        },
    }
}

fn restore_illegal_deletions(units: &[Unit], retained: &mut Vec<bool>)
    requires
        old(retained)@.len() == schwa_count(units@),
    ensures
        final(retained)@ == restored(units@, old(retained)@),
{
    loop
        invariant
            retained@.len() == schwa_count(units@),
            restored(units@, retained@) == restored(units@, old(retained)@),
        decreases count_false(retained@),
    {
        let rs = scan_runs(units, retained);
        let ghost rv = run_views(rs@);
        match find_offender(&rs) {
            None => {
                proof {
                    assert(restore_site(units@, retained@) is None);
                }
                return;
            },
            Some(k) => {
                let run = &rs[k].0;
                let sites = &rs[k].1;
                proof {
                    lemma_first_offender_some(rv, 0);
                    assert(rv[k as int] == run_view(rs@[k as int]));
                    assert(rv[k as int].sites.len() == sites@.len());
                    assert forall|j: int| 0 <= j < sites@.len() implies (#[trigger] sites@[j]).1 <= run@.len() by {
                        assert(rv[k as int].sites[j] == (sites@[j].0 as int, sites@[j].1 as int));
                    }
                }
                let site = choose_site(run, sites);
                proof {
                    assert(restore_site(units@, retained@) == Some(site as int));
                    let j = if first_split(rv[k as int].run, rv[k as int].sites, 0) is Some {
                        lemma_first_split_some(rv[k as int].run, rv[k as int].sites, 0);
                        first_split(rv[k as int].run, rv[k as int].sites, 0)->0
                    } else {
                        0
                    };
                    assert(0 <= j < rv[k as int].sites.len());
                    assert(rv[k as int].sites[j].0 == site);
                    let st = rv[k as int].sites[j];
                    assert(0 <= st.0 < retained@.len() && !retained@[st.0]);
                    assert(0 <= site < retained@.len() && !retained@[site as int]);
                    lemma_count_false_update(retained@, site as int);
                }
                retained.set(site, true);
            },
        }
    }
}


proof fn lemma_restored_len(units: Seq<Unit>, retained: Seq<bool>)
    ensures
        restored(units, retained).len() == retained.len(),
    decreases count_false(retained),
{
    match restore_site(units, retained) {
        Some(s) => {
            if 0 <= s < retained.len() && !retained[s] {
                lemma_count_false_update(retained, s);
                lemma_restored_len(units, retained.update(s, true));
            }
        },
        None => {},
    }
}

// ---------------------------------------------------------------------------
// Units to IPA
// ---------------------------------------------------------------------------

/// A token that starts with a vowel letter.
pub open spec fn is_vowel_token(t: Seq<char>) -> bool {
    t.len() > 0 && {
        let c = t[0];
        c == '\u{259}' || c == '\u{26a}' || c == 'i' || c == '\u{28a}' || c == 'u' || c == 'e'
            || c == '\u{25b}' || c == 'a' || c == 'o' || c == '\u{254}'
    }
}

fn vowel_token(t: &[char]) -> (r: bool)
    ensures
        r == is_vowel_token(t@),
{
    if t.len() == 0 {
        return false;
    }
    let c = t[0];
    c == '\u{259}' || c == '\u{26a}' || c == 'i' || c == '\u{28a}' || c == 'u' || c == 'e' || c
        == '\u{25b}' || c == 'a' || c == 'o' || c == '\u{254}'
}

/// Whether `c` occurs in `t`.
pub(crate) fn has_char_pub(t: &[char], c: char) -> (r: bool)
    ensures
        r == t@.contains(c),
{
    has_char(t, c)
}

fn has_char(t: &[char], c: char) -> (r: bool)
    ensures
        r == t@.contains(c),
{
    let mut i: usize = 0;
    while i < t.len()
        invariant
            i <= t.len(),
            forall|j: int| 0 <= j < i ==> t@[j] != c,
        decreases t.len() - i,
    {
        if t[i] == c {
            return true;
        }
        i += 1;
    }
    false
}

/// Phones so far and how many schwas have been passed.
pub struct PhoneScan {
    pub phones: Seq<Seq<char>>,
    pub schwa: int,
}

/// One more unit: a deleted schwa vanishes; the nasal mark nasalizes a
/// preceding vowel that is not nasal yet (after a consonant, or doubled, it
/// carries no contrast and is dropped); any other unit is its IPA.
/// Every unit but the nasal mark has a phone, so labeling drops no unit
/// except deleted schwas and the nasal mark, which nasalizes the vowel
/// before it.
pub proof fn law_every_unit_has_a_phone(u: Unit)
    ensures
        u != Unit::Nasal ==> unit_ipa(u) is Some,
{
}

pub open spec fn phone_step(s: PhoneScan, u: Unit, kept: Seq<bool>) -> PhoneScan {
    if u == Unit::A && !kept[s.schwa] {
        PhoneScan { schwa: s.schwa + 1, ..s }
    } else {
        let s1 = if u == Unit::A {
            PhoneScan { schwa: s.schwa + 1, ..s }
        } else {
            s
        };
        if u == Unit::Nasal {
            if s1.phones.len() > 0 && is_vowel_token(s1.phones.last()) && !s1.phones.last().contains(
                '\u{303}',
            ) {
                PhoneScan {
                    phones: s1.phones.drop_last().push(s1.phones.last().push('\u{303}')),
                    ..s1
                }
            } else {
                s1
            }
        } else {
            match unit_ipa(u) {
                Some(t) => PhoneScan { phones: s1.phones.push(t), ..s1 },
                None => s1,
            }
        }
    }
}

pub open spec fn phone_scan(units: Seq<Unit>, kept: Seq<bool>, n: int) -> PhoneScan
    decreases n,
{
    if n <= 0 {
        PhoneScan { phones: Seq::empty(), schwa: 0 }
    } else {
        phone_step(phone_scan(units, kept, n - 1), units[n - 1], kept)
    }
}

/// The IPA of a word's units under the schwa decisions `kept`.
pub open spec fn phones_of(units: Seq<Unit>, kept: Seq<bool>) -> Seq<Seq<char>> {
    phone_scan(units, kept, units.len() as int).phones
}

fn phones_exec(units: &[Unit], kept: &Vec<bool>) -> (r: Vec<Vec<char>>)
    requires
        kept@.len() == schwa_count(units@),
    ensures
        crate::parse::views(r@) == phones_of(units@, kept@),
{
    let mut phones: Vec<Vec<char>> = Vec::new();
    let mut schwa: usize = 0;
    let nk = kept.len();
    let mut i: usize = 0;
    proof {
        assert(crate::parse::views(phones@) =~= Seq::<Seq<char>>::empty());
        assert(units@.subrange(0, 0) =~= Seq::<Unit>::empty());
    }
    while i < units.len()
        invariant
            i <= units.len(),
            nk == kept@.len(),
            kept@.len() == schwa_count(units@),
            schwa == schwa_count(units@.subrange(0, i as int)),
            phone_scan(units@, kept@, i as int) == (PhoneScan {
                phones: crate::parse::views(phones@),
                schwa: schwa as int,
            }),
        decreases units.len() - i,
    {
        let u = units[i];
        proof {
            assert(units@.subrange(0, i + 1).drop_last() =~= units@.subrange(0, i as int));
            lemma_schwa_count_prefix(units@, i + 1, units@.len() as int);
            assert(units@.subrange(0, units@.len() as int) =~= units@);
        }
        let ghost p0 = crate::parse::views(phones@);
        if u == Unit::A && !kept[schwa] {
            schwa += 1;
        } else {
            if u == Unit::A {
                schwa += 1;
            }
            if u == Unit::Nasal {
                let n = phones.len();
                if n > 0 {
                    let nasalize = vowel_token(&phones[n - 1]) && !has_char(&phones[n - 1], '\u{303}');
                    if nasalize {
                        let mut last = phones.pop().unwrap();
                        last.push('\u{303}');
                        phones.push(last);
                        proof {
                            assert(crate::parse::views(phones@) =~= p0.drop_last().push(p0.last().push('\u{303}')));
                        }
                    }
                }
            } else {
                match ipa_of(u) {
                    Some(t) => {
                        phones.push(t);
                        proof {
                            assert(crate::parse::views(phones@) =~= p0.push(t@));
                        }
                    },
                    None => {},
                }
            }
        }
        i += 1;
    }
    proof {
        assert(units@.subrange(0, units@.len() as int) =~= units@);
    }
    phones
}

// ---------------------------------------------------------------------------
// Current-canon corrections
// ---------------------------------------------------------------------------

pub open spec fn is_h_token(t: Seq<char>) -> bool {
    t == seq!['\u{266}']
}

pub open spec fn is_schwa_token(t: Seq<char>) -> bool {
    t == seq!['\u{259}'] || t == seq!['\u{259}', '\u{303}']
}

pub open spec fn starts_open_e(t: Seq<char>) -> bool {
    t.len() >= 2 && t[0] == '\u{25b}' && t[1] == '\u{2d0}'
}

/// `/ə/` at `i` surfaces as `[ɛː]` when the `ɦ` after it closes the
/// syllable (nothing, a consonant, or another schwa follows), or when it
/// follows an `ɦ` that follows a raised vowel.
pub open spec fn raise_at(t: Seq<Seq<char>>, i: int) -> Seq<Seq<char>> {
    let n = t.len();
    if !is_schwa_token(t[i]) {
        t
    } else {
        let before_closing_h = i + 1 < n && is_h_token(t[i + 1]) && (i + 2 >= n || !is_vowel_token(
            t[i + 2],
        ) || is_schwa_token(t[i + 2]));
        let after_h_between_schwas = i >= 2 && is_h_token(t[i - 1]) && starts_open_e(t[i - 2]);
        if before_closing_h || after_h_between_schwas {
            t.update(
                i,
                if t[i].contains('\u{303}') {
                    seq!['\u{25b}', '\u{2d0}', '\u{303}']
                } else {
                    seq!['\u{25b}', '\u{2d0}']
                },
            )
        } else {
            t
        }
    }
}

/// Positions `0..n` raised in turn, each seeing the earlier ones' results.
pub open spec fn raise_prefix(t: Seq<Seq<char>>, n: int) -> Seq<Seq<char>>
    decreases n,
{
    if n <= 0 {
        t
    } else {
        raise_at(raise_prefix(t, n - 1), n - 1)
    }
}

pub open spec fn raised(t: Seq<Seq<char>>) -> Seq<Seq<char>> {
    raise_prefix(t, t.len() as int)
}

proof fn lemma_raise_prefix_len(t: Seq<Seq<char>>, n: int)
    requires
        n <= t.len(),
    ensures
        raise_prefix(t, n).len() == t.len(),
    decreases n,
{
    if n > 0 {
        lemma_raise_prefix_len(t, n - 1);
    }
}

fn is_chars(t: &[char], want: &[char]) -> (r: bool)
    ensures
        r == (t@ == want@),
{
    crate::parse::chars_eq(t, want)
}

fn schwa_token(t: &[char]) -> (r: bool)
    ensures
        r == is_schwa_token(t@),
{
    let a = vec!['\u{259}'];
    let b = vec!['\u{259}', '\u{303}'];
    assert(a@ == seq!['\u{259}']);
    assert(b@ == seq!['\u{259}', '\u{303}']);
    let x = is_chars(t, &a);
    assert(x == (t@ == seq!['\u{259}']));
    x || is_chars(t, &b)
}

fn h_token(t: &[char]) -> (r: bool)
    ensures
        r == is_h_token(t@),
{
    let a = vec!['\u{266}'];
    assert(a@ == seq!['\u{266}']);
    is_chars(t, &a)
}

fn raise_schwa_beside_h(tokens: &mut Vec<Vec<char>>)
    ensures
        crate::parse::views(final(tokens)@) == raised(crate::parse::views(old(tokens)@)),
{
    let ghost t0 = crate::parse::views(tokens@);
    let n = tokens.len();
    let mut i: usize = 0;
    while i < n
        invariant
            i <= n,
            n == tokens@.len(),
            t0.len() == n,
            crate::parse::views(tokens@) == raise_prefix(t0, i as int),
        decreases n - i,
    {
        proof {
            lemma_raise_prefix_len(t0, i as int);
        }
        let ghost cur = crate::parse::views(tokens@);
        if schwa_token(&tokens[i]) {
            let before_closing_h = i + 1 < n && h_token(&tokens[i + 1]) && (i + 2 >= n
                || !vowel_token(&tokens[i + 2]) || schwa_token(&tokens[i + 2]));
            let after_h_between_schwas = i >= 2 && h_token(&tokens[i - 1]) && tokens[i - 2].len()
                >= 2 && tokens[i - 2][0] == '\u{25b}' && tokens[i - 2][1] == '\u{2d0}';
            if before_closing_h || after_h_between_schwas {
                let nasal = has_char(&tokens[i], '\u{303}');
                let new = if nasal {
                    vec!['\u{25b}', '\u{2d0}', '\u{303}']
                } else {
                    vec!['\u{25b}', '\u{2d0}']
                };
                tokens.set(i, new);
                proof {
                    assert(crate::parse::views(tokens@) =~= raise_at(cur, i as int));
                }
            } else {
                proof {
                    assert(crate::parse::views(tokens@) =~= raise_at(cur, i as int));
                }
            }
        }
        i += 1;
    }
}

/// Word-final short `/ɪ/` and `/ʊ/` (nasal or not) surface long.
pub open spec fn neutralized(t: Seq<Seq<char>>) -> Seq<Seq<char>> {
    if t.len() == 0 {
        t
    } else {
        let l = t.last();
        let nl = if l == seq!['\u{26a}'] {
            seq!['i', '\u{2d0}']
        } else if l == seq!['\u{28a}'] {
            seq!['u', '\u{2d0}']
        } else if l == seq!['\u{26a}', '\u{303}'] {
            seq!['i', '\u{2d0}', '\u{303}']
        } else if l == seq!['\u{28a}', '\u{303}'] {
            seq!['u', '\u{2d0}', '\u{303}']
        } else {
            l
        };
        t.update(t.len() - 1, nl)
    }
}

fn neutralize_final_high_vowels(tokens: &mut Vec<Vec<char>>)
    ensures
        crate::parse::views(final(tokens)@) == neutralized(crate::parse::views(old(tokens)@)),
{
    let ghost t0 = crate::parse::views(tokens@);
    let n = tokens.len();
    if n == 0 {
        return;
    }
    let a = vec!['\u{26a}'];
    let b = vec!['\u{28a}'];
    let c = vec!['\u{26a}', '\u{303}'];
    let d = vec!['\u{28a}', '\u{303}'];
    assert(a@ == seq!['\u{26a}']);
    assert(b@ == seq!['\u{28a}']);
    assert(c@ == seq!['\u{26a}', '\u{303}']);
    assert(d@ == seq!['\u{28a}', '\u{303}']);
    if is_chars(&tokens[n - 1], &a) {
        let v = vec!['i', '\u{2d0}'];
        assert(v@ == seq!['i', '\u{2d0}']);
        tokens.set(n - 1, v);
    } else if is_chars(&tokens[n - 1], &b) {
        let v = vec!['u', '\u{2d0}'];
        assert(v@ == seq!['u', '\u{2d0}']);
        tokens.set(n - 1, v);
    } else if is_chars(&tokens[n - 1], &c) {
        let v = vec!['i', '\u{2d0}', '\u{303}'];
        assert(v@ == seq!['i', '\u{2d0}', '\u{303}']);
        tokens.set(n - 1, v);
    } else if is_chars(&tokens[n - 1], &d) {
        let v = vec!['u', '\u{2d0}', '\u{303}'];
        assert(v@ == seq!['u', '\u{2d0}', '\u{303}']);
        tokens.set(n - 1, v);
    }
    proof {
        assert(crate::parse::views(tokens@) =~= neutralized(t0));
    }
}

/// The two pronouns whose spelling and sound have parted ways entirely:
/// यह `[jeː]` and वह `[ʋoː]`.
pub open spec fn special_word(w: Seq<char>) -> Option<Seq<Seq<char>>> {
    if w == seq!['\u{92f}', '\u{939}'] {
        Some(seq![seq!['j'], seq!['e', '\u{2d0}']])
    } else if w == seq!['\u{935}', '\u{939}'] {
        Some(seq![seq!['\u{28b}'], seq!['o', '\u{2d0}']])
    } else {
        None
    }
}

fn special(w: &[char]) -> (r: Option<Vec<Vec<char>>>)
    ensures
        match r {
            Some(v) => special_word(w@) == Some(crate::parse::views(v@)),
            None => special_word(w@) is None,
        },
{
    let yah = vec!['\u{92f}', '\u{939}'];
    let vah = vec!['\u{935}', '\u{939}'];
    assert(yah@ == seq!['\u{92f}', '\u{939}']);
    assert(vah@ == seq!['\u{935}', '\u{939}']);
    if is_chars(w, &yah) {
        let v0 = vec!['j'];
        let v1 = vec!['e', '\u{2d0}'];
        assert(v0@ == seq!['j']);
        assert(v1@ == seq!['e', '\u{2d0}']);
        let v = vec![v0, v1];
        assert(v@ == seq![v0, v1]);
        proof {
            assert(crate::parse::views(v@) =~= seq![seq!['j'], seq!['e', '\u{2d0}']]);
        }
        Some(v)
    } else if is_chars(w, &vah) {
        let v0 = vec!['\u{28b}'];
        let v1 = vec!['o', '\u{2d0}'];
        assert(v0@ == seq!['\u{28b}']);
        assert(v1@ == seq!['o', '\u{2d0}']);
        let v = vec![v0, v1];
        assert(v@ == seq![v0, v1]);
        proof {
            assert(crate::parse::views(v@) =~= seq![seq!['\u{28b}'], seq!['o', '\u{2d0}']]);
        }
        Some(v)
    } else {
        None
    }
}


// ---------------------------------------------------------------------------
// Stress (Roy's surface syllable-weight rules)
// ---------------------------------------------------------------------------

/// A token with its nasalization marks removed.
pub open spec fn oral(t: Seq<char>) -> Seq<char>
    decreases t.len(),
{
    if t.len() == 0 {
        t
    } else if t.last() == '\u{303}' {
        oral(t.drop_last())
    } else {
        oral(t.drop_last()).push(t.last())
    }
}

/// The chain's vowels.
pub open spec fn is_hindi_vowel(o: Seq<char>) -> bool {
    ||| o == seq!['\u{259}'] || o == seq!['\u{26a}'] || o == seq!['i', '\u{2d0}']
    ||| o == seq!['\u{28a}'] || o == seq!['u', '\u{2d0}'] || o == seq!['e', '\u{2d0}']
    ||| o == seq!['\u{25b}', '\u{2d0}'] || o == seq!['o', '\u{2d0}'] || o == seq!['\u{254}', '\u{2d0}']
    ||| o == seq!['a', '\u{2d0}']
}

/// A syllable nucleus: a vowel, nasal or not.
pub open spec fn is_nucleus(t: Seq<char>) -> bool {
    is_hindi_vowel(oral(t))
}

/// The positions of the nuclei among the first `n` phones, in order.
pub open spec fn nuclei_prefix(ph: Seq<Seq<char>>, n: int) -> Seq<int>
    decreases n,
{
    if n <= 0 {
        Seq::empty()
    } else if is_nucleus(ph[n - 1]) {
        nuclei_prefix(ph, n - 1).push(n - 1)
    } else {
        nuclei_prefix(ph, n - 1)
    }
}

pub open spec fn nuclei(ph: Seq<Seq<char>>) -> Seq<int> {
    nuclei_prefix(ph, ph.len() as int)
}

pub open spec fn is_glide_token(t: Seq<char>) -> bool {
    t == seq!['j'] || t == seq!['\u{27e}'] || t == seq!['l'] || t == seq!['\u{28b}']
}

/// How much of the consonant cluster between nuclei `l` and `r` is the
/// onset of `r`'s syllable: all of it when it has at most one consonant, two
/// when it is a consonant and a glide, else all but the first.
pub open spec fn onset_len(ph: Seq<Seq<char>>, l: int, r: int) -> int {
    let c = r - l - 1;
    if c <= 1 {
        c
    } else if c == 2 && is_glide_token(ph[r - 1]) {
        2
    } else {
        c - 1
    }
}

pub open spec fn syl_start(ph: Seq<Seq<char>>, nu: Seq<int>, k: int) -> int {
    if k == 0 {
        0
    } else {
        nu[k] - onset_len(ph, nu[k - 1], nu[k])
    }
}

pub open spec fn syl_end(ph: Seq<Seq<char>>, nu: Seq<int>, k: int) -> int {
    if k + 1 < nu.len() {
        syl_start(ph, nu, k + 1)
    } else {
        ph.len() as int
    }
}

/// Moras: two for a long vowel, one for a short one, plus one per coda
/// consonant.
pub open spec fn weight(ph: Seq<Seq<char>>, nu: Seq<int>, k: int) -> int {
    let end = syl_end(ph, nu, k);
    let coda = if end > nu[k] + 1 {
        end - nu[k] - 1
    } else {
        0
    };
    (if oral(ph[nu[k]]).contains('\u{2d0}') {
        2int
    } else {
        1int
    }) + coda
}

/// Superheavy syllables are stressed, heavy ones unless final, and a light
/// first syllable of a two-syllable word.
pub open spec fn is_stressed(ph: Seq<Seq<char>>, nu: Seq<int>, k: int) -> bool {
    let w = weight(ph, nu, k);
    w >= 3 || (w == 2 && k != nu.len() - 1) || (w == 1 && nu.len() == 2 && k == 0)
}

pub open spec fn syllable_at(ph: Seq<Seq<char>>, nu: Seq<int>, k: int) -> Syllable {
    Syllable {
        start: syl_start(ph, nu, k) as usize,
        end: syl_end(ph, nu, k) as usize,
        nucleus: nu[k] as usize,
        moras: (weight(ph, nu, k) % 256) as u8,
        stressed: is_stressed(ph, nu, k),
    }
}

/// One syllable per nucleus.
pub open spec fn syllables_spec(ph: Seq<Seq<char>>) -> Seq<Syllable> {
    let nu = nuclei(ph);
    Seq::new(nu.len(), |k: int| syllable_at(ph, nu, k))
}

pub open spec fn stress_upto(ph: Seq<Seq<char>>, nu: Seq<int>, k: int) -> Seq<Stress>
    decreases k,
{
    if k <= 0 {
        Seq::new(ph.len(), |i: int| Stress::Unstressed)
    } else if is_stressed(ph, nu, k - 1) {
        stress_upto(ph, nu, k - 1).update(nu[k - 1], Stress::Primary)
    } else {
        stress_upto(ph, nu, k - 1)
    }
}

/// Primary stress on the nucleus of every stressed syllable.
pub open spec fn stress_spec(ph: Seq<Seq<char>>) -> Seq<Stress> {
    stress_upto(ph, nuclei(ph), nuclei(ph).len() as int)
}

proof fn lemma_nuclei(ph: Seq<Seq<char>>, n: int)
    requires
        0 <= n <= ph.len(),
    ensures
        forall|a: int| 0 <= a < nuclei_prefix(ph, n).len() ==> 0 <= #[trigger] nuclei_prefix(ph, n)[a] < n,
        forall|a: int, b: int|
            0 <= a < b < nuclei_prefix(ph, n).len() ==> #[trigger] nuclei_prefix(ph, n)[a]
                < #[trigger] nuclei_prefix(ph, n)[b],
        nuclei_prefix(ph, n).len() <= n,
    decreases n,
{
    if n > 0 {
        lemma_nuclei(ph, n - 1);
    }
}

proof fn lemma_stress_len(ph: Seq<Seq<char>>, nu: Seq<int>, k: int)
    requires
        k <= nu.len(),
        forall|a: int| 0 <= a < nu.len() ==> 0 <= #[trigger] nu[a] < ph.len(),
    ensures
        stress_upto(ph, nu, k).len() == ph.len(),
    decreases k,
{
    if k > 0 {
        lemma_stress_len(ph, nu, k - 1);
    }
}

fn oral_exec(t: &[char]) -> (r: Vec<char>)
    ensures
        r@ == oral(t@),
{
    let mut r: Vec<char> = Vec::new();
    let mut i: usize = 0;
    while i < t.len()
        invariant
            i <= t.len(),
            r@ == oral(t@.subrange(0, i as int)),
        decreases t.len() - i,
    {
        proof {
            assert(t@.subrange(0, i + 1).drop_last() =~= t@.subrange(0, i as int));
        }
        if t[i] != '\u{303}' {
            r.push(t[i]);
        }
        i += 1;
    }
    proof {
        assert(t@.subrange(0, t@.len() as int) =~= t@);
    }
    r
}

fn nucleus(t: &[char]) -> (r: bool)
    ensures
        r == is_nucleus(t@),
{
    let o = oral_exec(t);
    let v0 = vec!['\u{259}'];
    let v1 = vec!['\u{26a}'];
    let v2 = vec!['i', '\u{2d0}'];
    let v3 = vec!['\u{28a}'];
    let v4 = vec!['u', '\u{2d0}'];
    let v5 = vec!['e', '\u{2d0}'];
    let v6 = vec!['\u{25b}', '\u{2d0}'];
    let v7 = vec!['o', '\u{2d0}'];
    let v8 = vec!['\u{254}', '\u{2d0}'];
    let v9 = vec!['a', '\u{2d0}'];
    assert(v0@ == seq!['\u{259}']);
    assert(v1@ == seq!['\u{26a}']);
    assert(v2@ == seq!['i', '\u{2d0}']);
    assert(v3@ == seq!['\u{28a}']);
    assert(v4@ == seq!['u', '\u{2d0}']);
    assert(v5@ == seq!['e', '\u{2d0}']);
    assert(v6@ == seq!['\u{25b}', '\u{2d0}']);
    assert(v7@ == seq!['o', '\u{2d0}']);
    assert(v8@ == seq!['\u{254}', '\u{2d0}']);
    assert(v9@ == seq!['a', '\u{2d0}']);
    is_chars(&o, &v0) || is_chars(&o, &v1) || is_chars(&o, &v2) || is_chars(&o, &v3) || is_chars(
        &o,
        &v4,
    ) || is_chars(&o, &v5) || is_chars(&o, &v6) || is_chars(&o, &v7) || is_chars(&o, &v8)
        || is_chars(&o, &v9)
}

fn glide_token(t: &[char]) -> (r: bool)
    ensures
        r == is_glide_token(t@),
{
    let a = vec!['j'];
    let b = vec!['\u{27e}'];
    let c = vec!['l'];
    let d = vec!['\u{28b}'];
    assert(a@ == seq!['j']);
    assert(b@ == seq!['\u{27e}']);
    assert(c@ == seq!['l']);
    assert(d@ == seq!['\u{28b}']);
    is_chars(t, &a) || is_chars(t, &b) || is_chars(t, &c) || is_chars(t, &d)
}

fn onset(ph: &Vec<Vec<char>>, l: usize, r: usize) -> (o: usize)
    requires
        l < r < ph@.len(),
    ensures
        o == onset_len(crate::parse::views(ph@), l as int, r as int),
        o <= r - l - 1,
{
    let c = r - l - 1;
    if c <= 1 {
        c
    } else if c == 2 && glide_token(&ph[r - 1]) {
        2
    } else {
        c - 1
    }
}

/// Stress and syllables of one word's phones.
fn assign_stress(phones: &Vec<Vec<char>>) -> (r: (Vec<Stress>, Vec<Syllable>))
    ensures
        r.0@ == stress_spec(crate::parse::views(phones@)),
        r.1@ == syllables_spec(crate::parse::views(phones@)),
{
    let ghost ph = crate::parse::views(phones@);
    let n = phones.len();
    let mut nu: Vec<usize> = Vec::new();
    let mut i: usize = 0;
    while i < n
        invariant
            i <= n,
            n == phones@.len(),
            ph == crate::parse::views(phones@),
            nu@.map_values(|x: usize| x as int) == nuclei_prefix(ph, i as int),
        decreases n - i,
    {
        let ghost nv = nu@.map_values(|x: usize| x as int);
        if nucleus(&phones[i]) {
            nu.push(i);
            proof {
                assert(nu@.map_values(|x: usize| x as int) =~= nv.push(i as int));
            }
        }
        i += 1;
    }
    let ghost nus = nuclei(ph);
    proof {
        lemma_nuclei(ph, n as int);
        assert(nu@.map_values(|x: usize| x as int) == nus);
        assert forall|a: int| 0 <= a < nu@.len() implies nu@[a] as int == #[trigger] nus[a] by {
            assert(nu@.map_values(|x: usize| x as int)[a] == nu@[a] as int);
        }
    }
    let mut stress: Vec<Stress> = Vec::new();
    let mut i: usize = 0;
    while i < n
        invariant
            i <= n,
            stress@ == Seq::new(i as nat, |j: int| Stress::Unstressed),
        decreases n - i,
    {
        stress.push(Stress::Unstressed);
        proof {
            assert(stress@ =~= Seq::new((i + 1) as nat, |j: int| Stress::Unstressed));
        }
        i += 1;
    }
    let mut syllables: Vec<Syllable> = Vec::new();
    let m = nu.len();
    let mut k: usize = 0;
    proof {
        assert(stress@ =~= stress_upto(ph, nus, 0));
        assert(syllables@ =~= Seq::new(0, |j: int| syllable_at(ph, nus, j)));
    }
    while k < m
        invariant
            k <= m,
            m == nu@.len(),
            m == nus.len(),
            n == phones@.len(),
            ph == crate::parse::views(phones@),
            nus == nuclei(ph),
            forall|a: int| 0 <= a < m ==> nu@[a] as int == #[trigger] nus[a],
            forall|a: int| 0 <= a < m ==> 0 <= #[trigger] nus[a] < n,
            forall|a: int, b: int| 0 <= a < b < m ==> #[trigger] nus[a] < #[trigger] nus[b],
            stress@ == stress_upto(ph, nus, k as int),
            syllables@ == Seq::new(k as nat, |j: int| syllable_at(ph, nus, j)),
        decreases m - k,
    {
        let nucleus_at = nu[k];
        proof {
            if k > 0 {
                assert(nus[k - 1] < nus[k as int]);
            }
            if k + 1 < m {
                assert(nus[k as int] < nus[k + 1]);
            }
        }
        let start = if k == 0 {
            0
        } else {
            nu[k] - onset(phones, nu[k - 1], nu[k])
        };
        let end = if k + 1 < m {
            nu[k + 1] - onset(phones, nu[k], nu[k + 1])
        } else {
            n
        };
        let coda = if end > nucleus_at + 1 {
            end - nucleus_at - 1
        } else {
            0
        };
        let o = oral_exec(&phones[nucleus_at]);
        let long = has_char(&o, '\u{2d0}');
        let last = k == m - 1;
        let superheavy = coda >= 2 || (long && coda >= 1);
        let heavy = (long && coda == 0) || (!long && coda == 1);
        let light = !long && coda == 0;
        let stressed = superheavy || (heavy && !last) || (light && m == 2 && k == 0);
        let moras: u8 = (((if long {
            2usize
        } else {
            1usize
        }) + coda % 256) % 256) as u8;
        proof {
            lemma_stress_len(ph, nus, k as int);
            assert(weight(ph, nus, k as int) == (if long { 2int } else { 1int }) + coda);
            assert(((if long { 2int } else { 1int }) + coda % 256) % 256 == ((if long { 2int } else { 1int }) + coda) % 256) by (nonlinear_arith);
        }
        if stressed {
            stress.set(nucleus_at, Stress::Primary);
        }
        let ghost sy0 = syllables@;
        syllables.push(Syllable { start, end, nucleus: nucleus_at, moras, stressed });
        proof {
            assert(syllables@ =~= Seq::new((k + 1) as nat, |j: int| syllable_at(ph, nus, j)));
        }
        k += 1;
    }
    proof {
        assert(syllables@ =~= syllables_spec(ph));
    }
    (stress, syllables)
}


proof fn lemma_onset_len(ph: Seq<Seq<char>>, l: int, r: int)
    requires
        l < r,
    ensures
        0 <= onset_len(ph, l, r) <= r - l - 1,
{
}

/// A word's syllables tile its phones: the first starts at the first phone,
/// each ends where the next starts, the last ends at the last phone, and
/// each holds its nucleus, a vowel.
pub proof fn law_syllables_tile(ph: Seq<Seq<char>>)
    requires
        ph.len() <= usize::MAX,
    ensures
        syllables_spec(ph).len() == nuclei(ph).len(),
        syllables_spec(ph).len() > 0 ==> syllables_spec(ph)[0].start == 0 && syllables_spec(
            ph,
        ).last().end == ph.len(),
        forall|k: int|
            0 <= k < syllables_spec(ph).len() - 1 ==> (#[trigger] syllables_spec(ph)[k]).end
                == syllables_spec(ph)[k + 1].start,
        forall|k: int|
            0 <= k < syllables_spec(ph).len() ==> {
                let sy = #[trigger] syllables_spec(ph)[k];
                &&& sy.start <= sy.nucleus < sy.end <= ph.len()
                &&& is_nucleus(ph[sy.nucleus as int])
            },
{
    let nu = nuclei(ph);
    lemma_nuclei(ph, ph.len() as int);
    assert forall|k: int| 0 < k < nu.len() implies nu[k - 1] < #[trigger] syl_start(ph, nu, k) <= nu[k] by {
        assert(nu[k - 1] < nu[k]);
        lemma_onset_len(ph, nu[k - 1], nu[k]);
    }
    assert forall|k: int| 0 <= k < nu.len() implies is_nucleus(ph[#[trigger] nu[k]]) by {
        lemma_nuclei_are_nuclei(ph, ph.len() as int, k);
    }
    let sy = syllables_spec(ph);
    assert forall|k: int| 0 <= k < sy.len() - 1 implies (#[trigger] sy[k]).end == sy[k + 1].start by {
        assert(nu[k] < syl_start(ph, nu, k + 1));
    }
    assert forall|k: int| 0 <= k < sy.len() implies {
        let y = #[trigger] sy[k];
        &&& y.start <= y.nucleus < y.end <= ph.len()
        &&& is_nucleus(ph[y.nucleus as int])
    } by {
        if k > 0 {
            assert(nu[k - 1] < syl_start(ph, nu, k) <= nu[k]);
        }
        if k + 1 < nu.len() {
            assert(nu[k] < syl_start(ph, nu, k + 1) <= nu[k + 1]);
        }
        assert(is_nucleus(ph[nu[k]]));
    }
}

proof fn lemma_nuclei_are_nuclei(ph: Seq<Seq<char>>, n: int, k: int)
    requires
        0 <= n <= ph.len(),
        0 <= k < nuclei_prefix(ph, n).len(),
    ensures
        is_nucleus(ph[nuclei_prefix(ph, n)[k]]),
    decreases n,
{
    if n > 0 {
        if is_nucleus(ph[n - 1]) && k == nuclei_prefix(ph, n - 1).len() {
        } else {
            lemma_nuclei_are_nuclei(ph, n - 1, k);
        }
    }
}

proof fn lemma_stress_upto(ph: Seq<Seq<char>>, nu: Seq<int>, k: int, i: int)
    requires
        0 <= k <= nu.len(),
        0 <= i < ph.len(),
        forall|a: int| 0 <= a < nu.len() ==> 0 <= #[trigger] nu[a] < ph.len(),
    ensures
        stress_upto(ph, nu, k)[i] == Stress::Primary <==> exists|j: int|
            0 <= j < k && nu[j] == i && #[trigger] is_stressed(ph, nu, j),
        stress_upto(ph, nu, k)[i] != Stress::Primary ==> stress_upto(ph, nu, k)[i]
            == Stress::Unstressed,
    decreases k,
{
    lemma_stress_len(ph, nu, k);
    if k > 0 {
        lemma_stress_upto(ph, nu, k - 1, i);
        lemma_stress_len(ph, nu, k - 1);
        if is_stressed(ph, nu, k - 1) && nu[k - 1] == i {
            assert(is_stressed(ph, nu, k - 1));
        }
        if stress_upto(ph, nu, k)[i] == Stress::Primary && !(stress_upto(ph, nu, k - 1)[i]
            == Stress::Primary) {
            assert(is_stressed(ph, nu, k - 1) && nu[k - 1] == i);
        }
    }
}

proof fn lemma_nuclei_complete(ph: Seq<Seq<char>>, n: int, i: int)
    requires
        0 <= i < n <= ph.len(),
        is_nucleus(ph[i]),
    ensures
        exists|k: int| 0 <= k < nuclei_prefix(ph, n).len() && #[trigger] nuclei_prefix(ph, n)[k] == i,
    decreases n,
{
    if i < n - 1 {
        lemma_nuclei_complete(ph, n - 1, i);
        let k = choose|k: int| 0 <= k < nuclei_prefix(ph, n - 1).len() && #[trigger] nuclei_prefix(ph, n - 1)[k] == i;
        assert(nuclei_prefix(ph, n)[k] == i);
    } else {
        let k = nuclei_prefix(ph, n - 1).len() as int;
        assert(nuclei_prefix(ph, n)[k] == i);
    }
}

/// A syllable's weight in moras: two for a long vowel, one for a short
/// one, plus one per consonant after the nucleus.
pub open spec fn syllable_moras(ph: Seq<Seq<char>>, sy: Syllable) -> int {
    (if oral(ph[sy.nucleus as int]).contains('\u{2d0}') {
        2int
    } else {
        1int
    }) + sy.end - sy.nucleus - 1
}

/// Syllables are built on the nuclei, the phones whose vowel (nasal tilde
/// aside) is one of the chain's vowels, one each and in order. A syllable
/// weighs two moras for a long vowel or one for a short one, plus one per
/// coda consonant; it is stressed when superheavy, when heavy and not
/// final, or when light and the first of exactly two.
#[verifier::spinoff_prover]
pub proof fn law_syllable_weight_and_stress(ph: Seq<Seq<char>>)
    requires
        ph.len() <= usize::MAX,
    ensures
        forall|i: int| 0 <= i < ph.len() && is_nucleus(#[trigger] ph[i]) ==> exists|k: int|
            0 <= k < nuclei(ph).len() && #[trigger] nuclei(ph)[k] == i,
        forall|k: int| 0 <= k < nuclei(ph).len() ==> is_nucleus(ph[#[trigger] nuclei(ph)[k]]),
        forall|a: int, b: int|
            0 <= a < b < nuclei(ph).len() ==> #[trigger] nuclei(ph)[a] < #[trigger] nuclei(ph)[b],
        syllables_spec(ph).len() == nuclei(ph).len(),
        forall|k: int|
            0 <= k < syllables_spec(ph).len() ==> {
                let sy = #[trigger] syllables_spec(ph)[k];
                let m = syllable_moras(ph, sy);
                let n = syllables_spec(ph).len();
                &&& sy.nucleus == nuclei(ph)[k]
                &&& m < 256 ==> sy.moras == m
                &&& sy.stressed == (m >= 3 || (m == 2 && k + 1 < n) || (m == 1 && n == 2 && k == 0))
            },
{
    lemma_nuclei(ph, ph.len() as int);
    law_syllables_tile(ph);
    assert forall|i: int| 0 <= i < ph.len() && is_nucleus(#[trigger] ph[i]) implies exists|k: int|
        0 <= k < nuclei(ph).len() && #[trigger] nuclei(ph)[k] == i by {
        lemma_nuclei_complete(ph, ph.len() as int, i);
    }
    assert forall|k: int| 0 <= k < nuclei(ph).len() implies is_nucleus(ph[#[trigger] nuclei(ph)[k]]) by {
        lemma_nuclei_are_nuclei(ph, ph.len() as int, k);
    }
    assert forall|k: int| 0 <= k < syllables_spec(ph).len() implies {
        let sy = #[trigger] syllables_spec(ph)[k];
        let m = syllable_moras(ph, sy);
        let n = syllables_spec(ph).len();
        &&& sy.nucleus == nuclei(ph)[k]
        &&& m < 256 ==> sy.moras == m
        &&& sy.stressed == (m >= 3 || (m == 2 && k + 1 < n) || (m == 1 && n == 2 && k == 0))
    } by {
        lemma_syllable_weight(ph, k);
    }
}

#[verifier::spinoff_prover]
proof fn lemma_syllable_weight(ph: Seq<Seq<char>>, k: int)
    requires
        ph.len() <= usize::MAX,
        0 <= k < syllables_spec(ph).len(),
    ensures
        ({
            let sy = syllables_spec(ph)[k];
            let m = syllable_moras(ph, sy);
            let n = syllables_spec(ph).len();
            &&& sy.nucleus == nuclei(ph)[k]
            &&& m < 256 ==> sy.moras == m
            &&& sy.stressed == (m >= 3 || (m == 2 && k + 1 < n) || (m == 1 && n == 2 && k == 0))
        }),
{
    lemma_nuclei(ph, ph.len() as int);
    let nu = nuclei(ph);
    let sy = syllables_spec(ph)[k];
    assert(sy == syllable_at(ph, nu, k));
    if k + 1 < nu.len() {
        assert(nu[k] < nu[k + 1]);
        lemma_onset_len(ph, nu[k], nu[k + 1]);
    }
    assert(0 <= nu[k] < ph.len());
    assert(nu[k] + 1 <= syl_end(ph, nu, k) <= ph.len());
    assert(sy.end as int == syl_end(ph, nu, k));
    assert(sy.nucleus as int == nu[k]);
    assert(weight(ph, nu, k) == syllable_moras(ph, sy));
}

/// One stress mark per phone, primary exactly on the nuclei of stressed
/// syllables and unstressed everywhere else.
pub proof fn law_stress_on_stressed_nuclei(ph: Seq<Seq<char>>)
    requires
        ph.len() <= usize::MAX,
    ensures
        stress_spec(ph).len() == ph.len(),
        forall|i: int|
            0 <= i < ph.len() ==> (#[trigger] stress_spec(ph)[i] == Stress::Primary <==> exists|k: int|
                0 <= k < syllables_spec(ph).len() && syllables_spec(ph)[k].nucleus == i
                    && #[trigger] syllables_spec(ph)[k].stressed),
        forall|i: int|
            0 <= i < ph.len() ==> #[trigger] stress_spec(ph)[i] == Stress::Primary
                || stress_spec(ph)[i] == Stress::Unstressed,
{
    let nu = nuclei(ph);
    lemma_nuclei(ph, ph.len() as int);
    lemma_stress_len(ph, nu, nu.len() as int);
    let sy = syllables_spec(ph);
    assert forall|i: int| 0 <= i < ph.len() implies (#[trigger] stress_spec(ph)[i] == Stress::Primary
        <==> exists|k: int| 0 <= k < sy.len() && sy[k].nucleus == i && #[trigger] sy[k].stressed) by {
        lemma_stress_upto(ph, nu, nu.len() as int, i);
        if stress_spec(ph)[i] == Stress::Primary {
            let j = choose|j: int| 0 <= j < nu.len() && nu[j] == i && #[trigger] is_stressed(ph, nu, j);
            assert(sy[j].nucleus == i && sy[j].stressed);
        }
        if exists|k: int| 0 <= k < sy.len() && sy[k].nucleus == i && #[trigger] sy[k].stressed {
            let k = choose|k: int| 0 <= k < sy.len() && sy[k].nucleus == i && #[trigger] sy[k].stressed;
            assert(nu[k] == i && is_stressed(ph, nu, k));
        }
    }
    assert forall|i: int| 0 <= i < ph.len() implies #[trigger] stress_spec(ph)[i] == Stress::Primary
        || stress_spec(ph)[i] == Stress::Unstressed by {
        lemma_stress_upto(ph, nu, nu.len() as int, i);
    }
}


// ---------------------------------------------------------------------------
// Words
// ---------------------------------------------------------------------------

/// The anusvara of `word` assimilates everywhere, so its units exist.
pub open spec fn assimilable(word: Seq<char>, canon: Canon) -> bool {
    first_unassimilated(raw_units(spelled(word, canon)), canon, 0) is None
}

/// How many schwa decisions `word` calls for: one per inherent schwa.
pub open spec fn schwa_sites(word: Seq<char>, canon: Canon) -> nat {
    schwa_count(raw_units(spelled(word, canon)))
}

proof fn lemma_schwa_count_same(a: Seq<Unit>, b: Seq<Unit>)
    requires
        a.len() == b.len(),
        forall|i: int| 0 <= i < a.len() ==> (a[i] == Unit::A <==> b[i] == Unit::A),
    ensures
        schwa_count(a) == schwa_count(b),
    decreases a.len(),
{
    if a.len() > 0 {
        lemma_schwa_count_same(a.drop_last(), b.drop_last());
    }
}

/// A word's units exist exactly when its anusvara assimilates, and then
/// they hold one schwa per decision site.
pub proof fn lemma_units_schwas(word: Seq<char>, canon: Canon)
    ensures
        units_spec(word, canon) is Ok <==> assimilable(word, canon),
        units_spec(word, canon) matches Ok(us) ==> schwa_count(us) == schwa_sites(word, canon),
{
    let res = raw_units(spelled(word, canon));
    if assimilable(word, canon) {
        let a = Seq::new(res.len(), |i: int| assimilated_unit(res, i, canon));
        lemma_schwa_count_same(a, res);
        lemma_schwa_count_same(loan_ph(a), res);
    }
}

/// A word's labels: the two special pronouns (Current), or its units with
/// the schwa decisions `retained` (Current first undoes impossible
/// deletions), as IPA (Current then raises schwa beside `ɦ` and lengthens a
/// final high vowel), with stress and syllables.
pub open spec fn word_spec(word: Seq<char>, canon: Canon, retained: Seq<bool>) -> Result<WordS, ErrorS> {
    if canon == Canon::Current && special_word(word) is Some {
        let t = special_word(word)->0;
        Ok(
            WordS {
                phonemes: t,
                stress: stress_spec(t),
                syllables: syllables_spec(t),
                schwa_retained: Seq::empty(),
            },
        )
    } else {
        match units_spec(word, canon) {
            Err(e) => Err(e),
            Ok(us) => {
                let kept = if canon == Canon::Current {
                    restored(us, retained)
                } else {
                    retained
                };
                let ph0 = phones_of(us, kept);
                let ph = if canon == Canon::Current {
                    neutralized(raised(ph0))
                } else {
                    ph0
                };
                Ok(
                    WordS {
                        phonemes: ph,
                        stress: stress_spec(ph),
                        syllables: syllables_spec(ph),
                        schwa_retained: kept,
                    },
                )
            },
        }
    }
}

/// A labeled word's syllables tile its phones around vowel nuclei, its
/// stress runs parallel to the phones, primary stress falls exactly on the
/// nuclei of stressed syllables, and every phone that is no syllable's
/// nucleus is unstressed (Roy's rules over the word's phones).
#[verifier::spinoff_prover]
pub proof fn law_word_syllables_and_stress(word: Seq<char>, canon: Canon, retained: Seq<bool>)
    requires
        word_spec(word, canon, retained) is Ok,
        (word_spec(word, canon, retained)->Ok_0).phonemes.len() <= usize::MAX,
    ensures
        ({
            let w = word_spec(word, canon, retained)->Ok_0;
            &&& w.stress == stress_spec(w.phonemes)
            &&& w.syllables == syllables_spec(w.phonemes)
            &&& w.stress.len() == w.phonemes.len()
            &&& w.syllables.len() > 0 ==> w.syllables[0].start == 0 && w.syllables.last().end == w.phonemes.len()
            &&& forall|k: int|
                0 <= k < w.syllables.len() - 1 ==> (#[trigger] w.syllables[k]).end == w.syllables[k + 1].start
            &&& forall|k: int|
                0 <= k < w.syllables.len() ==> {
                    let sy = #[trigger] w.syllables[k];
                    &&& sy.start <= sy.nucleus < sy.end <= w.phonemes.len()
                    &&& is_nucleus(w.phonemes[sy.nucleus as int])
                }
            &&& forall|i: int|
                0 <= i < w.phonemes.len() ==> (#[trigger] w.stress[i] == Stress::Primary <==> exists|k: int|
                    0 <= k < w.syllables.len() && w.syllables[k].nucleus == i && #[trigger] w.syllables[k].stressed)
            &&& forall|i: int|
                0 <= i < w.phonemes.len() && (forall|k: int| 0 <= k < w.syllables.len() ==> #[trigger] w.syllables[k].nucleus != i)
                    ==> #[trigger] w.stress[i] == Stress::Unstressed
        }),
{
    let w = word_spec(word, canon, retained)->Ok_0;
    assert(w.stress == stress_spec(w.phonemes) && w.syllables == syllables_spec(w.phonemes)) by {
        if !(canon == Canon::Current && special_word(word) is Some) {
            assert(units_spec(word, canon) is Ok);
        }
    }
    law_syllables_tile(w.phonemes);
    law_stress_on_stressed_nuclei(w.phonemes);
}

fn copy_bools(v: &[bool]) -> (r: Vec<bool>)
    ensures
        r@ == v@,
{
    let mut r: Vec<bool> = Vec::new();
    let mut i: usize = 0;
    while i < v.len()
        invariant
            i <= v.len(),
            r@ == v@.subrange(0, i as int),
        decreases v.len() - i,
    {
        r.push(v[i]);
        i += 1;
    }
    proof {
        assert(v@.subrange(0, v@.len() as int) =~= v@);
    }
    r
}

/// Label one Devanagari word, given the classifier's decision for each of
/// its inherent schwas (in order; `true` keeps the schwa).
pub fn word(spelling: &str, canon: Canon, retained: &[bool]) -> (r: Result<Word, Error>)
    requires
        assimilable(spelling@, canon) ==> retained@.len() == schwa_sites(spelling@, canon),
    ensures
        crate::error::result_view(r, |w: Word| w@) == word_spec(spelling@, canon, retained@),
        r matches Ok(w) ==> crate::convert::word_wf(w@),
{
    let w = crate::text::chars_of(spelling);
    if canon == Canon::Current {
        match special(&w) {
            Some(t) => {
                let (stress, syllables) = assign_stress(&t);
                let r = Word {
                    phonemes: crate::text::strings_of(&t),
                    stress,
                    syllables,
                    schwa_retained: Vec::new(),
                };
                proof {
                    assert(r@ =~= word_spec(spelling@, canon, retained@)->Ok_0);
                    law_syllables_tile(crate::parse::views(t@));
                    law_stress_on_stressed_nuclei(crate::parse::views(t@));
                }
                return Ok(r);
            },
            None => {},
        }
    }
    let us = match units(spelling, canon) {
        Ok(us) => us,
        Err(e) => return Err(e),
    };
    proof {
        lemma_units_schwas(spelling@, canon);
    }
    let mut kept = copy_bools(retained);
    if canon == Canon::Current {
        restore_illegal_deletions(&us, &mut kept);
        proof {
            lemma_restored_len(us@, retained@);
        }
    }
    let mut ph = phones_exec(&us, &kept);
    if canon == Canon::Current {
        raise_schwa_beside_h(&mut ph);
        neutralize_final_high_vowels(&mut ph);
    }
    let (stress, syllables) = assign_stress(&ph);
    let nph = ph.len();
    let r = Word { phonemes: crate::text::strings_of(&ph), stress, syllables, schwa_retained: kept };
    proof {
        assert(crate::parse::views(ph@).len() == nph);
        assert(r@ =~= word_spec(spelling@, canon, retained@)->Ok_0);
        law_syllables_tile(crate::parse::views(ph@));
        law_stress_on_stressed_nuclei(crate::parse::views(ph@));
    }
    Ok(r)
}

// ---------------------------------------------------------------------------
// Utterances
// ---------------------------------------------------------------------------

pub open spec fn is_hindi_digit(c: char) -> bool {
    ('0' <= c && c <= '9') || ('\u{966}' <= c && c <= '\u{96f}')
}

/// The ASCII and Devanagari digits of `cs`, in order.
pub open spec fn digits_in(cs: Seq<char>) -> Seq<char>
    decreases cs.len(),
{
    if cs.len() == 0 {
        cs
    } else if is_hindi_digit(cs.last()) {
        digits_in(cs.drop_last()).push(cs.last())
    } else {
        digits_in(cs.drop_last())
    }
}

/// Under [`Canon::Current`], digits and Latin letters are spoken in the
/// audio but cannot be phonemized here: the text is refused rather than
/// labeled with a hole. Legacy lets them pass (and drops them).
pub open spec fn screen_spec(text: Seq<char>, canon: Canon) -> Result<(), ErrorS> {
    if canon == Canon::Current && digits_in(text).len() > 0 {
        Err(ErrorS::Unlabelable("hindi_digits:"@ + digits_in(text)))
    } else if canon == Canon::Current && crate::text::alpha_runs(text).len() > 0 {
        Err(
            ErrorS::Unlabelable(
                "hindi_latin_script:"@ + crate::text::join_with(crate::text::alpha_runs(text), ','),
            ),
        )
    } else {
        Ok(())
    }
}

/// Refuse text with digits or Latin letters under [`Canon::Current`].
pub fn screen(text: &str, canon: Canon) -> (r: Result<(), Error>)
    ensures
        match r {
            Ok(()) => screen_spec(text@, canon) is Ok,
            Err(e) => screen_spec(text@, canon) == Err::<(), ErrorS>(e@),
        },
{
    if canon == Canon::Legacy {
        return Ok(());
    }
    let cs = crate::text::chars_of(text);
    let mut digits: Vec<char> = Vec::new();
    let mut i: usize = 0;
    while i < cs.len()
        invariant
            i <= cs.len(),
            digits@ == digits_in(cs@.subrange(0, i as int)),
        decreases cs.len() - i,
    {
        proof {
            assert(cs@.subrange(0, i + 1).drop_last() =~= cs@.subrange(0, i as int));
        }
        let c = cs[i];
        if ('0' <= c && c <= '9') || ('\u{966}' <= c && c <= '\u{96f}') {
            digits.push(c);
        }
        i += 1;
    }
    proof {
        assert(cs@.subrange(0, cs@.len() as int) =~= cs@);
    }
    if digits.len() > 0 {
        return Err(Error::Unlabelable(crate::text::prefixed("hindi_digits:", &digits)));
    }
    let latin = crate::text::latin_runs(&cs);
    if latin.len() > 0 {
        let joined = crate::text::join_chars(&latin, ',');
        return Err(Error::Unlabelable(crate::text::prefixed("hindi_latin_script:", &joined)));
    }
    Ok(())
}

pub open spec fn in_devanagari_block(c: char) -> bool {
    '\u{900}' <= c && c <= '\u{97f}'
}

/// Runs of Devanagari-block characters found so far, and the open run.
pub open spec fn deva_runs_prefix(cs: Seq<char>, n: int) -> (Seq<Seq<char>>, Seq<char>)
    decreases n,
{
    if n <= 0 {
        (Seq::empty(), Seq::empty())
    } else {
        let (runs, cur) = deva_runs_prefix(cs, n - 1);
        let c = cs[n - 1];
        if in_devanagari_block(c) {
            (runs, cur.push(c))
        } else if cur.len() > 0 {
            (runs.push(cur), Seq::empty())
        } else {
            (runs, cur)
        }
    }
}

/// The maximal runs of the Devanagari block in `cs`: the words.
pub open spec fn devanagari_runs(cs: Seq<char>) -> Seq<Seq<char>> {
    let (runs, cur) = deva_runs_prefix(cs, cs.len() as int);
    if cur.len() > 0 {
        runs.push(cur)
    } else {
        runs
    }
}

/// The Devanagari words of `text`: its maximal runs of the Devanagari
/// block, in order.
pub fn words(text: &str) -> (r: Vec<String>)
    ensures
        crate::text::string_views(r@) == devanagari_runs(text@),
{
    let cs = crate::text::chars_of(text);
    let mut runs: Vec<Vec<char>> = Vec::new();
    let mut cur: Vec<char> = Vec::new();
    let mut i: usize = 0;
    proof {
        assert(crate::parse::views(runs@) =~= Seq::<Seq<char>>::empty());
    }
    while i < cs.len()
        invariant
            i <= cs@.len(),
            (crate::parse::views(runs@), cur@) == deva_runs_prefix(cs@, i as int),
        decreases cs@.len() - i,
    {
        let c = cs[i];
        if '\u{900}' <= c && c <= '\u{97f}' {
            cur.push(c);
        } else if cur.len() > 0 {
            let ghost r0 = crate::parse::views(runs@);
            let done = cur;
            cur = Vec::new();
            runs.push(done);
            proof {
                assert(crate::parse::views(runs@) =~= r0.push(done@));
            }
        }
        i += 1;
    }
    if cur.len() > 0 {
        let ghost r0 = crate::parse::views(runs@);
        let done = cur;
        runs.push(done);
        proof {
            assert(crate::parse::views(runs@) =~= r0.push(done@));
        }
    }
    proof {
        assert(cs@ == text@);
    }
    crate::text::strings_of(&runs)
}

pub open spec fn bool_views(v: Seq<Vec<bool>>) -> Seq<Seq<bool>> {
    v.map_values(|b: Vec<bool>| b@)
}

pub open spec fn word_views(v: Seq<Word>) -> Seq<WordS> {
    v.map_values(|w: Word| w@)
}

/// One decision list per word, each with one decision per schwa site.
pub open spec fn decisions_fit(runs: Seq<Seq<char>>, canon: Canon, retained: Seq<Seq<bool>>) -> bool {
    &&& retained.len() == runs.len()
    &&& forall|k: int|
        0 <= k < runs.len() && #[trigger] assimilable(runs[k], canon) ==> retained[k].len()
            == schwa_sites(runs[k], canon)
}

/// The labels of the first `k` words, words without phonemes dropped; or
/// the first word's refusal.
pub open spec fn words_upto(runs: Seq<Seq<char>>, canon: Canon, retained: Seq<Seq<bool>>, k: int) -> Result<Seq<WordS>, ErrorS>
    decreases k,
{
    if k <= 0 {
        Ok(Seq::empty())
    } else {
        match words_upto(runs, canon, retained, k - 1) {
            Err(e) => Err(e),
            Ok(ws) => match word_spec(runs[k - 1], canon, retained[k - 1]) {
                Err(e) => Err(e),
                Ok(w) => Ok(
                    if w.phonemes.len() > 0 {
                        ws.push(w)
                    } else {
                        ws
                    },
                ),
            },
        }
    }
}

proof fn lemma_words_upto_err(runs: Seq<Seq<char>>, canon: Canon, retained: Seq<Seq<bool>>, k: int, m: int)
    requires
        0 <= k <= m,
        words_upto(runs, canon, retained, k) is Err,
    ensures
        words_upto(runs, canon, retained, m) == words_upto(runs, canon, retained, k),
    decreases m - k,
{
    if k < m {
        lemma_words_upto_err(runs, canon, retained, k, m - 1);
    }
}

/// Labels for every Devanagari word of `text`, or why the text is refused.
pub open spec fn phonemize_spec(text: Seq<char>, canon: Canon, retained: Seq<Seq<bool>>) -> Result<Seq<WordS>, ErrorS> {
    match screen_spec(text, canon) {
        Err(e) => Err(e),
        Ok(_) => words_upto(devanagari_runs(text), canon, retained, devanagari_runs(text).len() as int),
    }
}

/// Under the current convention a text with digits (ASCII or Devanagari)
/// is refused with `hindi_digits:` and its digits in order; otherwise one
/// with Latin letters is refused with `hindi_latin_script:` and its runs of
/// Latin letters joined by commas. The legacy convention refuses neither:
/// its labels are those of the text's Devanagari words alone.
pub proof fn law_digits_then_latin_refused(text: Seq<char>, retained: Seq<Seq<bool>>)
    ensures
        digits_in(text).len() > 0 ==> phonemize_spec(text, Canon::Current, retained) == Err::<Seq<WordS>, ErrorS>(
            ErrorS::Unlabelable("hindi_digits:"@ + digits_in(text)),
        ),
        digits_in(text).len() == 0 && crate::text::alpha_runs(text).len() > 0 ==> phonemize_spec(
            text,
            Canon::Current,
            retained,
        ) == Err::<Seq<WordS>, ErrorS>(
            ErrorS::Unlabelable("hindi_latin_script:"@ + crate::text::join_with(crate::text::alpha_runs(text), ',')),
        ),
        digits_in(text).len() == 0 && crate::text::alpha_runs(text).len() == 0 ==> phonemize_spec(
            text,
            Canon::Current,
            retained,
        ) == words_upto(devanagari_runs(text), Canon::Current, retained, devanagari_runs(text).len() as int),
        phonemize_spec(text, Canon::Legacy, retained) == words_upto(
            devanagari_runs(text),
            Canon::Legacy,
            retained,
            devanagari_runs(text).len() as int,
        ),
{
}

/// Label every Devanagari word in `text` (maximal runs of the Devanagari
/// block), given the schwa decisions for each word in order. Words that
/// produce no phonemes are dropped. Under [`Canon::Current`], digits or
/// Latin letters in the text are refused ([`screen`]).
pub fn phonemize(text: &str, canon: Canon, retained: &[Vec<bool>]) -> (r: Result<Vec<Word>, Error>)
    requires
        screen_spec(text@, canon) is Ok ==> decisions_fit(devanagari_runs(text@), canon, bool_views(retained@)),
    ensures
        crate::error::result_view(r, |v: Vec<Word>| word_views(v@)) == phonemize_spec(text@, canon, bool_views(retained@)),
        r matches Ok(ws) ==> forall|k: int| 0 <= k < ws@.len() ==> crate::convert::word_wf(#[trigger] ws@[k]@),
        r matches Ok(ws) ==> forall|k: int| 0 <= k < ws@.len() ==> (#[trigger] ws@[k]).phonemes@.len() > 0,
{
    match screen(text, canon) {
        Ok(()) => {},
        Err(e) => return Err(e),
    }
    let runs = words(text);
    let ghost rs = devanagari_runs(text@);
    let ghost dv = bool_views(retained@);
    let mut out: Vec<Word> = Vec::new();
    let mut k: usize = 0;
    proof {
        assert(word_views(out@) =~= Seq::<WordS>::empty());
    }
    while k < runs.len()
        invariant
            k <= runs@.len(),
            crate::text::string_views(runs@) == rs,
            decisions_fit(rs, canon, dv),
            screen_spec(text@, canon) is Ok,
            rs == devanagari_runs(text@),
            dv == bool_views(retained@),
            words_upto(rs, canon, dv, k as int) == Ok::<Seq<WordS>, ErrorS>(word_views(out@)),
            forall|m: int| 0 <= m < out@.len() ==> crate::convert::word_wf(#[trigger] out@[m]@),
            forall|m: int| 0 <= m < out@.len() ==> (#[trigger] out@[m]).phonemes@.len() > 0,
        decreases runs@.len() - k,
    {
        proof {
            assert(rs[k as int] == runs@[k as int]@);
            assert(dv[k as int] == retained@[k as int]@);
            if assimilable(rs[k as int], canon) {
                assert(retained@[k as int]@.len() == schwa_sites(rs[k as int], canon));
            }
        }
        let w = match word(runs[k].as_str(), canon, retained[k].as_slice()) {
            Ok(w) => w,
            Err(e) => {
                proof {
                    assert(word_spec(rs[k as int], canon, dv[k as int]) == Err::<WordS, ErrorS>(e@));
                    assert(words_upto(rs, canon, dv, k + 1) == Err::<Seq<WordS>, ErrorS>(e@));
                    lemma_words_upto_err(rs, canon, dv, k + 1, rs.len() as int);
                }
                return Err(e);
            },
        };
        if w.phonemes.len() > 0 {
            let ghost o = word_views(out@);
            out.push(w);
            proof {
                assert(word_views(out@) =~= o.push(w@));
            }
        }
        k += 1;
    }
    Ok(out)
}

} // verus!
