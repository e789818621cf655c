//! Simplified-script Mandarin labels from readings.
//!
//! A dictionary gives each character its readings and a context model picks
//! one for the polyphonic characters; the pieces here decide what becomes
//! of each character, read a reading's syllable and tone, and turn the
//! syllable's IPA (one phone of it marked as bearing the pitch contour)
//! into labels: the tone number on the contour phone, or for the neutral
//! tone on the first vowel-like phone. Text with digits, Latin letters, or
//! letter-like characters without a reading is refused rather than labeled
//! with a hole where the audio has speech.

use crate::error::{Error, ErrorS};
use vstd::prelude::*;

verus! {

/// One syllable's labels.
#[derive(Debug, Clone, PartialEq, Eq)]
pub struct Syllable {
    /// The character it came from.
    pub char: char,
    /// Pinyin with tone digit (`u:` → `v`, `r5` → `er5`).
    pub pinyin: String,
    pub phonemes: Vec<String>,
    /// Parallel to `phonemes`: the tone number (1–5) on the tone-bearing
    /// phone, `None` elsewhere.
    pub tone: Vec<Option<u8>>,
}

#[verifier::ext_equal]
pub struct SyllableS {
    pub char: char,
    pub pinyin: Seq<char>,
    pub phonemes: Seq<Seq<char>>,
    pub tone: Seq<Option<u8>>,
}

impl View for Syllable {
    type V = SyllableS;

    open spec fn view(&self) -> SyllableS {
        SyllableS {
            char: self.char,
            pinyin: self.pinyin@,
            phonemes: crate::text::string_views(self.phonemes@),
            tone: self.tone@,
        }
    }
}

pub open spec fn is_mandarin_digit(c: char) -> bool {
    ('0' <= c && c <= '9') || ('\u{ff10}' <= c && c <= '\u{ff19}')
}

/// The ASCII and fullwidth digits of `cs`, in order.
pub open spec fn digits_in(cs: Seq<char>) -> Seq<char>
    decreases cs.len(),
{
    if cs.len() == 0 {
        cs
    } else if is_mandarin_digit(cs.last()) {
        digits_in(cs.drop_last()).push(cs.last())
    } else {
        digits_in(cs.drop_last())
    }
}

/// Digits and Latin letters are spoken but cannot be read here: refused.
pub open spec fn screen_spec(text: Seq<char>) -> Result<(), ErrorS> {
    if digits_in(text).len() > 0 {
        Err(ErrorS::Unlabelable("mandarin_digits:"@ + digits_in(text)))
    } else if crate::text::alpha_runs(text).len() > 0 {
        Err(
            ErrorS::Unlabelable(
                "mandarin_latin_script:"@ + crate::text::join_with(crate::text::alpha_runs(text), ','),
            ),
        )
    } else {
        Ok(())
    }
}

/// Refuse text with digits or Latin letters.
pub fn screen(text: &str) -> (r: Result<(), Error>)
    ensures
        match r {
            Ok(()) => screen_spec(text@) is Ok,
            Err(e) => screen_spec(text@) == Err::<(), ErrorS>(e@),
        },
{
    let cs = crate::text::chars_of(text);
    let mut digits: Vec<char> = Vec::new();
    let mut i: usize = 0;
    while i < cs.len()
        invariant
            i <= cs.len(),
            digits@ == digits_in(cs@.subrange(0, i as int)),
        decreases cs.len() - i,
    {
        proof {
            assert(cs@.subrange(0, i + 1).drop_last() =~= cs@.subrange(0, i as int));
        }
        let c = cs[i];
        if ('0' <= c && c <= '9') || ('\u{ff10}' <= c && c <= '\u{ff19}') {
            digits.push(c);
        }
        i += 1;
    }
    proof {
        assert(cs@.subrange(0, cs@.len() as int) =~= cs@);
    }
    if digits.len() > 0 {
        return Err(Error::Unlabelable(crate::text::prefixed("mandarin_digits:", &digits)));
    }
    let latin = crate::text::latin_runs(&cs);
    if latin.len() > 0 {
        let joined = crate::text::join_chars(&latin, ',');
        return Err(Error::Unlabelable(crate::text::prefixed("mandarin_latin_script:", &joined)));
    }
    Ok(())
}

/// What becomes of one character of the text.
#[derive(Debug, Clone, Copy, PartialEq, Eq, Structural)]
pub enum Slot {
    /// Several readings: the context model picks one.
    Polyphone,
    /// One reading: the dictionary's.
    Reading,
    /// No reading and nothing spoken (punctuation, whitespace): skipped.
    Skip,
}

/// A character with `readings` dictionary readings: polyphonic, read, or
/// skipped; a letter-like character without a reading (a rare Han
/// character, kana, Hangul, fullwidth or accented Latin) is spoken but
/// would be missing from the labels, so it is refused.
pub open spec fn slot_spec(c: char, readings: usize) -> Result<Slot, ErrorS> {
    if readings > 1 {
        Ok(Slot::Polyphone)
    } else if readings == 1 {
        Ok(Slot::Reading)
    } else if crate::korean::unicode_alphanumeric(c) {
        Err(ErrorS::Unlabelable("mandarin_unknown_char:"@ + seq![c]))
    } else {
        Ok(Slot::Skip)
    }
}

/// What becomes of a character with `readings` dictionary readings.
pub fn slot(c: char, readings: usize) -> (r: Result<Slot, Error>)
    ensures
        crate::error::result_view(r, |s: Slot| s) == slot_spec(c, readings),
{
    if readings > 1 {
        Ok(Slot::Polyphone)
    } else if readings == 1 {
        Ok(Slot::Reading)
    } else if crate::korean::alphanumeric(c) {
        Err(Error::Unlabelable(crate::text::prefixed("mandarin_unknown_char:", &crate::parse::single(c))))
    } else {
        Ok(Slot::Skip)
    }
}

/// Every `u:` spelled `v`, left to right.
pub open spec fn replace_umlaut(cs: Seq<char>) -> Seq<char>
    decreases cs.len(),
{
    if cs.len() >= 2 && cs[0] == 'u' && cs[1] == ':' {
        seq!['v'] + replace_umlaut(cs.subrange(2, cs.len() as int))
    } else if cs.len() == 0 {
        cs
    } else {
        seq![cs[0]] + replace_umlaut(cs.subrange(1, cs.len() as int))
    }
}

/// A reading as pinyin: `u:` as `v`, and the erhua suffix `r5` as the
/// syllable `er5`.
pub open spec fn pinyin_spec(reading: Seq<char>) -> Seq<char> {
    let p = replace_umlaut(reading);
    if p == seq!['r', '5'] {
        seq!['e', 'r', '5']
    } else {
        p
    }
}

/// The number a tone digit stands for.
pub open spec fn tone_value(t: char) -> u8 {
    match t {
        '1' => 1,
        '2' => 2,
        '3' => 3,
        '4' => 4,
        _ => 5,
    }
}

pub open spec fn all_lowercase(cs: Seq<char>) -> bool {
    forall|i: int| 0 <= i < cs.len() ==> 'a' <= #[trigger] cs[i] && cs[i] <= 'z'
}

/// A reading's pinyin, its toneless syllable and its tone (1–5); a reading
/// that is not lowercase letters and one tone digit (a multi-syllable unit
/// reading, a toneless entry) is no usable reading of its character.
pub open spec fn split_spec(c: char, reading: Seq<char>) -> Result<(Seq<char>, Seq<char>, u8), ErrorS> {
    let p = pinyin_spec(reading);
    if p.len() >= 2 && '1' <= p.last() && p.last() <= '5' && all_lowercase(p.drop_last()) {
        Ok((p, p.drop_last(), tone_value(p.last())))
    } else {
        Err(ErrorS::Unlabelable("mandarin_unknown_char:"@ + seq![c]))
    }
}

/// A split reading's tone is the number its final digit writes, and its
/// toneless syllable is the pinyin without that digit.
pub proof fn law_tone_is_final_digit(c: char, reading: Seq<char>)
    ensures
        split_spec(c, reading) matches Ok((p, syl, t)) ==> {
            &&& p.len() >= 2
            &&& '1' <= p.last() <= '5'
            &&& t as int == p.last() as int - '0' as int
            &&& p == syl.push(p.last())
        },
{
    let p = pinyin_spec(reading);
    if split_spec(c, reading) is Ok {
        assert(p == p.drop_last().push(p.last()));
    }
}

fn replace_umlaut_exec(cs: &[char]) -> (r: Vec<char>)
    ensures
        r@ == replace_umlaut(cs@),
{
    let mut out: Vec<char> = Vec::new();
    let mut i: usize = 0;
    proof {
        assert(cs@.subrange(0, cs@.len() as int) =~= cs@);
    }
    while i < cs.len()
        invariant
            i <= cs.len(),
            out@ + replace_umlaut(cs@.subrange(i as int, cs@.len() as int)) == replace_umlaut(cs@),
        decreases cs.len() - i,
    {
        let ghost rest = cs@.subrange(i as int, cs@.len() as int);
        let ghost o = out@;
        if i + 1 < cs.len() && cs[i] == 'u' && cs[i + 1] == ':' {
            out.push('v');
            proof {
                assert(rest.subrange(2, rest.len() as int) =~= cs@.subrange(i + 2, cs@.len() as int));
                assert(out@ + replace_umlaut(cs@.subrange(i + 2, cs@.len() as int)) =~= o + replace_umlaut(rest));
            }
            i += 2;
        } else {
            out.push(cs[i]);
            proof {
                assert(rest.subrange(1, rest.len() as int) =~= cs@.subrange(i + 1, cs@.len() as int));
                assert(out@ + replace_umlaut(cs@.subrange(i + 1, cs@.len() as int)) =~= o + replace_umlaut(rest));
            }
            i += 1;
        }
    }
    proof {
        assert(cs@.subrange(i as int, cs@.len() as int) =~= Seq::<char>::empty());
        assert(out@ + Seq::<char>::empty() =~= out@);
    }
    out
}

/// How many of the first `n` characters are polyphonic (several readings).
pub open spec fn polyphones_before(rs: Seq<Seq<Seq<char>>>, n: int) -> nat
    decreases n,
{
    if n <= 0 {
        0
    } else {
        polyphones_before(rs, n - 1) + if rs[n - 1].len() > 1 {
            1nat
        } else {
            0nat
        }
    }
}

/// The reading of each of the first `n` characters that has one, in order:
/// a polyphone takes the next of the model's `picks`, a character with one
/// reading takes it, and a character without readings is skipped.
pub open spec fn chosen_readings(
    cs: Seq<char>,
    rs: Seq<Seq<Seq<char>>>,
    picks: Seq<Seq<char>>,
    n: int,
) -> Seq<(char, Seq<char>)>
    decreases n,
{
    if n <= 0 {
        Seq::empty()
    } else {
        let prev = chosen_readings(cs, rs, picks, n - 1);
        if rs[n - 1].len() > 1 {
            prev.push((cs[n - 1], picks[polyphones_before(rs, n - 1) as int]))
        } else if rs[n - 1].len() == 1 {
            prev.push((cs[n - 1], rs[n - 1][0]))
        } else {
            prev
        }
    }
}

pub open spec fn readings_views(v: Seq<Vec<String>>) -> Seq<Seq<Seq<char>>> {
    v.map_values(|r: Vec<String>| crate::text::string_views(r@))
}

pub open spec fn pair_views(v: Seq<(char, String)>) -> Seq<(char, Seq<char>)> {
    v.map_values(|p: (char, String)| (p.0, p.1@))
}

/// The reading each character of the text is labeled with: `readings[i]`
/// are the dictionary's readings of `chars[i]`, and `picks` the context
/// model's choice for each polyphonic character, in order. Characters
/// without readings are skipped.
#[verifier::spinoff_prover]
pub fn choose_readings(chars: &[char], readings: &Vec<Vec<String>>, picks: &Vec<String>) -> (r: Vec<(char, String)>)
    requires
        readings@.len() == chars@.len(),
        picks@.len() == polyphones_before(readings_views(readings@), chars@.len() as int),
    ensures
        pair_views(r@) == chosen_readings(
            chars@,
            readings_views(readings@),
            crate::text::string_views(picks@),
            chars@.len() as int,
        ),
{
    let ghost rs = readings_views(readings@);
    let ghost ps = crate::text::string_views(picks@);
    let mut out: Vec<(char, String)> = Vec::new();
    let mut next: usize = 0;
    let mut i: usize = 0;
    let n_picks = picks.len();
    proof {
        assert(pair_views(out@) =~= Seq::<(char, Seq<char>)>::empty());
    }
    while i < chars.len()
        invariant
            i <= chars@.len(),
            readings@.len() == chars@.len(),
            rs == readings_views(readings@),
            ps == crate::text::string_views(picks@),
            picks@.len() == polyphones_before(rs, chars@.len() as int),
            n_picks == picks@.len(),
            next == polyphones_before(rs, i as int),
            pair_views(out@) == chosen_readings(chars@, rs, ps, i as int),
        decreases chars@.len() - i,
    {
        proof {
            lemma_polyphones_before_mono(rs, i as int + 1, chars@.len() as int);
        }
        let rd = &readings[i];
        assert(rs[i as int] == crate::text::string_views(rd@));
        let ghost before = pair_views(out@);
        if rd.len() > 1 {
            assert(polyphones_before(rs, i as int + 1) == next + 1);
            assert(next + 1 <= n_picks);
            let p = String::from_str(picks[next].as_str());
            out.push((chars[i], p));
            next = next + 1;
            proof {
                assert(pair_views(out@) =~= before.push((chars@[i as int], ps[polyphones_before(rs, i as int) as int])));
            }
        } else if rd.len() == 1 {
            let p = String::from_str(rd[0].as_str());
            out.push((chars[i], p));
            proof {
                assert(pair_views(out@) =~= before.push((chars@[i as int], rs[i as int][0])));
            }
        }
        i += 1;
    }
    out
}

proof fn lemma_polyphones_before_mono(rs: Seq<Seq<Seq<char>>>, i: int, j: int)
    requires
        i <= j,
    ensures
        polyphones_before(rs, i) <= polyphones_before(rs, j),
    decreases j - i,
{
    if i < j {
        lemma_polyphones_before_mono(rs, i, j - 1);
    }
}

/// A reading's pinyin, toneless syllable and tone, or the refusal of its
/// character.
pub fn split_reading(c: char, reading: &str) -> (r: Result<(String, String, u8), Error>)
    ensures
        match r {
            Ok(t) => split_spec(c, reading@) == Ok::<(Seq<char>, Seq<char>, u8), ErrorS>((t.0@, t.1@, t.2)),
            Err(e) => split_spec(c, reading@) == Err::<(Seq<char>, Seq<char>, u8), ErrorS>(e@),
        },
{
    let cs = crate::text::chars_of(reading);
    let mut p = replace_umlaut_exec(&cs);
    if crate::parse::chars_eq(&p, &['r', '5']) {
        p = vec!['e', 'r', '5'];
        assert(p@ == seq!['e', 'r', '5']);
    }
    let n = p.len();
    if n >= 2 && '1' <= p[n - 1] && p[n - 1] <= '5' {
        let mut lower = true;
        let mut i: usize = 0;
        while i < n - 1
            invariant
                i <= n - 1,
                n == p@.len(),
                n >= 2,
                lower <==> all_lowercase(p@.subrange(0, i as int)),
            decreases n - 1 - i,
        {
            let ch = p[i];
            if !('a' <= ch && ch <= 'z') {
                lower = false;
            }
            proof {
                if lower {
                    assert(all_lowercase(p@.subrange(0, i + 1)));
                } else if !('a' <= ch && ch <= 'z') {
                    assert(p@.subrange(0, i + 1)[i as int] == ch);
                } else {
                    assert(!all_lowercase(p@.subrange(0, i as int)));
                    let w = choose|j: int| 0 <= j < i && !('a' <= #[trigger] p@.subrange(0, i as int)[j] && p@.subrange(0, i as int)[j] <= 'z');
                    assert(p@.subrange(0, i + 1)[w] == p@.subrange(0, i as int)[w]);
                }
            }
            i += 1;
        }
        proof {
            assert(p@.subrange(0, n - 1) =~= p@.drop_last());
        }
        if lower {
            let t = p[n - 1];
            let tone: u8 = if t == '1' {
                1
            } else if t == '2' {
                2
            } else if t == '3' {
                3
            } else if t == '4' {
                4
            } else {
                5
            };
            let syl = crate::parse::sub_chars(&p, 0, n - 1);
            return Ok((crate::text::string_of(&p), crate::text::string_of(&syl), tone));
        }
    }
    Err(Error::Unlabelable(crate::text::prefixed("mandarin_unknown_char:", &crate::parse::single(c))))
}


/// A phone of the syllable table with its tone placeholder `0` removed.
pub open spec fn remove_zeros(p: Seq<char>) -> Seq<char>
    decreases p.len(),
{
    if p.len() == 0 {
        p
    } else if p.last() == '0' {
        remove_zeros(p.drop_last())
    } else {
        remove_zeros(p.drop_last()).push(p.last())
    }
}

/// Phones and tones so far, and whether the tone is placed.
pub struct ToneScan {
    pub phonemes: Seq<Seq<char>>,
    pub tones: Seq<Option<u8>>,
    pub assigned: bool,
}

/// One more phone of the syllable's IPA: the first phone marked with `0`
/// bears a contour tone (tone 5 has no contour, so nothing bears it here).
pub open spec fn tone_step(s: ToneScan, phone: Seq<char>, tone: u8) -> ToneScan {
    let bears = phone.contains('0');
    ToneScan {
        phonemes: s.phonemes.push(remove_zeros(phone)),
        tones: s.tones.push(
            if bears && !s.assigned && tone != 5 {
                Some(tone)
            } else {
                None
            },
        ),
        assigned: s.assigned || (bears && tone != 5),
    }
}

pub open spec fn tone_scan(variant: Seq<Seq<char>>, tone: u8, n: int) -> ToneScan
    decreases n,
{
    if n <= 0 {
        ToneScan { phonemes: Seq::empty(), tones: Seq::empty(), assigned: false }
    } else {
        tone_step(tone_scan(variant, tone, n - 1), variant[n - 1], tone)
    }
}

/// A phone that can carry the neutral tone: vowel-like, `ɚ` included for
/// toneless erhua.
pub open spec fn is_vowel_like(c: char) -> bool {
    ||| c == 'i' || c == 'y' || c == '\u{268}' || c == '\u{26f}' || c == 'u' || c == '\u{26a}'
    ||| c == '\u{28a}' || c == 'e' || c == '\u{264}' || c == 'o' || c == '\u{259}' || c == '\u{25a}'
    ||| c == '\u{25b}' || c == 'a' || c == '\u{251}' || c == '\u{254}' || c == '\u{27b}' || c == '\u{279}'
    ||| c == 'z' || c == '\u{290}'
}

/// The first vowel-like phone at or after `i`.
pub open spec fn first_vowel_like(ph: Seq<Seq<char>>, i: int) -> Option<int>
    decreases ph.len() - i,
{
    if i < 0 || i >= ph.len() {
        None
    } else if ph[i].len() > 0 && is_vowel_like(ph[i][0]) {
        Some(i)
    } else {
        first_vowel_like(ph, i + 1)
    }
}

/// A character's syllable from its pinyin, tone, and the syllable table's
/// IPA for it (`None` when the table does not have it): the tone on the
/// contour phone, or for the neutral tone on the first vowel-like phone.
pub open spec fn syllable_spec(c: char, pinyin: Seq<char>, tone: u8, variant: Option<Seq<Seq<char>>>) -> Result<SyllableS, ErrorS> {
    match variant {
        None => Err(ErrorS::Unlabelable("mandarin_unknown_syllable:"@ + pinyin)),
        Some(v) => {
            let s = tone_scan(v, tone, v.len() as int);
            if s.assigned {
                Ok(SyllableS { char: c, pinyin, phonemes: s.phonemes, tone: s.tones })
            } else {
                match first_vowel_like(s.phonemes, 0) {
                    Some(b) => Ok(
                        SyllableS {
                            char: c,
                            pinyin,
                            phonemes: s.phonemes,
                            tone: s.tones.update(b, Some(tone)),
                        },
                    ),
                    None => Err(ErrorS::Unlabelable("mandarin_no_tone_bearer:"@ + pinyin)),
                }
            }
        },
    }
}

pub open spec fn opt_string_views(v: Option<&Vec<String>>) -> Option<Seq<Seq<char>>> {
    match v {
        Some(x) => Some(crate::text::string_views(x@)),
        None => None,
    }
}

fn vowel_like(c: char) -> (r: bool)
    ensures
        r == is_vowel_like(c),
{
    c == 'i' || c == 'y' || c == '\u{268}' || c == '\u{26f}' || c == 'u' || c == '\u{26a}' || c
        == '\u{28a}' || c == 'e' || c == '\u{264}' || c == 'o' || c == '\u{259}' || c == '\u{25a}'
        || c == '\u{25b}' || c == 'a' || c == '\u{251}' || c == '\u{254}' || c == '\u{27b}' || c
        == '\u{279}' || c == 'z' || c == '\u{290}'
}

proof fn lemma_first_vowel_like(ph: Seq<Seq<char>>, a: int, b: int)
    requires
        0 <= a <= b <= ph.len(),
        forall|m: int| a <= m < b ==> !(ph[m].len() > 0 && is_vowel_like(#[trigger] ph[m][0])),
    ensures
        first_vowel_like(ph, a) == first_vowel_like(ph, b),
    decreases b - a,
{
    if a < b {
        lemma_first_vowel_like(ph, a + 1, b);
    }
}

fn without_zeros(p: &[char]) -> (r: Vec<char>)
    ensures
        r@ == remove_zeros(p@),
{
    let mut r: Vec<char> = Vec::new();
    let mut i: usize = 0;
    while i < p.len()
        invariant
            i <= p.len(),
            r@ == remove_zeros(p@.subrange(0, i as int)),
        decreases p.len() - i,
    {
        proof {
            assert(p@.subrange(0, i + 1).drop_last() =~= p@.subrange(0, i as int));
        }
        if p[i] != '0' {
            r.push(p[i]);
        }
        i += 1;
    }
    proof {
        assert(p@.subrange(0, p@.len() as int) =~= p@);
    }
    r
}

/// A character's syllable labels from its pinyin and tone and the syllable
/// table's IPA for its toneless syllable (each phone a string, the
/// tone-bearing phone marked with `0`), or why it cannot be labeled.
pub fn syllable(c: char, pinyin: String, tone: u8, variant: Option<&Vec<String>>) -> (r: Result<Syllable, Error>)
    ensures
        crate::error::result_view(r, |s: Syllable| s@) == syllable_spec(c, pinyin@, tone, opt_string_views(variant)),
{
    let v = match variant {
        Some(v) => v,
        None => {
            let mut m = String::from_str("mandarin_unknown_syllable:");
            m.append(pinyin.as_str());
            return Err(Error::Unlabelable(m));
        },
    };
    let ghost vs = crate::text::string_views(v@);
    let mut phonemes: Vec<Vec<char>> = Vec::new();
    let mut tones: Vec<Option<u8>> = Vec::new();
    let mut assigned = false;
    let mut k: usize = 0;
    proof {
        assert(crate::parse::views(phonemes@) =~= Seq::<Seq<char>>::empty());
        assert(tones@ =~= Seq::<Option<u8>>::empty());
    }
    while k < v.len()
        invariant
            k <= v@.len(),
            vs == crate::text::string_views(v@),
            tones@.len() == phonemes@.len(),
            tone_scan(vs, tone, k as int) == (ToneScan {
                phonemes: crate::parse::views(phonemes@),
                tones: tones@,
                assigned,
            }),
        decreases v@.len() - k,
    {
        let phone = crate::text::chars_of(v[k].as_str());
        proof {
            assert(phone@ == vs[k as int]);
        }
        let bears = crate::hindi::has_char_pub(&phone, '0');
        let ghost p0 = crate::parse::views(phonemes@);
        let stripped = without_zeros(&phone);
        phonemes.push(stripped);
        tones.push(
            if bears && !assigned && tone != 5 {
                Some(tone)
            } else {
                None
            },
        );
        assigned = assigned || (bears && tone != 5);
        proof {
            assert(crate::parse::views(phonemes@) =~= p0.push(stripped@));
        }
        k += 1;
    }
    if assigned {
        let r = Syllable { char: c, pinyin, phonemes: crate::text::strings_of(&phonemes), tone: tones };
        proof {
            assert(r@ =~= syllable_spec(c, r.pinyin@, tone, opt_string_views(variant))->Ok_0);
        }
        return Ok(r);
    }
    let ghost ph = crate::parse::views(phonemes@);
    let ghost t0 = tones@;
    proof {
        assert(crate::text::string_views(v@).len() == v@.len());
    }
    let mut b: usize = 0;
    while b < phonemes.len()
        invariant
            b <= phonemes@.len(),
            ph == crate::parse::views(phonemes@),
            tones@ == t0,
            t0.len() == ph.len(),
            tone_scan(vs, tone, vs.len() as int) == (ToneScan { phonemes: ph, tones: t0, assigned: false }),
            opt_string_views(variant) == Some(vs),
            forall|m: int| 0 <= m < b ==> !(ph[m].len() > 0 && is_vowel_like(#[trigger] ph[m][0])),
        decreases phonemes@.len() - b,
    {
        if phonemes[b].len() > 0 && vowel_like(phonemes[b][0]) {
            proof {
                lemma_first_vowel_like(ph, 0, b as int);
            }
            tones.set(b, Some(tone));
            let r = Syllable { char: c, pinyin, phonemes: crate::text::strings_of(&phonemes), tone: tones };
            proof {
                assert(r@ =~= syllable_spec(c, r.pinyin@, tone, opt_string_views(variant))->Ok_0);
            }
            return Ok(r);
        }
        b += 1;
    }
    proof {
        lemma_first_vowel_like(ph, 0, b as int);
    }
    let mut m = String::from_str("mandarin_no_tone_bearer:");
    m.append(pinyin.as_str());
    Err(Error::Unlabelable(m))
}


proof fn lemma_tone_scan(variant: Seq<Seq<char>>, tone: u8, n: int)
    requires
        0 <= n <= variant.len(),
    ensures
        tone_scan(variant, tone, n).phonemes.len() == n,
        tone_scan(variant, tone, n).tones.len() == n,
        !tone_scan(variant, tone, n).assigned ==> forall|i: int|
            0 <= i < n ==> (#[trigger] tone_scan(variant, tone, n).tones[i]) is None,
        tone_scan(variant, tone, n).assigned ==> exists|b: int|
            0 <= b < n && tone_scan(variant, tone, n).tones[b] == Some(tone) && forall|i: int|
                0 <= i < n && i != b ==> (#[trigger] tone_scan(variant, tone, n).tones[i]) is None,
    decreases n,
{
    if n > 0 {
        lemma_tone_scan(variant, tone, n - 1);
        let s0 = tone_scan(variant, tone, n - 1);
        let s1 = tone_scan(variant, tone, n);
        if s1.assigned {
            if s0.assigned {
                let b = choose|b: int|
                    0 <= b < n - 1 && s0.tones[b] == Some(tone) && forall|i: int|
                        0 <= i < n - 1 && i != b ==> (#[trigger] s0.tones[i]) is None;
                assert(s1.tones[b] == Some(tone));
                assert forall|i: int| 0 <= i < n && i != b implies (#[trigger] s1.tones[i]) is None by {
                    if i < n - 1 {
                        assert(s1.tones[i] == s0.tones[i]);
                    }
                }
            } else {
                assert(s1.tones[n - 1] == Some(tone));
                assert forall|i: int| 0 <= i < n && i != n - 1 implies (#[trigger] s1.tones[i]) is None by {
                    assert(s1.tones[i] == s0.tones[i]);
                }
            }
        } else {
            assert forall|i: int| 0 <= i < n implies (#[trigger] s1.tones[i]) is None by {
                if i < n - 1 {
                    assert(s1.tones[i] == s0.tones[i]);
                }
            }
        }
    }
}

proof fn lemma_first_vowel_like_some(ph: Seq<Seq<char>>, a: int)
    requires
        first_vowel_like(ph, a) is Some,
    ensures
        0 <= a <= first_vowel_like(ph, a)->0 < ph.len(),
    decreases ph.len() - a,
{
    if 0 <= a < ph.len() && !(ph[a].len() > 0 && is_vowel_like(ph[a][0])) {
        lemma_first_vowel_like_some(ph, a + 1);
    }
}

/// A syllable's tone sits on exactly one of its phones, the tone parallel
/// to the phones.
pub proof fn law_one_tone_bearer(c: char, pinyin: Seq<char>, tone: u8, variant: Seq<Seq<char>>)
    requires
        syllable_spec(c, pinyin, tone, Some(variant)) is Ok,
    ensures
        ({
            let s = syllable_spec(c, pinyin, tone, Some(variant))->Ok_0;
            &&& s.tone.len() == s.phonemes.len()
            &&& s.phonemes.len() == variant.len()
            &&& exists|b: int|
                0 <= b < s.tone.len() && s.tone[b] == Some(tone) && forall|i: int|
                    0 <= i < s.tone.len() && i != b ==> (#[trigger] s.tone[i]) is None
        }),
{
    let n = variant.len() as int;
    lemma_tone_scan(variant, tone, n);
    let sc = tone_scan(variant, tone, n);
    let s = syllable_spec(c, pinyin, tone, Some(variant))->Ok_0;
    if !sc.assigned {
        lemma_first_vowel_like_some(sc.phonemes, 0);
        let b = first_vowel_like(sc.phonemes, 0)->0;
        let t = sc.tones.update(b, Some(tone));
        assert(s.tone == t);
        assert(t[b] == Some(tone));
        assert forall|i: int| 0 <= i < t.len() && i != b implies (#[trigger] t[i]) is None by {
            assert(t[i] == sc.tones[i]);
        }
    } else {
        assert(s.tone == sc.tones);
        let b = choose|b: int|
            0 <= b < n && sc.tones[b] == Some(tone) && forall|i: int|
                0 <= i < n && i != b ==> (#[trigger] sc.tones[i]) is None;
        assert(s.tone[b] == Some(tone));
    }
}

// ---------------------------------------------------------------------------
// The model's tables
// ---------------------------------------------------------------------------

/// The first index at or after `i` where `s` holds `c`.
pub open spec fn find_from(s: Seq<char>, c: char, i: int) -> Option<int>
    decreases s.len() - i,
{
    if i < 0 || i >= s.len() {
        None
    } else if s[i] == c {
        Some(i)
    } else {
        find_from(s, c, i + 1)
    }
}

proof fn lemma_find_from(s: Seq<char>, c: char, i: int)
    requires
        0 <= i,
    ensures
        find_from(s, c, i) matches Some(t) ==> i <= t < s.len() && s[t] == c,
    decreases s.len() - i,
{
    if i < s.len() && s[i] != c {
        lemma_find_from(s, c, i + 1);
    }
}

fn find_tab(cs: &[char]) -> (r: Option<usize>)
    ensures
        r matches Some(t) ==> find_from(cs@, '\t', 0) == Some(t as int),
        r is None ==> find_from(cs@, '\t', 0) is None,
{
    let mut i: usize = 0;
    while i < cs.len()
        invariant
            i <= cs@.len(),
            find_from(cs@, '\t', i as int) == find_from(cs@, '\t', 0),
        decreases cs@.len() - i,
    {
        if cs[i] == '\t' {
            return Some(i);
        }
        i += 1;
    }
    None
}

/// The rows of the character vocabulary that are one character, with their
/// row numbers (the other rows are the special tokens).
pub open spec fn char_rows(rows: Seq<Seq<char>>, n: int) -> Seq<(char, int)>
    decreases n,
{
    if n <= 0 {
        Seq::empty()
    } else if rows[n - 1].len() == 1 {
        char_rows(rows, n - 1).push((rows[n - 1][0], n - 1))
    } else {
        char_rows(rows, n - 1)
    }
}

pub open spec fn id_views(v: Seq<(char, usize)>) -> Seq<(char, int)> {
    v.map_values(|p: (char, usize)| (p.0, p.1 as int))
}

/// The vocabulary's rows (its lines) and each one-character row's character
/// with its row number, the model's id for that character.
#[verifier::spinoff_prover]
pub fn char_ids(text: &str) -> (r: (Vec<String>, Vec<(char, usize)>))
    ensures
        crate::text::string_views(r.0@) == crate::text::lines_spec(text@),
        id_views(r.1@) == char_rows(crate::text::lines_spec(text@), crate::text::lines_spec(text@).len() as int),
{
    let cs = crate::text::chars_of(text);
    let rows = crate::text::lines_of(&cs);
    let ghost rv = crate::parse::views(rows@);
    let mut ids: Vec<(char, usize)> = Vec::new();
    let mut i: usize = 0;
    proof {
        assert(id_views(ids@) =~= Seq::<(char, int)>::empty());
    }
    while i < rows.len()
        invariant
            i <= rows@.len(),
            rv == crate::parse::views(rows@),
            id_views(ids@) == char_rows(rv, i as int),
        decreases rows@.len() - i,
    {
        let ghost before = id_views(ids@);
        if rows[i].len() == 1 {
            ids.push((rows[i][0], i));
            proof {
                assert(id_views(ids@) =~= before.push((rv[i as int][0], i as int)));
            }
        }
        i += 1;
    }
    (crate::text::strings_of(&rows), ids)
}

/// One dictionary line, `character<TAB>reading,reading,...`: the line's
/// first character and its readings; none for a line without a tab or with
/// nothing before it.
pub open spec fn dictionary_entry(line: Seq<char>) -> Option<(char, Seq<Seq<char>>)> {
    match find_from(line, '\t', 0) {
        None => None,
        Some(t) => if t == 0 {
            None
        } else {
            Some((line[0], crate::text::split_spec(line.subrange(t + 1, line.len() as int), seq![','])))
        },
    }
}

/// The entries of the first `n` lines, or none if one is malformed.
pub open spec fn dictionary_lines(ls: Seq<Seq<char>>, n: int) -> Option<Seq<(char, Seq<Seq<char>>)>>
    decreases n,
{
    if n <= 0 {
        Some(Seq::empty())
    } else {
        match (dictionary_lines(ls, n - 1), dictionary_entry(ls[n - 1])) {
            (Some(p), Some(e)) => Some(p.push(e)),
            _ => None,
        }
    }
}

pub open spec fn dictionary_spec(text: Seq<char>) -> Option<Seq<(char, Seq<Seq<char>>)>> {
    dictionary_lines(crate::text::lines_spec(text), crate::text::lines_spec(text).len() as int)
}

pub open spec fn entry_views(v: Seq<(char, Vec<String>)>) -> Seq<(char, Seq<Seq<char>>)> {
    v.map_values(|e: (char, Vec<String>)| (e.0, crate::text::string_views(e.1@)))
}

proof fn lemma_dictionary_none(ls: Seq<Seq<char>>, i: int, j: int)
    requires
        0 <= i <= j,
        dictionary_lines(ls, i) is None,
    ensures
        dictionary_lines(ls, j) is None,
    decreases j - i,
{
    if i < j {
        lemma_dictionary_none(ls, i, j - 1);
    }
}

proof fn lemma_table_none(ls: Seq<Seq<char>>, i: int, j: int)
    requires
        0 <= i <= j,
        table_lines(ls, i) is None,
    ensures
        table_lines(ls, j) is None,
    decreases j - i,
{
    if i < j {
        lemma_table_none(ls, i, j - 1);
    }
}

/// The pronunciation dictionary: each line's character and its readings
/// (the first the default), or `None` if a line is malformed.
#[verifier::spinoff_prover]
pub fn dictionary(text: &str) -> (r: Option<Vec<(char, Vec<String>)>>)
    ensures
        match r {
            Some(v) => dictionary_spec(text@) == Some(entry_views(v@)),
            None => dictionary_spec(text@) is None,
        },
{
    let cs = crate::text::chars_of(text);
    let ls = crate::text::lines_of(&cs);
    let ghost lv = crate::parse::views(ls@);
    let mut out: Vec<(char, Vec<String>)> = Vec::new();
    let mut i: usize = 0;
    proof {
        assert(entry_views(out@) =~= Seq::<(char, Seq<Seq<char>>)>::empty());
    }
    while i < ls.len()
        invariant
            i <= ls@.len(),
            lv == crate::parse::views(ls@),
            lv == crate::text::lines_spec(text@),
            dictionary_lines(lv, i as int) == Some(entry_views(out@)),
        decreases ls@.len() - i,
    {
        let line = &ls[i];
        assert(lv[i as int] == line@);
        let t = match find_tab(line) {
            Some(t) => t,
            None => {
                proof {
                    lemma_dictionary_none(lv, i + 1, lv.len() as int);
                }
                return None;
            },
        };
        if t == 0 {
            proof {
                lemma_dictionary_none(lv, i + 1, lv.len() as int);
            }
            return None;
        }
        proof {
            lemma_find_from(line@, '\t', 0);
        }
        let n = line.len();
        assert(t < n);
        let rest = crate::parse::sub_chars(line, t + 1, n);
        let parts = crate::text::split_chars(&rest, &[',']);
        proof {
            assert(seq![','] =~= [',']@);
        }
        let readings = crate::text::strings_of(&parts);
        let ghost before = entry_views(out@);
        out.push((line[0], readings));
        proof {
            assert(entry_views(out@) =~= before.push((line@[0], crate::parse::views(parts@))));
        }
        i += 1;
    }
    Some(out)
}

/// One syllable-table line, `syllable<TAB>variant ; variant ; ...`, each
/// variant its phones separated by `|`: the syllable and its variants;
/// none for a line without a tab.
pub open spec fn table_entry(line: Seq<char>) -> Option<(Seq<char>, Seq<Seq<Seq<char>>>)> {
    match find_from(line, '\t', 0) {
        None => None,
        Some(t) => Some(
            (
                line.subrange(0, t),
                crate::text::split_spec(line.subrange(t + 1, line.len() as int), seq![' ', ';', ' ']).map_values(
                    |v: Seq<char>| crate::text::split_spec(v, seq!['|']),
                ),
            ),
        ),
    }
}

pub open spec fn table_lines(ls: Seq<Seq<char>>, n: int) -> Option<Seq<(Seq<char>, Seq<Seq<Seq<char>>>)>>
    decreases n,
{
    if n <= 0 {
        Some(Seq::empty())
    } else {
        match (table_lines(ls, n - 1), table_entry(ls[n - 1])) {
            (Some(p), Some(e)) => Some(p.push(e)),
            _ => None,
        }
    }
}

pub open spec fn table_spec(text: Seq<char>) -> Option<Seq<(Seq<char>, Seq<Seq<Seq<char>>>)>> {
    table_lines(crate::text::lines_spec(text), crate::text::lines_spec(text).len() as int)
}

pub open spec fn variants_views(v: Seq<Vec<String>>) -> Seq<Seq<Seq<char>>> {
    v.map_values(|p: Vec<String>| crate::text::string_views(p@))
}

pub open spec fn table_views(v: Seq<(String, Vec<Vec<String>>)>) -> Seq<(Seq<char>, Seq<Seq<Seq<char>>>)> {
    v.map_values(|e: (String, Vec<Vec<String>>)| (e.0@, variants_views(e.1@)))
}

/// The syllable table: each toneless syllable with its IPA variants, each
/// a list of phones (the tone-bearing one marked with `0`); `None` if a
/// line has no tab.
#[verifier::spinoff_prover]
pub fn syllable_table(text: &str) -> (r: Option<Vec<(String, Vec<Vec<String>>)>>)
    ensures
        match r {
            Some(v) => table_spec(text@) == Some(table_views(v@)),
            None => table_spec(text@) is None,
        },
{
    let cs = crate::text::chars_of(text);
    let ls = crate::text::lines_of(&cs);
    let ghost lv = crate::parse::views(ls@);
    let mut out: Vec<(String, Vec<Vec<String>>)> = Vec::new();
    let mut i: usize = 0;
    proof {
        assert(table_views(out@) =~= Seq::<(Seq<char>, Seq<Seq<Seq<char>>>)>::empty());
    }
    while i < ls.len()
        invariant
            i <= ls@.len(),
            lv == crate::parse::views(ls@),
            lv == crate::text::lines_spec(text@),
            table_lines(lv, i as int) == Some(table_views(out@)),
        decreases ls@.len() - i,
    {
        let line = &ls[i];
        assert(lv[i as int] == line@);
        let t = match find_tab(line) {
            Some(t) => t,
            None => {
                proof {
                    lemma_table_none(lv, i + 1, lv.len() as int);
                }
                return None;
            },
        };
        proof {
            lemma_find_from(line@, '\t', 0);
        }
        let n = line.len();
        assert(t < n);
        let syl = crate::text::string_of(&crate::parse::sub_chars(line, 0, t));
        let rest = crate::parse::sub_chars(line, t + 1, n);
        let vs = crate::text::split_chars(&rest, &[' ', ';', ' ']);
        proof {
            assert(seq![' ', ';', ' '] =~= [' ', ';', ' ']@);
            assert(seq!['|'] =~= ['|']@);
        }
        let ghost vv = crate::parse::views(vs@);
        let mut variants: Vec<Vec<String>> = Vec::new();
        let mut k: usize = 0;
        proof {
            assert(variants_views(variants@) =~= Seq::<Seq<Seq<char>>>::empty());
        }
        while k < vs.len()
            invariant
                k <= vs@.len(),
                vv == crate::parse::views(vs@),
                variants_views(variants@) == vv.subrange(0, k as int).map_values(
                    |v: Seq<char>| crate::text::split_spec(v, seq!['|']),
                ),
            decreases vs@.len() - k,
        {
            let parts = crate::text::split_chars(&vs[k], &['|']);
            let phones = crate::text::strings_of(&parts);
            proof {
                assert(seq!['|'] =~= ['|']@);
                assert(vv[k as int] == vs@[k as int]@);
                assert(crate::text::string_views(phones@) == crate::text::split_spec(vv[k as int], seq!['|']));
            }
            let ghost before = variants_views(variants@);
            variants.push(phones);
            proof {
                assert(variants_views(variants@) =~= before.push(crate::text::split_spec(vv[k as int], seq!['|'])));
                assert(vv.subrange(0, k + 1).map_values(|v: Seq<char>| crate::text::split_spec(v, seq!['|']))
                    =~= vv.subrange(0, k as int).map_values(|v: Seq<char>| crate::text::split_spec(v, seq!['|'])).push(
                    crate::text::split_spec(vv[k as int], seq!['|'])));
            }
            k += 1;
        }
        proof {
            assert(vv.subrange(0, vv.len() as int) =~= vv);
        }
        let ghost before = table_views(out@);
        out.push((syl, variants));
        proof {
            assert(table_views(out@) =~= before.push(table_entry(line@)->0));
        }
        i += 1;
    }
    Some(out)
}

} // verus!
