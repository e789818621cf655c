//! Korean labels from standard pronunciations written as post-sandhi Hangul.
//!
//! The sound changes of the standard pronunciation rules are applied by
//! g2pk2 (out of process); this module splits the text into the words it
//! sends, refuses what would be guessed at, and maps each word's returned
//! pronunciation (값이 → 갑씨) to phones.
//!
//! Label set: lenis stops and affricate `k t p tɕ`, aspirated `kʰ tʰ pʰ tɕʰ`,
//! tense `k͈ t͈ p͈ tɕ͈ s͈`, `s h m n ŋ`, ㄹ as `ɾ` between vowels and `l` in the
//! coda and geminate, vowels `a e ʌ o u ɯ i` and glides `j w`. ㅐ/ㅔ (and
//! ㅙ/ㅚ/ㅞ) are one label. Word-initial 의 is `ɯ i`. Korean has no lexical
//! stress or tone.

use crate::error::{result_view, Error, ErrorS};
use crate::labels::is_whitespace;
use crate::parse::{copy_chars, views, Stress};
use crate::text::string_views;
use vstd::prelude::*;

verus! {

/// One utterance's labels.
#[derive(Debug, Clone, PartialEq, Eq, Default)]
pub struct Labels {
    /// The standard pronunciation as post-sandhi Hangul, one token per
    /// input word (값이 안 좋아 → "갑씨 안 조아"). Readable; not for scoring.
    pub raw: String,
    pub phonemes: Vec<String>,
    /// All unstressed: Korean has no lexical stress.
    pub stress: Vec<Stress>,
    /// `[start, end)` per input word.
    pub word_spans: Vec<(usize, usize)>,
}

pub open spec fn is_hangul_syllable(c: char) -> bool {
    '\u{AC00}' <= c && c <= '\u{D7A3}'
}

pub open spec fn is_jamo(c: char) -> bool {
    ('\u{1100}' <= c && c <= '\u{11FF}') || ('\u{3130}' <= c && c <= '\u{318F}') || ('\u{A960}'
        <= c && c <= '\u{A97F}') || ('\u{D7B0}' <= c && c <= '\u{D7FF}')
}

fn hangul_syllable(c: char) -> (r: bool)
    ensures
        r == is_hangul_syllable(c),
{
    '\u{AC00}' <= c && c <= '\u{D7A3}'
}

fn jamo(c: char) -> (r: bool)
    ensures
        r == is_jamo(c),
{
    ('\u{1100}' <= c && c <= '\u{11FF}') || ('\u{3130}' <= c && c <= '\u{318F}') || ('\u{A960}'
        <= c && c <= '\u{A97F}') || ('\u{D7B0}' <= c && c <= '\u{D7FF}')
}

/// Unicode's alphanumeric property (`char::is_alphanumeric`).
pub uninterp spec fn unicode_alphanumeric(c: char) -> bool;

/// `char::is_alphanumeric`: whether `c` is alphabetic or numeric in Unicode.
#[verifier::external_body]
pub(crate) fn alphanumeric(c: char) -> (r: bool)
    ensures
        r == unicode_alphanumeric(c),
{
    c.is_alphanumeric()
}

// ---------------------------------------------------------------------------
// Text → words
// ---------------------------------------------------------------------------

/// What the word splitter has seen so far.
#[verifier::ext_equal]
pub struct WordsS {
    pub digits: Seq<char>,
    pub latin: Seq<Seq<char>>,
    pub run: Seq<char>,
    pub other: Seq<char>,
    pub jamo: Seq<char>,
    pub words: Seq<Seq<char>>,
    pub word: Seq<char>,
}

pub open spec fn end_token(s: WordsS) -> WordsS {
    WordsS {
        latin: if s.run.len() > 0 {
            s.latin.push(s.run)
        } else {
            s.latin
        },
        run: Seq::empty(),
        words: if s.word.len() > 0 {
            s.words.push(s.word)
        } else {
            s.words
        },
        word: Seq::empty(),
        ..s
    }
}

pub open spec fn classify(s: WordsS, c: char) -> WordsS {
    if is_hangul_syllable(c) {
        WordsS { word: s.word.push(c), ..s }
    } else if '0' <= c && c <= '9' {
        WordsS { digits: s.digits.push(c), ..s }
    } else if crate::parse::is_ascii_alpha(c) {
        WordsS { run: s.run.push(c), ..s }
    } else if is_jamo(c) {
        WordsS { jamo: s.jamo.push(c), ..s }
    } else if unicode_alphanumeric(c) {
        WordsS { other: s.other.push(c), ..s }
    } else {
        s
    }
}

pub open spec fn words_step(s: WordsS, c: char) -> WordsS {
    if is_whitespace(c) {
        end_token(s)
    } else {
        let s1 = classify(s, c);
        if !crate::parse::is_ascii_alpha(c) && s1.run.len() > 0 {
            WordsS { latin: s1.latin.push(s1.run), run: Seq::empty(), ..s1 }
        } else {
            s1
        }
    }
}

pub open spec fn words_prefix(cs: Seq<char>, n: int) -> WordsS
    decreases n,
{
    if n <= 0 {
        WordsS {
            digits: Seq::empty(),
            latin: Seq::empty(),
            run: Seq::empty(),
            other: Seq::empty(),
            jamo: Seq::empty(),
            words: Seq::empty(),
            word: Seq::empty(),
        }
    } else {
        words_step(words_prefix(cs, n - 1), cs[n - 1])
    }
}

/// The splitter's findings over the whole text.
pub open spec fn words_scan(cs: Seq<char>) -> WordsS {
    end_token(words_prefix(cs, cs.len() as int))
}

/// The Hangul words of a text (punctuation stripped), or why it is refused:
/// digits first, then Latin runs, bare jamo, and any other letter or digit.
pub open spec fn words_spec(cs: Seq<char>) -> Result<Seq<Seq<char>>, ErrorS> {
    let s = words_scan(cs);
    if s.digits.len() > 0 {
        Err(ErrorS::Unlabelable("korean_digits:"@ + s.digits))
    } else if s.latin.len() > 0 {
        Err(ErrorS::Unlabelable("korean_latin_script:"@ + crate::text::join_with(s.latin, ',')))
    } else if s.jamo.len() > 0 {
        Err(ErrorS::Unlabelable("korean_jamo:"@ + s.jamo))
    } else if s.other.len() > 0 {
        Err(ErrorS::Unlabelable("korean_unsupported_char:"@ + s.other))
    } else {
        Ok(s.words)
    }
}

/// The Hangul words of `text`, punctuation stripped; or why the text is
/// refused. Anything that is not a letter or digit (punctuation, symbols)
/// is silent and ignored; every letter or digit that is not a Hangul
/// syllable is refused, since the backend would read it as a guess.
pub fn words(text: &str) -> (r: Result<Vec<String>, Error>)
    ensures
        result_view(r, |v: Vec<String>| string_views(v@)) == words_spec(text@),
{
    let cs = crate::text::chars_of(text);
    let mut digits: Vec<char> = Vec::new();
    let mut latin: Vec<Vec<char>> = Vec::new();
    let mut run: Vec<char> = Vec::new();
    let mut other: Vec<char> = Vec::new();
    let mut jamo_seen: Vec<char> = Vec::new();
    let mut words: Vec<Vec<char>> = Vec::new();
    let mut word: Vec<char> = Vec::new();
    let mut i: usize = 0;
    proof {
        assert(views(latin@) =~= Seq::<Seq<char>>::empty());
        assert(views(words@) =~= Seq::<Seq<char>>::empty());
    }
    while i < cs.len()
        invariant
            i <= cs@.len(),
            cs@ == text@,
            (WordsS {
                digits: digits@,
                latin: views(latin@),
                run: run@,
                other: other@,
                jamo: jamo_seen@,
                words: views(words@),
                word: word@,
            }) == words_prefix(cs@, i as int),
        decreases cs@.len() - i,
    {
        let c = cs[i];
        let ghost lat0 = views(latin@);
        let ghost wo0 = views(words@);
        if crate::labels::whitespace(c) {
            if run.len() > 0 {
                let r = run;
                run = Vec::new();
                latin.push(r);
                proof {
                    assert(views(latin@) =~= lat0.push(r@));
                }
            }
            if word.len() > 0 {
                let w = word;
                word = Vec::new();
                words.push(w);
                proof {
                    assert(views(words@) =~= wo0.push(w@));
                }
            }
        } else {
            if hangul_syllable(c) {
                word.push(c);
            } else if '0' <= c && c <= '9' {
                digits.push(c);
            } else if ('a' <= c && c <= 'z') || ('A' <= c && c <= 'Z') {
                run.push(c);
            } else if jamo(c) {
                jamo_seen.push(c);
            } else if alphanumeric(c) {
                other.push(c);
            }
            if !(('a' <= c && c <= 'z') || ('A' <= c && c <= 'Z')) && run.len() > 0 {
                let r = run;
                run = Vec::new();
                latin.push(r);
                proof {
                    assert(views(latin@) =~= lat0.push(r@));
                }
            }
        }
        proof {
            assert(views(words@) == views(words@));
        }
        i += 1;
    }
    if run.len() > 0 {
        let ghost lat0 = views(latin@);
        let r = run;
        latin.push(r);
        proof {
            assert(views(latin@) =~= lat0.push(r@));
        }
    }
    if word.len() > 0 {
        let ghost wo0 = views(words@);
        let w = word;
        words.push(w);
        proof {
            assert(views(words@) =~= wo0.push(w@));
        }
    }
    if digits.len() > 0 {
        return Err(Error::Unlabelable(crate::text::prefixed("korean_digits:", &digits)));
    }
    if latin.len() > 0 {
        let joined = crate::text::join_chars(&latin, ',');
        return Err(Error::Unlabelable(crate::text::prefixed("korean_latin_script:", &joined)));
    }
    if jamo_seen.len() > 0 {
        return Err(Error::Unlabelable(crate::text::prefixed("korean_jamo:", &jamo_seen)));
    }
    if other.len() > 0 {
        return Err(Error::Unlabelable(crate::text::prefixed("korean_unsupported_char:", &other)));
    }
    let out = crate::text::strings_of(&words);
    Ok(out)
}

// ---------------------------------------------------------------------------
// Post-sandhi Hangul → phones
// ---------------------------------------------------------------------------

pub open spec fn onset_phone(l: int) -> Seq<char> {
    if l == 0 {
        seq!['k']
    } else if l == 1 {
        seq!['k', '\u{348}']
    } else if l == 2 {
        seq!['n']
    } else if l == 3 {
        seq!['t']
    } else if l == 4 {
        seq!['t', '\u{348}']
    } else if l == 5 {
        seq!['\u{27e}']
    } else if l == 6 {
        seq!['m']
    } else if l == 7 {
        seq!['p']
    } else if l == 8 {
        seq!['p', '\u{348}']
    } else if l == 9 {
        seq!['s']
    } else if l == 10 {
        seq!['s', '\u{348}']
    } else if l == 11 {
        Seq::<char>::empty()
    } else if l == 12 {
        seq!['t', '\u{255}']
    } else if l == 13 {
        seq!['t', '\u{255}', '\u{348}']
    } else if l == 14 {
        seq!['t', '\u{255}', '\u{2b0}']
    } else if l == 15 {
        seq!['k', '\u{2b0}']
    } else if l == 16 {
        seq!['t', '\u{2b0}']
    } else if l == 17 {
        seq!['p', '\u{2b0}']
    } else {
        seq!['h']
    }
}

pub open spec fn vowel_phones(v: int) -> Seq<Seq<char>> {
    if v == 0 {
        seq![seq!['a']]
    } else if v == 1 {
        seq![seq!['e']]
    } else if v == 2 {
        seq![seq!['j'], seq!['a']]
    } else if v == 3 {
        seq![seq!['j'], seq!['e']]
    } else if v == 4 {
        seq![seq!['\u{28c}']]
    } else if v == 5 {
        seq![seq!['e']]
    } else if v == 6 {
        seq![seq!['j'], seq!['\u{28c}']]
    } else if v == 7 {
        seq![seq!['j'], seq!['e']]
    } else if v == 8 {
        seq![seq!['o']]
    } else if v == 9 {
        seq![seq!['w'], seq!['a']]
    } else if v == 10 {
        seq![seq!['w'], seq!['e']]
    } else if v == 11 {
        seq![seq!['w'], seq!['e']]
    } else if v == 12 {
        seq![seq!['j'], seq!['o']]
    } else if v == 13 {
        seq![seq!['u']]
    } else if v == 14 {
        seq![seq!['w'], seq!['\u{28c}']]
    } else if v == 15 {
        seq![seq!['w'], seq!['e']]
    } else if v == 16 {
        seq![seq!['w'], seq!['i']]
    } else if v == 17 {
        seq![seq!['j'], seq!['u']]
    } else if v == 18 {
        seq![seq!['\u{26f}']]
    } else if v == 19 {
        seq![seq!['\u{26f}'], seq!['i']]
    } else {
        seq![seq!['i']]
    }
}

pub open spec fn coda_phone(t: int) -> Option<Seq<char>> {
    if t == 0 {
        Some(Seq::<char>::empty())
    } else if t == 1 {
        Some(seq!['k'])
    } else if t == 4 {
        Some(seq!['n'])
    } else if t == 7 {
        Some(seq!['t'])
    } else if t == 8 {
        Some(seq!['l'])
    } else if t == 16 {
        Some(seq!['m'])
    } else if t == 17 {
        Some(seq!['p'])
    } else if t == 21 {
        Some(seq!['\u{14b}'])
    } else {
        None
    }
}

fn onset(l: usize) -> (r: Vec<char>)
    requires
        l < 19,
    ensures
        r@ == onset_phone(l as int),
{
    if l == 0 {
        copy_chars(&['k'])
    } else if l == 1 {
        copy_chars(&['k', '\u{348}'])
    } else if l == 2 {
        copy_chars(&['n'])
    } else if l == 3 {
        copy_chars(&['t'])
    } else if l == 4 {
        copy_chars(&['t', '\u{348}'])
    } else if l == 5 {
        copy_chars(&['\u{27e}'])
    } else if l == 6 {
        copy_chars(&['m'])
    } else if l == 7 {
        copy_chars(&['p'])
    } else if l == 8 {
        copy_chars(&['p', '\u{348}'])
    } else if l == 9 {
        copy_chars(&['s'])
    } else if l == 10 {
        copy_chars(&['s', '\u{348}'])
    } else if l == 11 {
        Vec::new()
    } else if l == 12 {
        copy_chars(&['t', '\u{255}'])
    } else if l == 13 {
        copy_chars(&['t', '\u{255}', '\u{348}'])
    } else if l == 14 {
        copy_chars(&['t', '\u{255}', '\u{2b0}'])
    } else if l == 15 {
        copy_chars(&['k', '\u{2b0}'])
    } else if l == 16 {
        copy_chars(&['t', '\u{2b0}'])
    } else if l == 17 {
        copy_chars(&['p', '\u{2b0}'])
    } else {
        copy_chars(&['h'])
    }
}

fn vowel_of(v: usize) -> (r: Vec<Vec<char>>)
    requires
        v < 21,
    ensures
        views(r@) == vowel_phones(v as int),
{
    let mut r: Vec<Vec<char>> = Vec::new();
    if v == 0 {
        r.push(copy_chars(&['a']));
        proof {
            assert(views(r@) =~~= vowel_phones(v as int));
        }
    } else if v == 1 {
        r.push(copy_chars(&['e']));
        proof {
            assert(views(r@) =~~= vowel_phones(v as int));
        }
    } else if v == 2 {
        r.push(copy_chars(&['j']));
        r.push(copy_chars(&['a']));
        proof {
            assert(views(r@) =~~= vowel_phones(v as int));
        }
    } else if v == 3 {
        r.push(copy_chars(&['j']));
        r.push(copy_chars(&['e']));
        proof {
            assert(views(r@) =~~= vowel_phones(v as int));
        }
    } else if v == 4 {
        r.push(copy_chars(&['\u{28c}']));
        proof {
            assert(views(r@) =~~= vowel_phones(v as int));
        }
    } else if v == 5 {
        r.push(copy_chars(&['e']));
        proof {
            assert(views(r@) =~~= vowel_phones(v as int));
        }
    } else if v == 6 {
        r.push(copy_chars(&['j']));
        r.push(copy_chars(&['\u{28c}']));
        proof {
            assert(views(r@) =~~= vowel_phones(v as int));
        }
    } else if v == 7 {
        r.push(copy_chars(&['j']));
        r.push(copy_chars(&['e']));
        proof {
            assert(views(r@) =~~= vowel_phones(v as int));
        }
    } else if v == 8 {
        r.push(copy_chars(&['o']));
        proof {
            assert(views(r@) =~~= vowel_phones(v as int));
        }
    } else if v == 9 {
        r.push(copy_chars(&['w']));
        r.push(copy_chars(&['a']));
        proof {
            assert(views(r@) =~~= vowel_phones(v as int));
        }
    } else if v == 10 {
        r.push(copy_chars(&['w']));
        r.push(copy_chars(&['e']));
        proof {
            assert(views(r@) =~~= vowel_phones(v as int));
        }
    } else if v == 11 {
        r.push(copy_chars(&['w']));
        r.push(copy_chars(&['e']));
        proof {
            assert(views(r@) =~~= vowel_phones(v as int));
        }
    } else if v == 12 {
        r.push(copy_chars(&['j']));
        r.push(copy_chars(&['o']));
        proof {
            assert(views(r@) =~~= vowel_phones(v as int));
        }
    } else if v == 13 {
        r.push(copy_chars(&['u']));
        proof {
            assert(views(r@) =~~= vowel_phones(v as int));
        }
    } else if v == 14 {
        r.push(copy_chars(&['w']));
        r.push(copy_chars(&['\u{28c}']));
        proof {
            assert(views(r@) =~~= vowel_phones(v as int));
        }
    } else if v == 15 {
        r.push(copy_chars(&['w']));
        r.push(copy_chars(&['e']));
        proof {
            assert(views(r@) =~~= vowel_phones(v as int));
        }
    } else if v == 16 {
        r.push(copy_chars(&['w']));
        r.push(copy_chars(&['i']));
        proof {
            assert(views(r@) =~~= vowel_phones(v as int));
        }
    } else if v == 17 {
        r.push(copy_chars(&['j']));
        r.push(copy_chars(&['u']));
        proof {
            assert(views(r@) =~~= vowel_phones(v as int));
        }
    } else if v == 18 {
        r.push(copy_chars(&['\u{26f}']));
        proof {
            assert(views(r@) =~~= vowel_phones(v as int));
        }
    } else if v == 19 {
        r.push(copy_chars(&['\u{26f}']));
        r.push(copy_chars(&['i']));
        proof {
            assert(views(r@) =~~= vowel_phones(v as int));
        }
    } else {
        r.push(copy_chars(&['i']));
        proof {
            assert(views(r@) =~~= vowel_phones(v as int));
        }
    }
    r
}

/// The phone of a coda (jongseong index); after the sound changes only the
/// seven neutralized codas remain, anything else is a backend bug.
fn coda(t: usize) -> (r: Option<Vec<char>>)
    ensures
        match r {
            Some(p) => coda_phone(t as int) == Some(p@),
            None => coda_phone(t as int) is None,
        },
{
    if t == 0 {
        Some(Vec::new())
    } else if t == 1 {
        Some(copy_chars(&['k']))
    } else if t == 4 {
        Some(copy_chars(&['n']))
    } else if t == 7 {
        Some(copy_chars(&['t']))
    } else if t == 8 {
        Some(copy_chars(&['l']))
    } else if t == 16 {
        Some(copy_chars(&['m']))
    } else if t == 17 {
        Some(copy_chars(&['p']))
    } else if t == 21 {
        Some(copy_chars(&['\u{14b}']))
    } else {
        None
    }
}


/// The syllable index of a precomposed Hangul syllable.
pub open spec fn syllable_index(c: char) -> int {
    (c as int) - 0xAC00
}

/// Phone-mapping state: phones so far, whether the last coda was ㄹ, and
/// whether the pronunciation was malformed.
#[verifier::ext_equal]
pub struct PhonesS {
    pub out: Seq<Seq<char>>,
    pub after_l: bool,
    pub failed: bool,
    /// The non-syllable that failed it, if that is what did.
    pub bad: Option<char>,
}

pub open spec fn phones_step(s: PhonesS, c: char) -> PhonesS {
    if s.failed {
        s
    } else if !is_hangul_syllable(c) {
        PhonesS { failed: true, bad: Some(c), ..s }
    } else {
        let code = syllable_index(c);
        let l = code / 588;
        let v = (code % 588) / 28;
        let t = code % 28;
        let on = onset_phone(l);
        let with_onset = if on.len() > 0 {
            s.out.push(
                if on == seq!['\u{27e}'] && s.after_l {
                    seq!['l']
                } else {
                    on
                },
            )
        } else {
            s.out
        };
        let with_vowel = with_onset + vowel_phones(v);
        match coda_phone(t) {
            None => PhonesS { failed: true, ..s },
            Some(cd) => PhonesS {
                out: if cd.len() > 0 {
                    with_vowel.push(cd)
                } else {
                    with_vowel
                },
                after_l: cd == seq!['l'],
                failed: false,
                bad: None,
            },
        }
    }
}

pub open spec fn phones_prefix(cs: Seq<char>, n: int) -> PhonesS
    decreases n,
{
    if n <= 0 {
        PhonesS { out: Seq::empty(), after_l: false, failed: false, bad: None }
    } else {
        phones_step(phones_prefix(cs, n - 1), cs[n - 1])
    }
}

/// The phones of one word's post-sandhi Hangul, or `None` if it holds a
/// non-syllable or a coda the sound changes should have neutralized.
pub open spec fn word_phones_spec(cs: Seq<char>) -> Option<Seq<Seq<char>>> {
    let s = phones_prefix(cs, cs.len() as int);
    if s.failed {
        None
    } else {
        Some(s.out)
    }
}

/// The backend error for a malformed pronunciation: the non-syllable and
/// the pronunciation quoted, or the pronunciation whose coda the sound
/// changes should have neutralized.
pub open spec fn word_phones_result(cs: Seq<char>) -> Result<Seq<Seq<char>>, ErrorS> {
    let s = phones_prefix(cs, cs.len() as int);
    if !s.failed {
        Ok(s.out)
    } else {
        match s.bad {
            Some(c) => Err(
                ErrorS::Synth(
                    "korean backend returned a non-syllable "@ + crate::text::char_debug(c) + " in "@
                        + crate::text::str_debug(cs),
                ),
            ),
            None => Err(
                ErrorS::Synth(
                    "korean backend left an unneutralized coda in "@ + crate::text::str_debug(cs),
                ),
            ),
        }
    }
}

/// Phones of one word's post-sandhi Hangul. A non-syllable or an
/// unneutralized coda is a backend error ([`Error::Synth`]).
pub fn word_phones(pron: &str) -> (r: Result<Vec<String>, Error>)
    ensures
        result_view(r, |v: Vec<String>| string_views(v@)) == word_phones_result(pron@),
        word_phones_spec(pron@) matches Some(p) ==> r matches Ok(v) && string_views(v@) == p,
        word_phones_spec(pron@) is None ==> r matches Err(Error::Synth(_)),
{
    let cs = crate::text::chars_of(pron);
    match phones_of(&cs) {
        Ok(v) => Ok(crate::text::strings_of(&v)),
        Err(Some(c)) => {
            let a = crate::text::debug_char(c);
            let b = crate::text::debug_quoted(pron);
            let mut m = crate::text::concat3("korean backend returned a non-syllable ", a.as_str(), " in ");
            m.append(b.as_str());
            Err(Error::Synth(m))
        },
        Err(None) => {
            let b = crate::text::debug_quoted(pron);
            let mut m = String::from_str("korean backend left an unneutralized coda in ");
            m.append(b.as_str());
            Err(Error::Synth(m))
        },
    }
}

fn phones_of(cs: &[char]) -> (r: Result<Vec<Vec<char>>, Option<char>>)
    ensures
        match r {
            Ok(v) => word_phones_spec(cs@) == Some(views(v@)) && !phones_prefix(cs@, cs@.len() as int).failed
                && phones_prefix(cs@, cs@.len() as int).out == views(v@),
            Err(b) => word_phones_spec(cs@) is None && phones_prefix(cs@, cs@.len() as int).failed
                && phones_prefix(cs@, cs@.len() as int).bad == b,
        },
{
    let mut out: Vec<Vec<char>> = Vec::new();
    let mut after_l = false;
    let mut i: usize = 0;
    proof {
        assert(views(out@) =~= Seq::<Seq<char>>::empty());
    }
    while i < cs.len()
        invariant
            i <= cs@.len(),
            (PhonesS { out: views(out@), after_l, failed: false, bad: None }) == phones_prefix(cs@, i as int),
        decreases cs@.len() - i,
    {
        let c = cs[i];
        let ghost s0 = PhonesS { out: views(out@), after_l, failed: false, bad: None };
        if !hangul_syllable(c) {
            proof {
                lemma_failed_stays(cs@, i as int + 1);
            }
            return Err(Some(c));
        }
        let code = (c as u32) - 0xAC00;
        let l = (code / 588) as usize;
        let v = ((code % 588) / 28) as usize;
        let t = (code % 28) as usize;
        proof {
            assert(syllable_index(c) == code as int);
            assert(l < 19);
        }
        let on = onset(l);
        let ghost o0 = views(out@);
        if on.len() > 0 {
            if crate::parse::is_one(&on, '\u{27e}') && after_l {
                out.push(crate::parse::single('l'));
            } else {
                out.push(on);
            }
        }
        let ghost o1 = views(out@);
        proof {
            if on@.len() > 0 {
                assert(o1 =~= o0.push(if on@ == seq!['\u{27e}'] && after_l { seq!['l'] } else { on@ }));
            } else {
                assert(o1 =~= o0);
            }
        }
        let vs = vowel_of(v);
        let mut k: usize = 0;
        while k < vs.len()
            invariant
                k <= vs@.len(),
                views(out@) == o1 + views(vs@).subrange(0, k as int),
            decreases vs@.len() - k,
        {
            let p = copy_chars(&vs[k]);
            let ghost before = views(out@);
            out.push(p);
            proof {
                assert(views(out@) =~= before.push(p@));
                assert(views(vs@).subrange(0, k + 1) =~= views(vs@).subrange(0, k as int).push(vs@[k as int]@));
                assert(o1 + views(vs@).subrange(0, k + 1) =~= (o1 + views(vs@).subrange(0, k as int)).push(p@));
            }
            k += 1;
        }
        proof {
            assert(views(vs@).subrange(0, views(vs@).len() as int) =~= views(vs@));
        }
        match coda(t) {
            None => {
                proof {
                    lemma_failed_stays(cs@, i as int + 1);
                }
                return Err(None);
            },
            Some(cd) => {
                let ghost o2 = views(out@);
                let is_l = crate::parse::is_one(&cd, 'l');
                if cd.len() > 0 {
                    out.push(cd);
                    proof {
                        assert(views(out@) =~= o2.push(cd@));
                    }
                }
                after_l = is_l;
            },
        }
        i += 1;
    }
    Ok(out)
}

proof fn lemma_failed_stays(cs: Seq<char>, n: int)
    requires
        0 < n <= cs.len(),
        phones_prefix(cs, n).failed,
    ensures
        phones_prefix(cs, cs.len() as int) == phones_prefix(cs, n),
    decreases cs.len() - n,
{
    if n < cs.len() {
        lemma_failed_stays(cs, n + 1);
    }
}


/// Labels of some words' post-sandhi pronunciations, or `None` if one of
/// them is malformed.
pub open spec fn labels_spec(prons: Seq<Seq<char>>) -> Option<LabelsS>
    decreases prons.len(),
{
    if prons.len() == 0 {
        Some(LabelsS { raw: Seq::empty(), phonemes: Seq::empty(), stress: Seq::empty(), word_spans: Seq::empty() })
    } else {
        match (labels_spec(prons.drop_last()), word_phones_spec(prons.last())) {
            (Some(prev), Some(p)) => Some(LabelsS {
                raw: crate::text::join_with(prons, ' '),
                phonemes: prev.phonemes + p,
                stress: prev.stress + Seq::new(p.len(), |i: int| Stress::Unstressed),
                word_spans: prev.word_spans.push(
                    (prev.phonemes.len() as usize, (prev.phonemes.len() + p.len()) as usize),
                ),
            }),
            _ => None,
        }
    }
}

/// Labels of some words' post-sandhi pronunciations, or the error of the
/// first malformed one.
pub open spec fn labels_result(prons: Seq<Seq<char>>) -> Result<LabelsS, ErrorS>
    decreases prons.len(),
{
    if prons.len() == 0 {
        Ok(LabelsS { raw: Seq::empty(), phonemes: Seq::empty(), stress: Seq::empty(), word_spans: Seq::empty() })
    } else {
        match labels_result(prons.drop_last()) {
            Err(e) => Err(e),
            Ok(prev) => match word_phones_result(prons.last()) {
                Err(e) => Err(e),
                Ok(p) => Ok(LabelsS {
                    raw: crate::text::join_with(prons, ' '),
                    phonemes: prev.phonemes + p,
                    stress: prev.stress + Seq::new(p.len(), |i: int| Stress::Unstressed),
                    word_spans: prev.word_spans.push(
                        (prev.phonemes.len() as usize, (prev.phonemes.len() + p.len()) as usize),
                    ),
                }),
            },
        }
    }
}

proof fn lemma_labels_agree(prons: Seq<Seq<char>>)
    ensures
        labels_result(prons) is Ok <==> labels_spec(prons) is Some,
        labels_result(prons) matches Ok(l) ==> labels_spec(prons) == Some(l),
    decreases prons.len(),
{
    if prons.len() > 0 {
        lemma_labels_agree(prons.drop_last());
    }
}

#[verifier::ext_equal]
pub struct LabelsS {
    pub raw: Seq<char>,
    pub phonemes: Seq<Seq<char>>,
    pub stress: Seq<Stress>,
    pub word_spans: Seq<(usize, usize)>,
}

impl View for Labels {
    type V = LabelsS;

    open spec fn view(&self) -> LabelsS {
        LabelsS {
            raw: self.raw@,
            phonemes: string_views(self.phonemes@),
            stress: self.stress@,
            word_spans: self.word_spans@,
        }
    }
}

fn phoneme_count_fits(n: usize, m: usize) -> (r: bool)
    ensures
        r == (n + m <= usize::MAX),
{
    n <= usize::MAX - m
}

/// Labels from the words' pronunciations: one span per word, every phone
/// unstressed, and the pronunciations joined by spaces as `raw`.
pub fn labels(prons: &[String]) -> (r: Result<Labels, Error>)
    ensures
        result_view(r, |l: Labels| l@) == labels_result(string_views(prons@)),
        labels_spec(string_views(prons@)) matches Some(l) ==> r matches Ok(v) && v@ == l,
        labels_spec(string_views(prons@)) is None ==> r matches Err(Error::Synth(_)),
{
    let ghost ps = string_views(prons@);
    let mut phonemes: Vec<String> = Vec::new();
    let mut stress: Vec<Stress> = Vec::new();
    let mut word_spans: Vec<(usize, usize)> = Vec::new();
    let mut raw_parts: Vec<Vec<char>> = Vec::new();
    let mut k: usize = 0;
    proof {
        assert(ps.subrange(0, 0) =~= Seq::<Seq<char>>::empty());
        assert(views(raw_parts@) =~= Seq::<Seq<char>>::empty());
    }
    while k < prons.len()
        invariant
            k <= prons@.len(),
            ps == string_views(prons@),
            views(raw_parts@) == ps.subrange(0, k as int),
            labels_result(ps.subrange(0, k as int)) matches Ok(l) && l.phonemes == string_views(phonemes@)
                && l.stress == stress@ && l.word_spans == word_spans@,
        decreases prons@.len() - k,
    {
        proof {
            assert(ps.subrange(0, k + 1).drop_last() =~= ps.subrange(0, k as int));
            assert(ps.subrange(0, k + 1).last() == ps[k as int]);
        }
        let p = match word_phones(prons[k].as_str()) {
            Ok(p) => p,
            Err(e) => {
                proof {
                    assert(labels_result(ps.subrange(0, k + 1)) == Err::<LabelsS, ErrorS>(e@));
                    lemma_labels_err(ps, k as int + 1);
                    assert(ps.subrange(0, ps.len() as int) =~= ps);
                    lemma_labels_agree(ps);
                }
                return Err(e);
            },
        };
        let start = phonemes.len();
        let ghost ph0 = string_views(phonemes@);
        let ghost st0 = stress@;
        let mut j: usize = 0;
        while j < p.len()
            invariant
                j <= p@.len(),
                string_views(phonemes@) == ph0 + string_views(p@).subrange(0, j as int),
                stress@ == st0 + Seq::new(j as nat, |i: int| Stress::Unstressed),
                start == ph0.len(),
            decreases p@.len() - j,
        {
            let ghost before = string_views(phonemes@);
            phonemes.push(p[j].clone());
            stress.push(Stress::Unstressed);
            proof {
                assert(string_views(phonemes@) =~= before.push(p@[j as int]@));
                assert(ph0 + string_views(p@).subrange(0, j + 1) =~= (ph0 + string_views(p@).subrange(0, j as int)).push(p@[j as int]@));
                assert(st0 + Seq::new((j + 1) as nat, |i: int| Stress::Unstressed) =~= (st0 + Seq::new(j as nat, |i: int| Stress::Unstressed)).push(Stress::Unstressed));
            }
            j += 1;
        }
        proof {
            assert(string_views(p@).subrange(0, p@.len() as int) =~= string_views(p@));
        }
        word_spans.push((start, phonemes.len()));
        let ghost rp0 = views(raw_parts@);
        raw_parts.push(crate::text::chars_of(prons[k].as_str()));
        proof {
            assert(views(raw_parts@) =~= rp0.push(ps[k as int]));
            assert(ps.subrange(0, k + 1) =~= ps.subrange(0, k as int).push(ps[k as int]));
        }
        k += 1;
    }
    proof {
        assert(ps.subrange(0, ps.len() as int) =~= ps);
        lemma_labels_raw(ps);
    }
    let raw_chars = crate::text::join_chars(&raw_parts, ' ');
    let raw = crate::text::string_of(&raw_chars);
    let r = Labels { raw, phonemes, stress, word_spans };
    proof {
        assert(r@ =~= labels_result(ps)->Ok_0);
        lemma_labels_agree(ps);
    }
    Ok(r)
}

proof fn lemma_labels_err(ps: Seq<Seq<char>>, n: int)
    requires
        0 < n <= ps.len(),
        labels_result(ps.subrange(0, n)) is Err,
    ensures
        labels_result(ps) == labels_result(ps.subrange(0, n)),
    decreases ps.len() - n,
{
    if n < ps.len() {
        assert(ps.subrange(0, n + 1).drop_last() =~= ps.subrange(0, n));
        lemma_labels_err(ps, n + 1);
    } else {
        assert(ps.subrange(0, n) =~= ps);
    }
}

proof fn lemma_labels_raw(ps: Seq<Seq<char>>)
    ensures
        labels_result(ps) matches Ok(l) ==> l.raw == crate::text::join_with(ps, ' '),
{
}

} // verus!
