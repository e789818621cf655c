//! Backend results in the common label shape ([`Phonemized`]).

use crate::error::{Error, ErrorS};
use crate::labels::{empty_phonemized, is_phoneme, phoneme_views, Phoneme, Phonemized, PhonemizedS};
use crate::parse::{parsed_wf, tiles, Parsed, ParsedS, Stress};
use crate::text::string_views;
use vstd::prelude::*;

verus! {

/// The first token of `toks` outside the label inventory, if any.
pub open spec fn first_unknown_token(toks: Seq<Seq<char>>) -> Option<Seq<char>>
    decreases toks.len(),
{
    if toks.len() == 0 {
        None
    } else if !is_phoneme(toks[0]) {
        Some(toks[0])
    } else {
        first_unknown_token(toks.subrange(1, toks.len() as int))
    }
}

/// Each token as a label, or the first that is not in the inventory.
pub fn parse_tokens(toks: &Vec<String>) -> (r: Result<Vec<Phoneme>, Error>)
    ensures
        match r {
            Ok(v) => first_unknown_token(string_views(toks@)) is None && phoneme_views(v@)
                == string_views(toks@),
            Err(e) => first_unknown_token(string_views(toks@)) matches Some(t) && e@
                == ErrorS::UnknownPhoneme(t),
        },
{
    let ghost ts = string_views(toks@);
    let mut out: Vec<Phoneme> = Vec::new();
    let mut i: usize = 0;
    proof {
        assert(ts.subrange(0, ts.len() as int) =~= ts);
    }
    while i < toks.len()
        invariant
            i <= toks@.len(),
            ts == string_views(toks@),
            phoneme_views(out@) == ts.subrange(0, i as int),
            first_unknown_token(ts) == first_unknown_token(ts.subrange(i as int, ts.len() as int)),
        decreases toks@.len() - i,
    {
        let ghost rest = ts.subrange(i as int, ts.len() as int);
        proof {
            assert(rest[0] == toks@[i as int]@);
            assert(rest.subrange(1, rest.len() as int) =~= ts.subrange(i + 1, ts.len() as int));
        }
        match Phoneme::from_text(toks[i].as_str()) {
            Ok(p) => {
                let ghost o = phoneme_views(out@);
                out.push(p);
                proof {
                    assert(phoneme_views(out@) =~= o.push(p@));
                    assert(ts.subrange(0, i + 1) =~= ts.subrange(0, i as int).push(ts[i as int]));
                }
            },
            Err(u) => {
                return Err(Error::UnknownPhoneme(u));
            },
        }
        i += 1;
    }
    proof {
        assert(ts.subrange(i as int, ts.len() as int) =~= Seq::<Seq<char>>::empty());
    }
    Ok(out)
}

// ---------------------------------------------------------------------------
// eSpeak
// ---------------------------------------------------------------------------

/// An eSpeak tone code token (`1`–`7`) and its number.
pub open spec fn tone_digit(p: Seq<char>) -> Option<u8> {
    if p.len() != 1 {
        None
    } else {
        match p[0] {
            '1' => Some(1u8),
            '2' => Some(2u8),
            '3' => Some(3u8),
            '4' => Some(4u8),
            '5' => Some(5u8),
            '6' => Some(6u8),
            '7' => Some(7u8),
            _ => None,
        }
    }
}

/// An eSpeak tone code is a single digit from 1 to 7, and it gives the tone
/// number that digit writes.
pub proof fn law_tone_code_is_its_digit(p: Seq<char>)
    ensures
        tone_digit(p) is Some <==> (p.len() == 1 && '1' <= p[0] <= '7'),
        tone_digit(p) matches Some(t) ==> t as int == p[0] as int - '0' as int,
{
}

fn tone_code(p: &[char]) -> (r: Option<u8>)
    ensures
        r == tone_digit(p@),
{
    if p.len() != 1 {
        return None;
    }
    match p[0] {
        '1' => Some(1u8),
        '2' => Some(2u8),
        '3' => Some(3u8),
        '4' => Some(4u8),
        '5' => Some(5u8),
        '6' => Some(6u8),
        '7' => Some(7u8),
        _ => None,
    }
}

/// Labels assembled so far from an eSpeak parse, or the refusal.
#[verifier::ext_equal]
pub struct EspS {
    pub ph: Seq<Seq<char>>,
    pub stress: Seq<Stress>,
    pub tone: Seq<Option<u8>>,
    pub spans: Seq<(usize, usize)>,
    pub err: Option<ErrorS>,
}

/// One more parsed phone of a word that started at `ws`. With tones, a tone
/// code attaches to the phone before it in the same word (eSpeak appends it
/// to its bearing phone, before any coda); a code with no phone, or after a
/// phone that already has one, is refused. Every other phone is a label.
pub open spec fn esp_phone(s: EspS, p: Seq<char>, st: Stress, ws: int, tones: bool) -> EspS {
    if s.err is Some {
        s
    } else if tones && tone_digit(p) is Some {
        if s.ph.len() == ws || s.tone.last() is Some {
            EspS { err: Some(ErrorS::Unlabelable("espeak_unattached_tone:"@ + p)), ..s }
        } else {
            EspS { tone: s.tone.update(s.tone.len() - 1, tone_digit(p)), ..s }
        }
    } else if !is_phoneme(p) {
        EspS { err: Some(ErrorS::UnknownPhoneme(p)), ..s }
    } else {
        EspS {
            ph: s.ph.push(p),
            stress: s.stress.push(st),
            tone: if tones {
                s.tone.push(None)
            } else {
                s.tone
            },
            ..s
        }
    }
}

pub open spec fn esp_phones(s: EspS, parsed: ParsedS, a: int, i: int, ws: int, tones: bool) -> EspS
    decreases i - a,
{
    if i <= a {
        s
    } else {
        esp_phone(
            esp_phones(s, parsed, a, i - 1, ws, tones),
            parsed.phonemes[i - 1],
            parsed.stress[i - 1],
            ws,
            tones,
        )
    }
}

/// Word `k` of the parse; it keeps a span if any label came of it.
pub open spec fn esp_word(s: EspS, parsed: ParsedS, k: int, tones: bool) -> EspS {
    let a = parsed.word_spans[k].0 as int;
    let b = parsed.word_spans[k].1 as int;
    let ws = s.ph.len() as int;
    let s2 = esp_phones(s, parsed, a, b, ws, tones);
    if s2.err is None && s2.ph.len() > ws {
        EspS { spans: s2.spans.push((ws as usize, s2.ph.len() as usize)), ..s2 }
    } else {
        s2
    }
}

pub open spec fn esp_init() -> EspS {
    EspS {
        ph: Seq::empty(),
        stress: Seq::empty(),
        tone: Seq::empty(),
        spans: Seq::empty(),
        err: None,
    }
}

pub open spec fn esp_words(parsed: ParsedS, k: int, tones: bool) -> EspS
    decreases k,
{
    if k <= 0 {
        esp_init()
    } else {
        esp_word(esp_words(parsed, k - 1, tones), parsed, k - 1, tones)
    }
}

/// An eSpeak utterance's labels: `raw` as printed, the parse's phones as
/// labels per word, and (for a tone language) each tone code moved onto the
/// phone that bears it.
pub open spec fn espeak_phonemized_spec(raw: Seq<char>, parsed: ParsedS, tones: bool) -> Result<PhonemizedS, ErrorS> {
    let s = esp_words(parsed, parsed.word_spans.len() as int, tones);
    match s.err {
        Some(e) => Err(e),
        None => Ok(
            PhonemizedS {
                raw,
                phonemes: s.ph,
                stress: s.stress,
                word_spans: s.spans,
                tone: s.tone,
                ..empty_phonemized()
            },
        ),
    }
}

proof fn lemma_esp_phones_err(s: EspS, parsed: ParsedS, a: int, i: int, j: int, ws: int, tones: bool)
    requires
        a <= i <= j,
        esp_phones(s, parsed, a, i, ws, tones).err is Some,
    ensures
        esp_phones(s, parsed, a, j, ws, tones) == esp_phones(s, parsed, a, i, ws, tones),
    decreases j - i,
{
    if i < j {
        lemma_esp_phones_err(s, parsed, a, i, j - 1, ws, tones);
    }
}

proof fn lemma_esp_words_err(parsed: ParsedS, k: int, m: int, tones: bool)
    requires
        0 <= k <= m,
        esp_words(parsed, k, tones).err is Some,
    ensures
        esp_words(parsed, m, tones).err == esp_words(parsed, k, tones).err,
    decreases m - k,
{
    if k < m {
        lemma_esp_words_err(parsed, k, m - 1, tones);
        let s = esp_words(parsed, m - 1, tones);
        let a = parsed.word_spans[m - 1].0 as int;
        let b = parsed.word_spans[m - 1].1 as int;
        if a <= b {
            lemma_esp_phones_err(s, parsed, a, a, b, s.ph.len() as int, tones);
        }
    }
}

/// Labels whose stress (and, for a tone language, tone) runs parallel to
/// the phones, and whose word spans tile them.
pub open spec fn aligned(p: PhonemizedS, tones: bool) -> bool {
    &&& p.stress.len() == p.phonemes.len()
    &&& tiles(p.word_spans, p.phonemes.len() as int)
    &&& tones ==> p.tone.len() == p.phonemes.len()
    &&& !tones ==> p.tone.len() == 0
}

/// The labels of an eSpeak trace's parse: `raw` kept as printed, each
/// parsed phone a label, and with `has_tones` each tone code attached to the
/// phone before it (refused when there is none, or it already has one).
pub fn espeak_phonemized(raw: String, parsed: Parsed, has_tones: bool) -> (r: Result<Phonemized, Error>)
    requires
        parsed_wf(parsed@),
    ensures
        crate::error::result_view(r, |p: Phonemized| p@) == espeak_phonemized_spec(raw@, parsed@, has_tones),
        r matches Ok(p) ==> aligned(p@, has_tones),
{
    let ghost pv = parsed@;
    let mut phonemes: Vec<Phoneme> = Vec::new();
    let mut stress: Vec<Stress> = Vec::new();
    let mut tone: Vec<Option<u8>> = Vec::new();
    let mut spans: Vec<(usize, usize)> = Vec::new();
    let nw = parsed.word_spans.len();
    let mut k: usize = 0;
    while k < nw
        invariant
            k <= nw,
            nw == pv.word_spans.len(),
            pv == parsed@,
            parsed_wf(pv),
            esp_words(pv, k as int, has_tones) == (EspS {
                ph: phoneme_views(phonemes@),
                stress: stress@,
                tone: tone@,
                spans: spans@,
                err: None,
            }),
            stress@.len() == phonemes@.len(),
            has_tones ==> tone@.len() == phonemes@.len(),
            !has_tones ==> tone@.len() == 0,
            tiles(spans@, phonemes@.len() as int),
        decreases nw - k,
    {
        let a = parsed.word_spans[k].0;
        let b = parsed.word_spans[k].1;
        proof {
            crate::parse::lemma_tiles_bounds(pv.word_spans, pv.phonemes.len() as int, k as int);
        }
        let ws = phonemes.len();
        let ghost s0 = esp_words(pv, k as int, has_tones);
        let mut i: usize = a;
        while i < b
            invariant
                a <= i <= b,
                k < nw,
                nw == pv.word_spans.len(),
                a == pv.word_spans[k as int].0,
                b == pv.word_spans[k as int].1,
                s0 == esp_words(pv, k as int, has_tones),
                b <= pv.phonemes.len(),
                pv == parsed@,
                parsed_wf(pv),
                ws == s0.ph.len(),
                ws <= phonemes@.len(),
                tiles(spans@, ws as int),
                esp_phones(s0, pv, a as int, i as int, ws as int, has_tones) == (EspS {
                    ph: phoneme_views(phonemes@),
                    stress: stress@,
                    tone: tone@,
                    spans: spans@,
                    err: None,
                }),
                stress@.len() == phonemes@.len(),
                has_tones ==> tone@.len() == phonemes@.len(),
                !has_tones ==> tone@.len() == 0,
            decreases b - i,
        {
            let phone = crate::text::chars_of(parsed.phonemes[i].as_str());
            proof {
                assert(phone@ == pv.phonemes[i as int]);
            }
            let code = if has_tones {
                tone_code(&phone)
            } else {
                None
            };
            let ghost cur = esp_phones(s0, pv, a as int, i as int, ws as int, has_tones);
            match code {
                Some(d) => {
                    if phonemes.len() == ws || tone[tone.len() - 1].is_some() {
                        proof {
                            assert(esp_phones(s0, pv, a as int, i + 1, ws as int, has_tones).err is Some);
                            lemma_esp_phones_err(s0, pv, a as int, i + 1, b as int, ws as int, has_tones);
                            assert(esp_words(pv, k + 1, has_tones).err is Some);
                            lemma_esp_words_err(pv, k + 1, nw as int, has_tones);
                        }
                        return Err(Error::Unlabelable(crate::text::prefixed("espeak_unattached_tone:", &phone)));
                    }
                    let t = tone.len() - 1;
                    tone.set(t, Some(d));
                },
                None => {
                    match Phoneme::from_chars(&phone) {
                        Ok(p) => {
                            let ghost o = phoneme_views(phonemes@);
                            phonemes.push(p);
                            stress.push(parsed.stress[i]);
                            if has_tones {
                                tone.push(None);
                            }
                            proof {
                                assert(phoneme_views(phonemes@) =~= o.push(p@));
                            }
                        },
                        Err(u) => {
                            proof {
                                assert(esp_phones(s0, pv, a as int, i + 1, ws as int, has_tones).err is Some);
                                lemma_esp_phones_err(s0, pv, a as int, i + 1, b as int, ws as int, has_tones);
                                assert(esp_words(pv, k + 1, has_tones).err is Some);
                                lemma_esp_words_err(pv, k + 1, nw as int, has_tones);
                            }
                            return Err(Error::UnknownPhoneme(u));
                        },
                    }
                },
            }
            proof {
                assert(esp_phones(s0, pv, a as int, i + 1, ws as int, has_tones) =~= (EspS {
                    ph: phoneme_views(phonemes@),
                    stress: stress@,
                    tone: tone@,
                    spans: spans@,
                    err: None,
                }));
            }
            i += 1;
        }
        let end = phonemes.len();
        if end > ws {
            proof {
                crate::parse::lemma_tiles_push(spans@, ws as int, end as int);
            }
            spans.push((ws, end));
        }
        proof {
            assert(esp_words(pv, k + 1, has_tones) =~= (EspS {
                ph: phoneme_views(phonemes@),
                stress: stress@,
                tone: tone@,
                spans: spans@,
                err: None,
            }));
        }
        k += 1;
    }
    let r = Phonemized {
        raw,
        phonemes,
        stress,
        word_spans: spans,
        syllables: Vec::new(),
        tone,
        pitch: Vec::new(),
        accent_withheld: None,
    };
    proof {
        assert(r@ =~= espeak_phonemized_spec(raw@, pv, has_tones)->Ok_0);
    }
    Ok(r)
}


/// The maximal runs of non-whitespace found so far, and the open run.
pub open spec fn field_runs_prefix(cs: Seq<char>, n: int) -> (Seq<Seq<char>>, Seq<char>)
    decreases n,
{
    if n <= 0 {
        (Seq::empty(), Seq::empty())
    } else {
        let (runs, cur) = field_runs_prefix(cs, n - 1);
        let c = cs[n - 1];
        if !crate::labels::is_whitespace(c) {
            (runs, cur.push(c))
        } else if cur.len() > 0 {
            (runs.push(cur), Seq::empty())
        } else {
            (runs, cur)
        }
    }
}

/// The whitespace-separated fields of `cs` (`split_whitespace`).
pub open spec fn fields(cs: Seq<char>) -> Seq<Seq<char>> {
    let (runs, cur) = field_runs_prefix(cs, cs.len() as int);
    if cur.len() > 0 {
        runs.push(cur)
    } else {
        runs
    }
}

/// The fields of the first `k` lines, in order.
pub open spec fn all_fields(lines: Seq<Seq<char>>, k: int) -> Seq<Seq<char>>
    decreases k,
{
    if k <= 0 {
        Seq::empty()
    } else {
        all_fields(lines, k - 1) + fields(lines[k - 1])
    }
}

/// Clauses joined into one line: every field of every clause, single
/// spaces between.
pub open spec fn joined(lines: Seq<Seq<char>>) -> Seq<char> {
    crate::text::join_with(all_fields(lines, lines.len() as int), ' ')
}

fn push_fields(out: &mut Vec<Vec<char>>, line: &[char])
    ensures
        crate::parse::views(final(out)@) == crate::parse::views(old(out)@) + fields(line@),
{
    let ghost o = crate::parse::views(out@);
    let mut cur: Vec<char> = Vec::new();
    let mut i: usize = 0;
    let ghost base = out@.len();
    proof {
        assert(crate::parse::views(out@) =~= o + Seq::<Seq<char>>::empty());
    }
    while i < line.len()
        invariant
            i <= line@.len(),
            ({
                let (runs, c) = field_runs_prefix(line@, i as int);
                &&& crate::parse::views(out@) == o + runs
                &&& cur@ == c
            }),
        decreases line@.len() - i,
    {
        let c = line[i];
        let ghost (runs0, _) = field_runs_prefix(line@, i as int);
        if !crate::labels::whitespace(c) {
            cur.push(c);
        } else if cur.len() > 0 {
            let ghost r0 = crate::parse::views(out@);
            let done = cur;
            cur = Vec::new();
            out.push(done);
            proof {
                assert(crate::parse::views(out@) =~= r0.push(done@));
                assert(o + runs0.push(done@) =~= (o + runs0).push(done@));
            }
        }
        i += 1;
    }
    if cur.len() > 0 {
        let ghost r0 = crate::parse::views(out@);
        let ghost (runs0, _) = field_runs_prefix(line@, i as int);
        let done = cur;
        out.push(done);
        proof {
            assert(crate::parse::views(out@) =~= r0.push(done@));
            assert(o + runs0.push(done@) =~= (o + runs0).push(done@));
        }
    }
}

/// Clauses as one line: their whitespace-separated fields joined by single
/// spaces.
pub fn join_clauses(lines: &Vec<String>) -> (r: String)
    ensures
        r@ == joined(string_views(lines@)),
{
    let ghost ls = string_views(lines@);
    let mut words: Vec<Vec<char>> = Vec::new();
    let mut k: usize = 0;
    proof {
        assert(crate::parse::views(words@) =~= Seq::<Seq<char>>::empty());
    }
    while k < lines.len()
        invariant
            k <= lines@.len(),
            ls == string_views(lines@),
            crate::parse::views(words@) == all_fields(ls, k as int),
        decreases lines@.len() - k,
    {
        let line = crate::text::chars_of(lines[k].as_str());
        push_fields(&mut words, &line);
        k += 1;
    }
    let j = crate::text::join_chars(&words, ' ');
    crate::text::string_of(&j)
}

/// The languages whose eSpeak traces carry tone codes: Cantonese and
/// Vietnamese.
pub open spec fn is_tone_language(language: Seq<char>) -> bool {
    language == seq!['y', 'u', 'e'] || language == seq!['v', 'i']
}

/// Whether eSpeak's resolved voice language carries tone codes.
pub fn tone_language(language: &str) -> (r: bool)
    ensures
        r == is_tone_language(language@),
{
    let cs = crate::text::chars_of(language);
    crate::parse::chars_eq(&cs, &['y', 'u', 'e']) || crate::parse::chars_eq(&cs, &['v', 'i'])
}

/// The labels of one eSpeak synthesis: each clause's raw and phone-framed
/// renderings joined into one line, the framed line parsed for the voice's
/// resolved language, and assembled with tones for a tone language.
pub open spec fn espeak_labels_spec(raw: Seq<Seq<char>>, framed: Seq<Seq<char>>, language: Seq<char>) -> Result<PhonemizedS, ErrorS> {
    espeak_phonemized_spec(
        joined(raw),
        crate::parse::parse_framed_spec(joined(framed), language),
        is_tone_language(language),
    )
}

/// Labels from the clauses eSpeak rendered (raw IPA and phone-framed IPA of
/// each) and the resolved language of the voice.
pub fn espeak_labels(raw: &Vec<String>, framed: &Vec<String>, language: &str) -> (r: Result<Phonemized, Error>)
    ensures
        crate::error::result_view(r, |p: Phonemized| p@) == espeak_labels_spec(string_views(raw@), string_views(framed@), language@),
        r matches Ok(p) ==> aligned(p@, is_tone_language(language@)),
{
    let r = join_clauses(raw);
    let f = join_clauses(framed);
    let parsed = crate::parse::parse_framed(f.as_str(), language);
    espeak_phonemized(r, parsed, tone_language(language))
}

/// Text as one utterance: line breaks read as spaces.
pub open spec fn one_line(text: Seq<char>) -> Seq<char> {
    text.map_values(|c: char| if c == '\n' || c == '\r' { ' ' } else { c })
}

/// The engine is handed one line: the flattened text holds no line break,
/// has the text's length, and flattening it again changes nothing, so a
/// text with line breaks reaches the engine exactly as the same text with
/// spaces in their place.
pub proof fn law_one_utterance(text: Seq<char>)
    ensures
        one_line(text).len() == text.len(),
        forall|i: int| 0 <= i < text.len() ==> #[trigger] one_line(text)[i] != '\n' && one_line(text)[i] != '\r',
        one_line(one_line(text)) == one_line(text),
{
    assert(one_line(one_line(text)) =~= one_line(text));
}

/// `text` with every `\n` and `\r` replaced by a space.
pub fn flatten_lines(text: &str) -> (r: String)
    ensures
        r@ == one_line(text@),
{
    let cs = crate::text::chars_of(text);
    let mut out: Vec<char> = Vec::new();
    let mut i: usize = 0;
    while i < cs.len()
        invariant
            i <= cs@.len(),
            out@ == one_line(cs@.subrange(0, i as int)),
        decreases cs@.len() - i,
    {
        let c = cs[i];
        out.push(if c == '\n' || c == '\r' { ' ' } else { c });
        proof {
            assert(one_line(cs@.subrange(0, i + 1)) =~= one_line(cs@.subrange(0, i as int)).push(
                if c == '\n' || c == '\r' { ' ' } else { c },
            ));
        }
        i += 1;
    }
    proof {
        assert(cs@.subrange(0, cs@.len() as int) =~= cs@);
    }
    crate::text::string_of(&out)
}

// ---------------------------------------------------------------------------
// Korean and Thai
// ---------------------------------------------------------------------------

/// Korean labels in the common shape: no tone, the post-sandhi Hangul as
/// `raw`.
pub open spec fn korean_phonemized_spec(l: crate::korean::LabelsS) -> Result<PhonemizedS, ErrorS> {
    match first_unknown_token(l.phonemes) {
        Some(t) => Err(ErrorS::UnknownPhoneme(t)),
        None => Ok(
            PhonemizedS {
                raw: l.raw,
                phonemes: l.phonemes,
                stress: l.stress,
                word_spans: l.word_spans,
                ..empty_phonemized()
            },
        ),
    }
}

/// Korean labels in the common shape.
pub fn korean_phonemized(labels: crate::korean::Labels) -> (r: Result<Phonemized, Error>)
    ensures
        crate::error::result_view(r, |p: Phonemized| p@) == korean_phonemized_spec(labels@),
{
    let phonemes = match parse_tokens(&labels.phonemes) {
        Ok(p) => p,
        Err(e) => return Err(e),
    };
    let r = Phonemized {
        raw: labels.raw,
        phonemes,
        stress: labels.stress,
        word_spans: labels.word_spans,
        syllables: Vec::new(),
        tone: Vec::new(),
        pitch: Vec::new(),
        accent_withheld: None,
    };
    proof {
        assert(r@ =~= korean_phonemized_spec(labels@)->Ok_0);
    }
    Ok(r)
}

/// Thai labels in the common shape: vachana's IPA as `raw`, tone per phone.
pub open spec fn thai_phonemized_spec(l: crate::thai::LabelsS) -> Result<PhonemizedS, ErrorS> {
    match first_unknown_token(l.phonemes) {
        Some(t) => Err(ErrorS::UnknownPhoneme(t)),
        None => Ok(
            PhonemizedS {
                raw: l.raw,
                phonemes: l.phonemes,
                stress: l.stress,
                word_spans: l.word_spans,
                tone: l.tone,
                ..empty_phonemized()
            },
        ),
    }
}

/// Thai labels in the common shape.
pub fn thai_phonemized(labels: crate::thai::Labels) -> (r: Result<Phonemized, Error>)
    ensures
        crate::error::result_view(r, |p: Phonemized| p@) == thai_phonemized_spec(labels@),
{
    let phonemes = match parse_tokens(&labels.phonemes) {
        Ok(p) => p,
        Err(e) => return Err(e),
    };
    let r = Phonemized {
        raw: labels.raw,
        phonemes,
        stress: labels.stress,
        word_spans: labels.word_spans,
        syllables: Vec::new(),
        tone: labels.tone,
        pitch: Vec::new(),
        accent_withheld: None,
    };
    proof {
        assert(string_views(labels.phonemes@) == labels@.phonemes);
        assert(r@ =~= thai_phonemized_spec(labels@)->Ok_0);
    }
    Ok(r)
}


// ---------------------------------------------------------------------------
// Hindi
// ---------------------------------------------------------------------------

/// Every syllable of the word lies within its phones, and its stress runs
/// parallel to them.
pub open spec fn word_wf(w: crate::hindi::WordS) -> bool {
    &&& w.stress.len() == w.phonemes.len()
    &&& forall|j: int|
        0 <= j < w.syllables.len() ==> {
            let s = #[trigger] w.syllables[j];
            &&& s.start <= w.phonemes.len()
            &&& s.end <= w.phonemes.len()
            &&& s.nucleus <= w.phonemes.len()
        }
}

/// A syllable moved `o` phones along.
pub open spec fn shifted(s: crate::hindi::Syllable, o: int) -> crate::hindi::Syllable {
    crate::hindi::Syllable {
        start: (s.start + o) as usize,
        end: (s.end + o) as usize,
        nucleus: (s.nucleus + o) as usize,
        ..s
    }
}

pub open spec fn hw_phones(ws: Seq<crate::hindi::WordS>, k: int) -> Seq<Seq<char>>
    decreases k,
{
    if k <= 0 {
        Seq::empty()
    } else {
        hw_phones(ws, k - 1) + ws[k - 1].phonemes
    }
}

pub open spec fn hw_stress(ws: Seq<crate::hindi::WordS>, k: int) -> Seq<Stress>
    decreases k,
{
    if k <= 0 {
        Seq::empty()
    } else {
        hw_stress(ws, k - 1) + ws[k - 1].stress
    }
}

pub open spec fn hw_syllables(ws: Seq<crate::hindi::WordS>, k: int) -> Seq<crate::hindi::Syllable>
    decreases k,
{
    if k <= 0 {
        Seq::empty()
    } else {
        let o = hw_phones(ws, k - 1).len() as int;
        hw_syllables(ws, k - 1) + ws[k - 1].syllables.map_values(
            |s: crate::hindi::Syllable| shifted(s, o),
        )
    }
}

pub open spec fn hw_spans(ws: Seq<crate::hindi::WordS>, k: int) -> Seq<(usize, usize)>
    decreases k,
{
    if k <= 0 {
        Seq::empty()
    } else {
        hw_spans(ws, k - 1).push(
            (hw_phones(ws, k - 1).len() as usize, hw_phones(ws, k).len() as usize),
        )
    }
}

/// Per-word Hindi labels flattened into the common shape: one span per
/// word, syllables moved to absolute positions, and the words' phones
/// spelled out and joined by spaces as `raw`.
pub open spec fn hindi_phonemized_spec(ws: Seq<crate::hindi::WordS>) -> Result<PhonemizedS, ErrorS> {
    let n = ws.len() as int;
    match first_unknown_token(hw_phones(ws, n)) {
        Some(t) => Err(ErrorS::UnknownPhoneme(t)),
        None => Ok(
            PhonemizedS {
                raw: crate::text::join_with(
                    ws.map_values(|w: crate::hindi::WordS| crate::labels::spelling(w.phonemes)),
                    ' ',
                ),
                phonemes: hw_phones(ws, n),
                stress: hw_stress(ws, n),
                word_spans: hw_spans(ws, n),
                syllables: hw_syllables(ws, n),
                ..empty_phonemized()
            },
        ),
    }
}

fn spelled_word(w: &Vec<String>) -> (r: Vec<char>)
    ensures
        r@ == crate::labels::spelling(string_views(w@)),
{
    let ghost ws = string_views(w@);
    let mut r: Vec<char> = Vec::new();
    let mut k: usize = 0;
    while k < w.len()
        invariant
            k <= w@.len(),
            ws == string_views(w@),
            r@ == crate::labels::spelling(ws.subrange(0, k as int)),
        decreases w@.len() - k,
    {
        let cs = crate::text::chars_of(w[k].as_str());
        let ghost r0 = r@;
        let mut j: usize = 0;
        while j < cs.len()
            invariant
                j <= cs@.len(),
                r@ == r0 + cs@.subrange(0, j as int),
            decreases cs@.len() - j,
        {
            r.push(cs[j]);
            proof {
                assert(r0 + cs@.subrange(0, j + 1) =~= (r0 + cs@.subrange(0, j as int)).push(cs@[j as int]));
            }
            j += 1;
        }
        proof {
            assert(cs@.subrange(0, cs@.len() as int) =~= cs@);
            assert(ws.subrange(0, k + 1).drop_last() =~= ws.subrange(0, k as int));
        }
        k += 1;
    }
    proof {
        assert(ws.subrange(0, ws.len() as int) =~= ws);
    }
    r
}

/// Flatten per-word Hindi labels into the common shape.
pub fn hindi_phonemized(words: Vec<crate::hindi::Word>) -> (r: Result<Phonemized, Error>)
    requires
        forall|k: int| 0 <= k < words@.len() ==> word_wf(#[trigger] words@[k]@),
    ensures
        crate::error::result_view(r, |p: Phonemized| p@) == hindi_phonemized_spec(crate::hindi::word_views(words@)),
{
    let ghost ws = crate::hindi::word_views(words@);
    let mut all: Vec<String> = Vec::new();
    let mut stress: Vec<Stress> = Vec::new();
    let mut spans: Vec<(usize, usize)> = Vec::new();
    let mut syllables: Vec<crate::hindi::Syllable> = Vec::new();
    let mut raws: Vec<Vec<char>> = Vec::new();
    let mut k: usize = 0;
    while k < words.len()
        invariant
            k <= words@.len(),
            ws == crate::hindi::word_views(words@),
            forall|m: int| 0 <= m < words@.len() ==> word_wf(#[trigger] words@[m]@),
            string_views(all@) == hw_phones(ws, k as int),
            stress@ == hw_stress(ws, k as int),
            spans@ == hw_spans(ws, k as int),
            syllables@ == hw_syllables(ws, k as int),
            crate::parse::views(raws@) == ws.subrange(0, k as int).map_values(
                |w: crate::hindi::WordS| crate::labels::spelling(w.phonemes),
            ),
        decreases words@.len() - k,
    {
        let w = &words[k];
        let start = all.len();
        let ghost a0 = string_views(all@);
        let mut j: usize = 0;
        while j < w.phonemes.len()
            invariant
                j <= w.phonemes@.len(),
                string_views(all@) == a0 + string_views(w.phonemes@).subrange(0, j as int),
            decreases w.phonemes@.len() - j,
        {
            let c = w.phonemes[j].clone();
            let ghost prev = string_views(all@);
            all.push(c);
            proof {
                assert(c@ == string_views(w.phonemes@)[j as int]);
                assert(string_views(all@) =~= prev.push(c@));
                assert(string_views(w.phonemes@).subrange(0, j + 1) =~= string_views(w.phonemes@).subrange(0, j as int).push(c@));
                assert(string_views(all@) =~= a0 + string_views(w.phonemes@).subrange(0, j + 1));
            }
            j += 1;
        }
        proof {
            assert(string_views(w.phonemes@).subrange(0, w.phonemes@.len() as int) =~= string_views(w.phonemes@));
            assert(ws[k as int] == w@);
            assert(string_views(all@) == hw_phones(ws, k + 1));
        }
        let ghost s0 = stress@;
        let mut j: usize = 0;
        while j < w.stress.len()
            invariant
                j <= w.stress@.len(),
                stress@ == s0 + w.stress@.subrange(0, j as int),
            decreases w.stress@.len() - j,
        {
            stress.push(w.stress[j]);
            proof {
                assert(stress@ =~= s0 + w.stress@.subrange(0, j + 1));
            }
            j += 1;
        }
        proof {
            assert(w.stress@.subrange(0, w.stress@.len() as int) =~= w.stress@);
        }
        let ghost y0 = syllables@;
        let ghost o = start as int;
        let total = all.len();
        let mut j: usize = 0;
        while j < w.syllables.len()
            invariant
                j <= w.syllables@.len(),
                start + w.phonemes@.len() == all@.len(),
                total == all@.len(),
                o == start as int,
                word_wf(w@),
                syllables@ == y0 + w.syllables@.subrange(0, j as int).map_values(
                    |s: crate::hindi::Syllable| shifted(s, o),
                ),
            decreases w.syllables@.len() - j,
        {
            let s = w.syllables[j];
            proof {
                assert(w@.syllables[j as int] == s);
            }
            syllables.push(
                crate::hindi::Syllable {
                    start: start + s.start,
                    end: start + s.end,
                    nucleus: start + s.nucleus,
                    moras: s.moras,
                    stressed: s.stressed,
                },
            );
            proof {
                assert(syllables@ =~= y0 + w.syllables@.subrange(0, j + 1).map_values(
                    |s: crate::hindi::Syllable| shifted(s, o),
                ));
            }
            j += 1;
        }
        proof {
            assert(w.syllables@.subrange(0, w.syllables@.len() as int) =~= w.syllables@);
        }
        spans.push((start, all.len()));
        let sp = spelled_word(&w.phonemes);
        let ghost r0 = crate::parse::views(raws@);
        raws.push(sp);
        proof {
            assert(crate::parse::views(raws@) =~= r0.push(sp@));
            assert(ws.subrange(0, k + 1).map_values(
                |w: crate::hindi::WordS| crate::labels::spelling(w.phonemes),
            ) =~= ws.subrange(0, k as int).map_values(
                |w: crate::hindi::WordS| crate::labels::spelling(w.phonemes),
            ).push(crate::labels::spelling(ws[k as int].phonemes)));
            assert(stress@ =~= hw_stress(ws, k + 1));
            assert(syllables@ =~= hw_syllables(ws, k + 1));
            assert(spans@ =~= hw_spans(ws, k + 1));
        }
        k += 1;
    }
    let phonemes = match parse_tokens(&all) {
        Ok(p) => p,
        Err(e) => return Err(e),
    };
    let raw_chars = crate::text::join_chars(&raws, ' ');
    let r = Phonemized {
        raw: crate::text::string_of(&raw_chars),
        phonemes,
        stress,
        word_spans: spans,
        syllables,
        tone: Vec::new(),
        pitch: Vec::new(),
        accent_withheld: None,
    };
    proof {
        assert(ws.subrange(0, ws.len() as int) =~= ws);
        assert(r@ =~= hindi_phonemized_spec(ws)->Ok_0);
    }
    Ok(r)
}


// ---------------------------------------------------------------------------
// Japanese
// ---------------------------------------------------------------------------

/// Japanese labels in the common shape: one word span for the utterance
/// (the front end's word boundaries are not part of the label), no stress,
/// the pitch factor, and the native phones joined by spaces as `raw`.
pub open spec fn japanese_phonemized_spec(l: crate::japanese::LabelsS) -> Result<PhonemizedS, ErrorS> {
    let n = l.phonemes.len();
    match first_unknown_token(l.phonemes) {
        Some(t) => Err(ErrorS::UnknownPhoneme(t)),
        None => Ok(
            PhonemizedS {
                raw: crate::text::join_with(l.native_phones, ' '),
                phonemes: l.phonemes,
                stress: Seq::new(n, |i: int| Stress::Unstressed),
                word_spans: if n == 0 {
                    Seq::empty()
                } else {
                    seq![(0usize, n as usize)]
                },
                pitch: l.pitch,
                accent_withheld: l.accent_withheld,
                ..empty_phonemized()
            },
        ),
    }
}

fn to_char_vecs(v: &Vec<String>) -> (r: Vec<Vec<char>>)
    ensures
        crate::parse::views(r@) == string_views(v@),
{
    let mut r: Vec<Vec<char>> = Vec::new();
    let mut k: usize = 0;
    while k < v.len()
        invariant
            k <= v@.len(),
            crate::parse::views(r@) == string_views(v@).subrange(0, k as int),
        decreases v@.len() - k,
    {
        let cs = crate::text::chars_of(v[k].as_str());
        let ghost r0 = crate::parse::views(r@);
        r.push(cs);
        proof {
            assert(crate::parse::views(r@) =~= r0.push(cs@));
            assert(string_views(v@).subrange(0, k + 1) =~= string_views(v@).subrange(0, k as int).push(v@[k as int]@));
        }
        k += 1;
    }
    proof {
        assert(string_views(v@).subrange(0, v@.len() as int) =~= string_views(v@));
    }
    r
}

/// Japanese labels in the common shape.
pub fn japanese_phonemized(labels: crate::japanese::Labels) -> (r: Result<Phonemized, Error>)
    ensures
        crate::error::result_view(r, |p: Phonemized| p@) == japanese_phonemized_spec(labels@),
        r matches Ok(p) ==> aligned(p@, false),
{
    let phonemes = match parse_tokens(&labels.phonemes) {
        Ok(p) => p,
        Err(e) => return Err(e),
    };
    let n = phonemes.len();
    let native = to_char_vecs(&labels.native_phones);
    let raw = crate::text::join_chars(&native, ' ');
    let mut stress: Vec<Stress> = Vec::new();
    let mut i: usize = 0;
    while i < n
        invariant
            i <= n,
            stress@ == Seq::new(i as nat, |j: int| Stress::Unstressed),
        decreases n - i,
    {
        stress.push(Stress::Unstressed);
        proof {
            assert(stress@ =~= Seq::new((i + 1) as nat, |j: int| Stress::Unstressed));
        }
        i += 1;
    }
    let mut spans: Vec<(usize, usize)> = Vec::new();
    if n > 0 {
        spans.push((0, n));
    }
    let r = Phonemized {
        raw: crate::text::string_of(&raw),
        phonemes,
        stress,
        word_spans: spans,
        syllables: Vec::new(),
        tone: Vec::new(),
        pitch: labels.pitch,
        accent_withheld: labels.accent_withheld,
    };
    proof {
        assert(phoneme_views(r.phonemes@).len() == n);
        assert(r@ =~= japanese_phonemized_spec(labels@)->Ok_0);
        if n > 0 {
            assert(tiles(r@.word_spans, n as int));
        }
    }
    Ok(r)
}


// ---------------------------------------------------------------------------
// Mandarin
// ---------------------------------------------------------------------------

pub open spec fn ms_phones(ss: Seq<crate::mandarin::SyllableS>, k: int) -> Seq<Seq<char>>
    decreases k,
{
    if k <= 0 {
        Seq::empty()
    } else {
        ms_phones(ss, k - 1) + ss[k - 1].phonemes
    }
}

pub open spec fn ms_stress(ss: Seq<crate::mandarin::SyllableS>, k: int) -> Seq<Stress>
    decreases k,
{
    if k <= 0 {
        Seq::empty()
    } else {
        ms_stress(ss, k - 1) + Seq::new(ss[k - 1].phonemes.len(), |i: int| Stress::Unstressed)
    }
}

pub open spec fn ms_tone(ss: Seq<crate::mandarin::SyllableS>, k: int) -> Seq<Option<u8>>
    decreases k,
{
    if k <= 0 {
        Seq::empty()
    } else {
        ms_tone(ss, k - 1) + ss[k - 1].tone
    }
}

pub open spec fn ms_spans(ss: Seq<crate::mandarin::SyllableS>, k: int) -> Seq<(usize, usize)>
    decreases k,
{
    if k <= 0 {
        Seq::empty()
    } else {
        ms_spans(ss, k - 1).push(
            (ms_phones(ss, k - 1).len() as usize, ms_phones(ss, k).len() as usize),
        )
    }
}

/// Per-syllable Mandarin labels flattened into the common shape: one word
/// span per syllable, no stress, tone on the bearing phone, and the pinyin
/// joined by spaces as `raw`.
pub open spec fn mandarin_phonemized_spec(ss: Seq<crate::mandarin::SyllableS>) -> Result<PhonemizedS, ErrorS> {
    let n = ss.len() as int;
    match first_unknown_token(ms_phones(ss, n)) {
        Some(t) => Err(ErrorS::UnknownPhoneme(t)),
        None => Ok(
            PhonemizedS {
                raw: crate::text::join_with(
                    ss.map_values(|s: crate::mandarin::SyllableS| s.pinyin),
                    ' ',
                ),
                phonemes: ms_phones(ss, n),
                stress: ms_stress(ss, n),
                word_spans: ms_spans(ss, n),
                tone: ms_tone(ss, n),
                ..empty_phonemized()
            },
        ),
    }
}

pub open spec fn syllable_views(v: Seq<crate::mandarin::Syllable>) -> Seq<crate::mandarin::SyllableS> {
    v.map_values(|s: crate::mandarin::Syllable| s@)
}

/// Flatten per-syllable Mandarin labels into the common shape.
pub fn mandarin_phonemized(syllables: Vec<crate::mandarin::Syllable>) -> (r: Result<Phonemized, Error>)
    ensures
        crate::error::result_view(r, |p: Phonemized| p@) == mandarin_phonemized_spec(syllable_views(syllables@)),
{
    let ghost ss = syllable_views(syllables@);
    let mut all: Vec<String> = Vec::new();
    let mut stress: Vec<Stress> = Vec::new();
    let mut tone: Vec<Option<u8>> = Vec::new();
    let mut spans: Vec<(usize, usize)> = Vec::new();
    let mut pinyin: Vec<Vec<char>> = Vec::new();
    let mut k: usize = 0;
    while k < syllables.len()
        invariant
            k <= syllables@.len(),
            ss == syllable_views(syllables@),
            string_views(all@) == ms_phones(ss, k as int),
            stress@ == ms_stress(ss, k as int),
            tone@ == ms_tone(ss, k as int),
            spans@ == ms_spans(ss, k as int),
            crate::parse::views(pinyin@) == ss.subrange(0, k as int).map_values(
                |s: crate::mandarin::SyllableS| s.pinyin,
            ),
        decreases syllables@.len() - k,
    {
        let s = &syllables[k];
        proof {
            assert(ss[k as int] == s@);
        }
        let start = all.len();
        let ghost a0 = string_views(all@);
        let ghost s0 = stress@;
        let mut j: usize = 0;
        while j < s.phonemes.len()
            invariant
                j <= s.phonemes@.len(),
                string_views(all@) == a0 + string_views(s.phonemes@).subrange(0, j as int),
                stress@ == s0 + Seq::new(j as nat, |i: int| Stress::Unstressed),
            decreases s.phonemes@.len() - j,
        {
            let c = s.phonemes[j].clone();
            let ghost prev = string_views(all@);
            all.push(c);
            stress.push(Stress::Unstressed);
            proof {
                assert(c@ == string_views(s.phonemes@)[j as int]);
                assert(string_views(all@) =~= prev.push(c@));
                assert(string_views(s.phonemes@).subrange(0, j + 1) =~= string_views(s.phonemes@).subrange(0, j as int).push(c@));
                assert(stress@ =~= s0 + Seq::new((j + 1) as nat, |i: int| Stress::Unstressed));
            }
            j += 1;
        }
        proof {
            assert(string_views(s.phonemes@).subrange(0, s.phonemes@.len() as int) =~= string_views(s.phonemes@));
        }
        let ghost t0 = tone@;
        let mut j: usize = 0;
        while j < s.tone.len()
            invariant
                j <= s.tone@.len(),
                tone@ == t0 + s.tone@.subrange(0, j as int),
            decreases s.tone@.len() - j,
        {
            tone.push(s.tone[j]);
            proof {
                assert(tone@ =~= t0 + s.tone@.subrange(0, j + 1));
            }
            j += 1;
        }
        proof {
            assert(s.tone@.subrange(0, s.tone@.len() as int) =~= s.tone@);
        }
        spans.push((start, all.len()));
        let py = crate::text::chars_of(s.pinyin.as_str());
        let ghost r0 = crate::parse::views(pinyin@);
        pinyin.push(py);
        proof {
            assert(crate::parse::views(pinyin@) =~= r0.push(py@));
            assert(ss.subrange(0, k + 1).map_values(|s: crate::mandarin::SyllableS| s.pinyin)
                =~= ss.subrange(0, k as int).map_values(|s: crate::mandarin::SyllableS| s.pinyin).push(
                ss[k as int].pinyin,
            ));
            assert(string_views(all@) =~= ms_phones(ss, k + 1));
            assert(stress@ =~= ms_stress(ss, k + 1));
            assert(tone@ =~= ms_tone(ss, k + 1));
            assert(spans@ =~= ms_spans(ss, k + 1));
        }
        k += 1;
    }
    let phonemes = match parse_tokens(&all) {
        Ok(p) => p,
        Err(e) => return Err(e),
    };
    let raw_chars = crate::text::join_chars(&pinyin, ' ');
    let r = Phonemized {
        raw: crate::text::string_of(&raw_chars),
        phonemes,
        stress,
        word_spans: spans,
        syllables: Vec::new(),
        tone,
        pitch: Vec::new(),
        accent_withheld: None,
    };
    proof {
        assert(ss.subrange(0, ss.len() as int) =~= ss);
        assert(r@ =~= mandarin_phonemized_spec(ss)->Ok_0);
    }
    Ok(r)
}


proof fn lemma_hw(ws: Seq<crate::hindi::WordS>, k: int)
    requires
        0 <= k <= ws.len(),
        forall|j: int| 0 <= j < ws.len() ==> (#[trigger] ws[j]).stress.len() == ws[j].phonemes.len() && ws[j].phonemes.len() > 0,
        hw_phones(ws, ws.len() as int).len() <= usize::MAX,
    ensures
        hw_stress(ws, k).len() == hw_phones(ws, k).len(),
        hw_phones(ws, k).len() <= hw_phones(ws, ws.len() as int).len(),
        tiles(hw_spans(ws, k), hw_phones(ws, k).len() as int),
    decreases k,
{
    if k > 0 {
        lemma_hw_mono(ws, k, ws.len() as int);
        lemma_hw(ws, k - 1);
        let w = ws[k - 1];
        crate::parse::lemma_tiles_push(hw_spans(ws, k - 1), hw_phones(ws, k - 1).len() as int, hw_phones(ws, k).len() as int);
    } else {
        lemma_hw_mono(ws, 0, ws.len() as int);
    }
}

proof fn lemma_hw_mono(ws: Seq<crate::hindi::WordS>, j: int, k: int)
    requires
        0 <= j <= k <= ws.len(),
    ensures
        hw_phones(ws, j).len() <= hw_phones(ws, k).len(),
    decreases k - j,
{
    if j < k {
        lemma_hw_mono(ws, j, k - 1);
    }
}

/// Flattened Hindi labels are aligned: stress parallel to the phones, one
/// span per word, the spans tiling the phones, when every word has phones
/// and parallel stress (as every word the chain produces does).
pub proof fn law_hindi_aligned(ws: Seq<crate::hindi::WordS>)
    requires
        hindi_phonemized_spec(ws) is Ok,
        forall|j: int| 0 <= j < ws.len() ==> (#[trigger] ws[j]).stress.len() == ws[j].phonemes.len() && ws[j].phonemes.len() > 0,
        hw_phones(ws, ws.len() as int).len() <= usize::MAX,
    ensures
        aligned(hindi_phonemized_spec(ws)->Ok_0, false),
        hindi_phonemized_spec(ws)->Ok_0.word_spans.len() == ws.len(),
{
    lemma_hw(ws, ws.len() as int);
    lemma_hw_spans_len(ws, ws.len() as int);
}

proof fn lemma_hw_spans_len(ws: Seq<crate::hindi::WordS>, k: int)
    requires
        0 <= k,
    ensures
        hw_spans(ws, k).len() == k,
    decreases k,
{
    if k > 0 {
        lemma_hw_spans_len(ws, k - 1);
    }
}

proof fn lemma_ms(ss: Seq<crate::mandarin::SyllableS>, k: int)
    requires
        0 <= k <= ss.len(),
        forall|j: int| 0 <= j < ss.len() ==> (#[trigger] ss[j]).tone.len() == ss[j].phonemes.len() && ss[j].phonemes.len() > 0,
        ms_phones(ss, ss.len() as int).len() <= usize::MAX,
    ensures
        ms_stress(ss, k).len() == ms_phones(ss, k).len(),
        ms_tone(ss, k).len() == ms_phones(ss, k).len(),
        ms_spans(ss, k).len() == k,
        tiles(ms_spans(ss, k), ms_phones(ss, k).len() as int),
    decreases k,
{
    lemma_ms_mono(ss, k, ss.len() as int);
    if k > 0 {
        lemma_ms(ss, k - 1);
        crate::parse::lemma_tiles_push(ms_spans(ss, k - 1), ms_phones(ss, k - 1).len() as int, ms_phones(ss, k).len() as int);
    }
}

proof fn lemma_ms_mono(ss: Seq<crate::mandarin::SyllableS>, j: int, k: int)
    requires
        0 <= j <= k <= ss.len(),
    ensures
        ms_phones(ss, j).len() <= ms_phones(ss, k).len(),
    decreases k - j,
{
    if j < k {
        lemma_ms_mono(ss, j, k - 1);
    }
}

/// Flattened Mandarin labels are aligned: stress and tone parallel to the
/// phones, one span per syllable, the spans tiling the phones, when every
/// syllable has phones and a tone per phone (as every syllable built here
/// does).
pub proof fn law_mandarin_aligned(ss: Seq<crate::mandarin::SyllableS>)
    requires
        mandarin_phonemized_spec(ss) is Ok,
        forall|j: int| 0 <= j < ss.len() ==> (#[trigger] ss[j]).tone.len() == ss[j].phonemes.len() && ss[j].phonemes.len() > 0,
        ms_phones(ss, ss.len() as int).len() <= usize::MAX,
    ensures
        aligned(mandarin_phonemized_spec(ss)->Ok_0, true),
        mandarin_phonemized_spec(ss)->Ok_0.word_spans.len() == ss.len(),
{
    lemma_ms(ss, ss.len() as int);
}

} // verus!
