//! Tokenization of espeak-ng's `--ipa -x` output into phonemes, stress, and
//! word spans: the versioned labels for pronunciation-model training and
//! scoring.
//!
//! Rules:
//! * Stress markers `ˈ`/`ˌ` are not tokens; the stress attaches to the next
//!   vowel nucleus.
//! * Word boundaries (space, tab, newline, `|`, `_`, `-`) are not tokens;
//!   they delimit `word_spans`.
//! * Continuation diacritics (length, nasalization, dental, syllabic, …)
//!   append to the preceding token, so `ɛ̃`/`iː`/`t̪` are single tokens.
//! * Palatalization `ʲ` appends to a preceding *consonant* but stays its own
//!   token after a vowel, where espeak uses it for a hiatus glide.
//! * The framed engine path merges affricates inside an actual engine phone,
//!   and selected English/German/Brazilian Portuguese/Czech vowel units.
//!   Plain [`parse`] keeps the character segmentation.
//! * Language-switch markers like `(en)` or `(en-us)` are not tokens.

use crate::text::string_views;
use vstd::prelude::*;
use vstd::seq_lib::lemma_flatten_concat;

verus! {

/// Lexical stress of a token, as espeak marked it.
#[derive(Debug, Clone, Copy, PartialEq, Eq, Structural)]
pub enum Stress {
    Unstressed,
    Primary,
    Secondary,
}

impl Stress {
    /// The integer code used by corpus files (0/1/2).
    pub fn code(self) -> (r: u8)
        ensures
            r == stress_code(self),
    {
        match self {
            Stress::Unstressed => 0,
            Stress::Primary => 1,
            Stress::Secondary => 2,
        }
    }
}

/// The corpus code of a stress value.
pub open spec fn stress_code(s: Stress) -> u8 {
    match s {
        Stress::Unstressed => 0,
        Stress::Primary => 1,
        Stress::Secondary => 2,
    }
}

/// IPA vowels espeak emits across the supported languages. Vowels carry
/// stress; `ʲ` never folds onto one.
pub const IPA_VOWELS: &'static str = "iyɨʉɯuɪʏʊeøɘɵɤoəɛœɜɞʌɔæɐaɶɑɒɚɝᵻ";

/// Combining marks and modifier letters that continue the preceding token:
/// length, retracted, lowered, non-syllabic, voiceless, dental, syllabic,
/// raised, nasalized, voiceless (above), centralized, pharyngealized.
pub const CONTINUATIONS: &'static str = "ːˑ̠̞̯̥̪̩̝̃̊̈ˤ";

/// Characters that delimit words.
pub const WORD_BOUNDARIES: &'static str = " \t\n|_-";

/// Separator the engine trace puts between phones (not a word boundary).
pub const PHONE_SEPARATOR: char = '\u{1f}';

pub open spec fn is_vowel(c: char) -> bool {
    match c {
        'i' | 'y' | 'ɨ' | 'ʉ' | 'ɯ' | 'u' | 'ɪ' | 'ʏ' | 'ʊ' | 'e' | 'ø' | 'ɘ' | 'ɵ' | 'ɤ' | 'o'
        | 'ə' | 'ɛ' | 'œ' | 'ɜ' | 'ɞ' | 'ʌ' | 'ɔ' | 'æ' | 'ɐ' | 'a' | 'ɶ' | 'ɑ' | 'ɒ' | 'ɚ'
        | 'ɝ' | 'ᵻ' => true,
        _ => false,
    }
}

pub open spec fn is_continuation(c: char) -> bool {
    match c {
        '\u{2d0}' | '\u{2d1}' | '\u{320}' | '\u{31e}' | '\u{32f}' | '\u{325}' | '\u{32a}'
        | '\u{329}' | '\u{31d}' | '\u{303}' | '\u{30a}' | '\u{308}' | '\u{2e4}' => true,
        _ => false,
    }
}

pub open spec fn is_word_boundary(c: char) -> bool {
    c == ' ' || c == '\t' || c == '\n' || c == '|' || c == '_' || c == '-'
}

/// Punctuation and syllable separators, which are not phones.
pub open spec fn is_separator_punct(c: char) -> bool {
    c == '"' || c == '(' || c == ')' || c == '.' || c == '?' || c == '^'
}

pub open spec fn is_ascii_alpha(c: char) -> bool {
    ('a' <= c && c <= 'z') || ('A' <= c && c <= 'Z')
}

pub open spec fn ascii_lower_char(c: char) -> char {
    if 'A' <= c && c <= 'Z' {
        ((c as u32) + 32) as char
    } else {
        c
    }
}

pub open spec fn ascii_lower(s: Seq<char>) -> Seq<char> {
    s.map_values(|c: char| ascii_lower_char(c))
}

/// Whether the first character of `s` is a vowel.
pub open spec fn starts_with_vowel(s: Seq<char>) -> bool {
    s.len() > 0 && is_vowel(s[0])
}

pub fn vowel(c: char) -> (r: bool)
    ensures
        r == is_vowel(c),
{
    match c {
        'i' | 'y' | 'ɨ' | 'ʉ' | 'ɯ' | 'u' | 'ɪ' | 'ʏ' | 'ʊ' | 'e' | 'ø' | 'ɘ' | 'ɵ' | 'ɤ' | 'o'
        | 'ə' | 'ɛ' | 'œ' | 'ɜ' | 'ɞ' | 'ʌ' | 'ɔ' | 'æ' | 'ɐ' | 'a' | 'ɶ' | 'ɑ' | 'ɒ' | 'ɚ'
        | 'ɝ' | 'ᵻ' => true,
        _ => false,
    }
}

pub fn continuation(c: char) -> (r: bool)
    ensures
        r == is_continuation(c),
{
    match c {
        '\u{2d0}' | '\u{2d1}' | '\u{320}' | '\u{31e}' | '\u{32f}' | '\u{325}' | '\u{32a}'
        | '\u{329}' | '\u{31d}' | '\u{303}' | '\u{30a}' | '\u{308}' | '\u{2e4}' => true,
        _ => false,
    }
}

pub fn word_boundary(c: char) -> (r: bool)
    ensures
        r == is_word_boundary(c),
{
    c == ' ' || c == '\t' || c == '\n' || c == '|' || c == '_' || c == '-'
}

fn separator_punct(c: char) -> (r: bool)
    ensures
        r == is_separator_punct(c),
{
    c == '"' || c == '(' || c == ')' || c == '.' || c == '?' || c == '^'
}

fn ascii_alpha(c: char) -> (r: bool)
    ensures
        r == is_ascii_alpha(c),
{
    ('a' <= c && c <= 'z') || ('A' <= c && c <= 'Z')
}

fn first_is_vowel(s: &[char]) -> (r: bool)
    ensures
        r == starts_with_vowel(s@),
{
    s.len() > 0 && vowel(s[0])
}

pub(crate) fn lower_ascii(s: &[char]) -> (r: Vec<char>)
    ensures
        r@ == ascii_lower(s@),
{
    let mut r: Vec<char> = Vec::new();
    let mut i: usize = 0;
    while i < s.len()
        invariant
            i <= s.len(),
            r@ == ascii_lower(s@.subrange(0, i as int)),
        decreases s.len() - i,
    {
        let c = s[i];
        let l = if 'A' <= c && c <= 'Z' {
            ((c as u8) + 32) as char
        } else {
            c
        };
        r.push(l);
        proof {
            assert(ascii_lower(s@.subrange(0, i + 1)) =~= ascii_lower(s@.subrange(0, i as int)).push(
                ascii_lower_char(c),
            ));
        }
        i += 1;
    }
    proof {
        assert(s@.subrange(0, s@.len() as int) =~= s@);
    }
    r
}

/// Whether two character sequences are equal.
pub fn chars_eq(a: &[char], b: &[char]) -> (r: bool)
    ensures
        r == (a@ == b@),
{
    if a.len() != b.len() {
        return false;
    }
    let mut i: usize = 0;
    while i < a.len()
        invariant
            i <= a.len(),
            a.len() == b.len(),
            forall|k: int| 0 <= k < i ==> a@[k] == b@[k],
        decreases a.len() - i,
    {
        if a[i] != b[i] {
            return false;
        }
        i += 1;
    }
    assert(a@ =~= b@);
    true
}

// ---------------------------------------------------------------------------
// Language-switch markers
// ---------------------------------------------------------------------------

/// End of the maximal run of ASCII letters starting at `j`.
pub open spec fn alpha_end(cs: Seq<char>, j: int) -> int
    decreases cs.len() - j,
{
    if 0 <= j < cs.len() && is_ascii_alpha(cs[j]) {
        alpha_end(cs, j + 1)
    } else {
        j
    }
}

/// Where a `(xx)` / `(xx-yy)` marker (2–4 ASCII letters per part) that opens
/// at `cs[i] == '('` ends (one past its `)`), or `i` itself if there is none.
pub open spec fn marker_end(cs: Seq<char>, i: int) -> int {
    let a = i + 1;
    let b = alpha_end(cs, a);
    if !(2 <= b - a <= 4) {
        i
    } else {
        let c = if b < cs.len() && cs[b] == '-' {
            alpha_end(cs, b + 1)
        } else {
            b
        };
        let ok = if b < cs.len() && cs[b] == '-' {
            2 <= c - (b + 1) <= 4
        } else {
            true
        };
        if ok && 0 <= c < cs.len() && cs[c] == ')' {
            c + 1
        } else {
            i
        }
    }
}

pub proof fn lemma_alpha_end_bounds(cs: Seq<char>, j: int)
    requires
        0 <= j,
    ensures
        j <= alpha_end(cs, j),
        j <= cs.len() ==> alpha_end(cs, j) <= cs.len(),
        forall|k: int| j <= k < alpha_end(cs, j) ==> is_ascii_alpha(#[trigger] cs[k]),
    decreases cs.len() - j,
{
    if 0 <= j < cs.len() && is_ascii_alpha(cs[j]) {
        lemma_alpha_end_bounds(cs, j + 1);
    }
}

pub proof fn lemma_marker_end_bounds(cs: Seq<char>, i: int)
    requires
        0 <= i < cs.len(),
    ensures
        marker_end(cs, i) == i || (i + 4 <= marker_end(cs, i) <= cs.len()),
{
    lemma_alpha_end_bounds(cs, i + 1);
    let b = alpha_end(cs, i + 1);
    if b < cs.len() && cs[b] == '-' {
        lemma_alpha_end_bounds(cs, b + 1);
    }
}

fn alpha_run_end(s: &[char], j: usize) -> (r: usize)
    requires
        j <= s.len(),
    ensures
        r == alpha_end(s@, j as int),
        j <= r <= s.len(),
{
    let mut k = j;
    while k < s.len() && ascii_alpha(s[k])
        invariant
            j <= k <= s.len(),
            alpha_end(s@, k as int) == alpha_end(s@, j as int),
        decreases s.len() - k,
    {
        k += 1;
    }
    k
}

/// Length of a language marker opening at `s[i] == '('`, if there is one.
fn marker_len(s: &[char], i: usize) -> (r: Option<usize>)
    requires
        i < s.len(),
    ensures
        match r {
            Some(len) => marker_end(s@, i as int) == i + len && len >= 4 && i + len <= s.len(),
            None => marker_end(s@, i as int) == i,
        },
{
    proof {
        lemma_marker_end_bounds(s@, i as int);
    }
    let a = i + 1;
    let b = alpha_run_end(s, a);
    if !(b - a >= 2 && b - a <= 4) {
        return None;
    }
    let mut c = b;
    if b < s.len() && s[b] == '-' {
        c = alpha_run_end(s, b + 1);
        if !(c - (b + 1) >= 2 && c - (b + 1) <= 4) {
            return None;
        }
    }
    if c < s.len() && s[c] == ')' {
        Some(c + 1 - i)
    } else {
        None
    }
}

/// `cs` with every language-switch marker removed, scanning from `i`.
pub open spec fn strip_markers_from(cs: Seq<char>, i: int) -> Seq<char>
    decreases cs.len() - i,
{
    if i < 0 || i >= cs.len() {
        Seq::empty()
    } else if cs[i] == '(' && marker_end(cs, i) > i {
        strip_markers_from(cs, marker_end(cs, i))
    } else {
        seq![cs[i]] + strip_markers_from(cs, i + 1)
    }
}

/// Remove `(xx)` / `(xx-yy)` language-switch markers (2–4 ASCII letters per
/// part, any case).
pub fn strip_language_markers(raw: &str) -> (r: String)
    ensures
        r@ == strip_markers_from(raw@, 0),
{
    let chars = crate::text::chars_of(raw);
    let mut out: Vec<char> = Vec::new();
    let mut i: usize = 0;
    while i < chars.len()
        invariant
            i <= chars.len(),
            chars@ == raw@,
            out@ + strip_markers_from(chars@, i as int) == strip_markers_from(chars@, 0),
        decreases chars.len() - i,
    {
        if chars[i] == '(' {
            if let Some(len) = marker_len(&chars, i) {
                i += len;
                continue;
            }
        }
        let ghost prev = out@;
        out.push(chars[i]);
        proof {
            assert(prev + strip_markers_from(chars@, i as int) == prev + (seq![chars@[i as int]]
                + strip_markers_from(chars@, i + 1)));
            assert(prev + (seq![chars@[i as int]] + strip_markers_from(chars@, i + 1)) =~= out@
                + strip_markers_from(chars@, i + 1));
        }
        i += 1;
    }
    proof {
        assert(out@ + Seq::<char>::empty() =~= out@);
    }
    crate::text::string_of(&out)
}


// ---------------------------------------------------------------------------
// Scanner model
// ---------------------------------------------------------------------------

/// Where a phone came from: its engine phone, its stress/switch barrier, and
/// the phoneme-table language in force.
#[verifier::ext_equal]
pub struct OriginS {
    pub phone: int,
    pub barrier: int,
    pub language: Seq<char>,
}

/// Scanner state over a character sequence.
#[verifier::ext_equal]
pub struct ScanS {
    pub ph: Seq<Seq<char>>,
    pub st: Seq<Stress>,
    pub spans: Seq<(usize, usize)>,
    pub word_start: int,
    pub pending: Option<Stress>,
    pub current: Stress,
    pub in_vowel: bool,
    pub origin: OriginS,
    pub origins: Seq<OriginS>,
}

/// Some Danish output spells IPA open-e with Greek epsilon.
pub open spec fn norm_char(c: char) -> char {
    if c == '\u{3b5}' {
        '\u{25b}'
    } else {
        c
    }
}

/// The part of a language code before its first `-`.
pub open spec fn dash_prefix(s: Seq<char>) -> Seq<char>
    decreases s.len(),
{
    if s.len() == 0 {
        s
    } else if s[0] == '-' {
        Seq::empty()
    } else {
        seq![s[0]] + dash_prefix(s.drop_first())
    }
}

/// The language a switch marker selects: markers name phoneme tables, not
/// regional voices, so a return to the default's table restores the default.
pub open spec fn switch_language(marker: Seq<char>, default: Seq<char>) -> Seq<char> {
    if dash_prefix(default) == marker {
        default
    } else {
        marker
    }
}

/// First index at or after `j` that is neither a continuation nor a phone
/// separator.
pub open spec fn skip_mods(cs: Seq<char>, j: int) -> int
    decreases cs.len() - j,
{
    if 0 <= j < cs.len() && (is_continuation(cs[j]) || cs[j] == PHONE_SEPARATOR) {
        skip_mods(cs, j + 1)
    } else {
        j
    }
}

pub proof fn lemma_skip_mods_bounds(cs: Seq<char>, j: int)
    requires
        0 <= j,
    ensures
        j <= skip_mods(cs, j),
        j <= cs.len() ==> skip_mods(cs, j) <= cs.len(),
    decreases cs.len() - j,
{
    if 0 <= j < cs.len() && (is_continuation(cs[j]) || cs[j] == PHONE_SEPARATOR) {
        lemma_skip_mods_bounds(cs, j + 1);
    }
}

pub open spec fn push_phone(s: ScanS, c: char, stress: Stress) -> ScanS {
    ScanS { ph: s.ph.push(seq![c]), st: s.st.push(stress), origins: s.origins.push(s.origin), ..s }
}

pub open spec fn extend_last(s: ScanS, c: char) -> ScanS {
    ScanS { ph: s.ph.update(s.ph.len() - 1, s.ph.last().push(c)), ..s }
}

pub open spec fn bump_barrier(o: OriginS) -> OriginS {
    OriginS { barrier: o.barrier + 1, ..o }
}

/// One ordinary character (not a marker, separator, or punctuation).
pub open spec fn char_step(s: ScanS, ch: char) -> ScanS {
    if ch == '\u{2c8}' {
        ScanS {
            origin: bump_barrier(s.origin),
            pending: Some(Stress::Primary),
            in_vowel: false,
            ..s
        }
    } else if ch == '\u{2cc}' {
        ScanS {
            origin: bump_barrier(s.origin),
            pending: Some(Stress::Secondary),
            in_vowel: false,
            ..s
        }
    } else if is_word_boundary(ch) {
        ScanS {
            spans: if s.ph.len() > s.word_start {
                s.spans.push((s.word_start as usize, s.ph.len() as usize))
            } else {
                s.spans
            },
            word_start: s.ph.len() as int,
            pending: None,
            current: Stress::Unstressed,
            in_vowel: false,
            ..s
        }
    } else if is_vowel(ch) {
        let cur = match s.pending {
            Some(p) => p,
            None => if !s.in_vowel {
                Stress::Unstressed
            } else {
                s.current
            },
        };
        push_phone(ScanS { current: cur, pending: None, in_vowel: true, ..s }, ch, cur)
    } else if is_continuation(ch) {
        if s.ph.len() > 0 {
            extend_last(s, ch)
        } else {
            push_phone(s, ch, Stress::Unstressed)
        }
    } else if ch == '\u{2b2}' && s.ph.len() > 0 && !starts_with_vowel(s.ph.last()) {
        extend_last(s, ch)
    } else {
        push_phone(
            ScanS { in_vowel: false, current: Stress::Unstressed, ..s },
            ch,
            Stress::Unstressed,
        )
    }
}

/// The scanner run from index `i` in state `s` to the end of `cs`.
pub open spec fn scan(cs: Seq<char>, framed: bool, deflang: Seq<char>, i: int, s: ScanS) -> ScanS
    decreases cs.len() - i,
{
    if i < 0 || i >= cs.len() {
        s
    } else {
        let ch = norm_char(cs[i]);
        if ch == '(' && marker_end(cs, i) > i {
            let e = marker_end(cs, i);
            let s2 = if framed {
                ScanS {
                    origin: OriginS {
                        phone: s.origin.phone + 1,
                        barrier: s.origin.barrier + 1,
                        language: switch_language(ascii_lower(cs.subrange(i + 1, e - 1)), deflang),
                    },
                    ..s
                }
            } else {
                s
            };
            scan(cs, framed, deflang, e, s2)
        } else if framed && ch == PHONE_SEPARATOR {
            scan(
                cs,
                framed,
                deflang,
                i + 1,
                ScanS { origin: OriginS { phone: s.origin.phone + 1, ..s.origin }, ..s },
            )
        } else if is_separator_punct(ch) {
            proof {
                lemma_skip_mods_bounds(cs, i + 1);
            }
            scan(
                cs,
                framed,
                deflang,
                skip_mods(cs, i + 1),
                ScanS { origin: bump_barrier(s.origin), in_vowel: false, ..s },
            )
        } else {
            scan(cs, framed, deflang, i + 1, char_step(s, ch))
        }
    }
}

pub open spec fn scan_init(deflang: Seq<char>) -> ScanS {
    ScanS {
        ph: Seq::empty(),
        st: Seq::empty(),
        spans: Seq::empty(),
        word_start: 0,
        pending: None,
        current: Stress::Unstressed,
        in_vowel: false,
        origin: OriginS { phone: 0, barrier: 0, language: deflang },
        origins: Seq::empty(),
    }
}

/// Close the last word.
pub open spec fn scan_finish(s: ScanS) -> ScanS {
    ScanS {
        spans: if s.ph.len() > s.word_start {
            s.spans.push((s.word_start as usize, s.ph.len() as usize))
        } else {
            s.spans
        },
        ..s
    }
}

/// The scanner's result on the whole of `cs`.
pub open spec fn scan_all(cs: Seq<char>, framed: bool, deflang: Seq<char>) -> ScanS {
    scan_finish(scan(cs, framed, deflang, 0, scan_init(deflang)))
}

/// `spans` are non-empty, in order, contiguous, and cover exactly `[0, n)`.
pub open spec fn tiles(spans: Seq<(usize, usize)>, n: int) -> bool {
    &&& (spans.len() == 0 <==> n == 0)
    &&& spans.len() > 0 ==> spans[0].0 == 0 && spans.last().1 == n
    &&& forall|k: int| 0 <= k < spans.len() ==> #[trigger] spans[k].0 < spans[k].1
    &&& forall|k: int| 0 <= k < spans.len() - 1 ==> #[trigger] spans[k].1 == spans[k + 1].0
}

/// Invariants of a scanner state after `i` characters.
pub open spec fn scan_wf(s: ScanS, i: int) -> bool {
    &&& s.st.len() == s.ph.len()
    &&& s.origins.len() == s.ph.len()
    &&& 0 <= s.word_start <= s.ph.len() <= i
    &&& tiles(s.spans, s.word_start)
    &&& 0 <= s.origin.phone <= i
    &&& 0 <= s.origin.barrier <= i
}

pub proof fn lemma_tiles_push(spans: Seq<(usize, usize)>, a: int, b: int)
    requires
        tiles(spans, a),
        0 <= a < b <= usize::MAX,
    ensures
        tiles(spans.push((a as usize, b as usize)), b),
{
    let t = spans.push((a as usize, b as usize));
    assert forall|k: int| 0 <= k < t.len() - 1 implies #[trigger] t[k].1 == t[k + 1].0 by {
        if k < spans.len() - 1 {
            assert(t[k] == spans[k] && t[k + 1] == spans[k + 1]);
        }
    }
}


// ---------------------------------------------------------------------------
// Scanner
// ---------------------------------------------------------------------------

pub open spec fn views(v: Seq<Vec<char>>) -> Seq<Seq<char>> {
    v.map_values(|x: Vec<char>| x@)
}

/// Exec form of [`OriginS`].
pub struct Origin {
    pub phone: usize,
    pub barrier: usize,
    pub language: Vec<char>,
}

impl View for Origin {
    type V = OriginS;

    open spec fn view(&self) -> OriginS {
        OriginS { phone: self.phone as int, barrier: self.barrier as int, language: self.language@ }
    }
}

pub open spec fn origin_views(v: Seq<Origin>) -> Seq<OriginS> {
    v.map_values(|o: Origin| o@)
}

/// A copy of `s`.
pub fn copy_chars(s: &[char]) -> (r: Vec<char>)
    ensures
        r@ == s@,
{
    sub_chars(s, 0, s.len())
}

/// `s[a..b]` as a new vector.
pub fn sub_chars(s: &[char], a: usize, b: usize) -> (r: Vec<char>)
    requires
        a <= b <= s.len(),
    ensures
        r@ == s@.subrange(a as int, b as int),
{
    let mut r: Vec<char> = Vec::new();
    let mut k = a;
    while k < b
        invariant
            a <= k <= b <= s.len(),
            r@ == s@.subrange(a as int, k as int),
        decreases b - k,
    {
        r.push(s[k]);
        k += 1;
    }
    r
}

/// The one-character sequence `[c]`.
pub fn single(c: char) -> (r: Vec<char>)
    ensures
        r@ == seq![c],
{
    let mut r = Vec::new();
    r.push(c);
    r
}

fn copy_origin(o: &Origin) -> (r: Origin)
    ensures
        r@ == o@,
{
    Origin { phone: o.phone, barrier: o.barrier, language: copy_chars(&o.language) }
}

fn dash_prefix_of(s: &[char]) -> (r: Vec<char>)
    ensures
        r@ == dash_prefix(s@),
{
    let mut k: usize = 0;
    proof {
        assert(s@.subrange(0, s@.len() as int) =~= s@);
        assert(s@.subrange(0, 0) + dash_prefix(s@) =~= dash_prefix(s@));
    }
    while k < s.len() && s[k] != '-'
        invariant
            k <= s.len(),
            dash_prefix(s@) == s@.subrange(0, k as int) + dash_prefix(s@.subrange(k as int, s@.len() as int)),
        decreases s.len() - k,
    {
        proof {
            let t = s@.subrange(k as int, s@.len() as int);
            assert(t.drop_first() =~= s@.subrange(k + 1, s@.len() as int));
            assert(s@.subrange(0, k as int) + seq![t[0]] =~= s@.subrange(0, k + 1));
            assert(s@.subrange(0, k as int) + (seq![t[0]] + dash_prefix(t.drop_first())) =~= s@.subrange(0, k + 1) + dash_prefix(t.drop_first()));
        }
        k += 1;
    }
    proof {
        let t = s@.subrange(k as int, s@.len() as int);
        assert(t.len() == 0 || t[0] == '-');
        assert(dash_prefix(t) =~= Seq::<char>::empty());
        assert(s@.subrange(0, k as int) + Seq::<char>::empty() =~= s@.subrange(0, k as int));
    }
    sub_chars(s, 0, k)
}

pub open spec fn mk_state(
    ph: Seq<Vec<char>>,
    st: Seq<Stress>,
    spans: Seq<(usize, usize)>,
    word_start: usize,
    pending: Option<Stress>,
    current: Stress,
    in_vowel: bool,
    origin: OriginS,
    origins: Seq<Origin>,
) -> ScanS {
    ScanS {
        ph: views(ph),
        st,
        spans,
        word_start: word_start as int,
        pending,
        current,
        in_vowel,
        origin,
        origins: origin_views(origins),
    }
}

/// A scan result: phones, their stress, word spans, and their origins.
pub struct Draft {
    pub ph: Vec<Vec<char>>,
    pub st: Vec<Stress>,
    pub spans: Vec<(usize, usize)>,
    pub origins: Vec<Origin>,
}

/// Run the scanner over `cs`.
fn scan_chars(cs: &[char], framed: bool, deflang: &[char]) -> (r: Draft)
    ensures
        views(r.ph@) == scan_all(cs@, framed, deflang@).ph,
        r.st@ == scan_all(cs@, framed, deflang@).st,
        r.spans@ == scan_all(cs@, framed, deflang@).spans,
        origin_views(r.origins@) == scan_all(cs@, framed, deflang@).origins,
        r.st@.len() == r.ph@.len(),
        r.origins@.len() == r.ph@.len(),
        tiles(r.spans@, r.ph@.len() as int),
{
    let mut ph: Vec<Vec<char>> = Vec::new();
    let mut st: Vec<Stress> = Vec::new();
    let mut spans: Vec<(usize, usize)> = Vec::new();
    let mut word_start: usize = 0;
    let mut pending: Option<Stress> = None;
    let mut current = Stress::Unstressed;
    let mut in_vowel = false;
    let mut o_phone: usize = 0;
    let mut o_barrier: usize = 0;
    let mut o_lang: Vec<char> = copy_chars(deflang);
    let mut origins: Vec<Origin> = Vec::new();
    let deflang_head = dash_prefix_of(deflang);
    let mut i: usize = 0;
    proof {
        assert(views(ph@) =~= Seq::<Seq<char>>::empty());
        assert(origin_views(origins@) =~= Seq::<OriginS>::empty());
    }
    while i < cs.len()
        invariant
            i <= cs.len(),
            deflang_head@ == dash_prefix(deflang@),
            scan(
                cs@,
                framed,
                deflang@,
                i as int,
                mk_state(
                    ph@,
                    st@,
                    spans@,
                    word_start,
                    pending,
                    current,
                    in_vowel,
                    OriginS { phone: o_phone as int, barrier: o_barrier as int, language: o_lang@ },
                    origins@,
                ),
            ) == scan(cs@, framed, deflang@, 0, scan_init(deflang@)),
            scan_wf(
                mk_state(
                    ph@,
                    st@,
                    spans@,
                    word_start,
                    pending,
                    current,
                    in_vowel,
                    OriginS { phone: o_phone as int, barrier: o_barrier as int, language: o_lang@ },
                    origins@,
                ),
                i as int,
            ),
        decreases cs.len() - i,
    {
        let ch = if cs[i] == '\u{3b5}' {
            '\u{25b}'
        } else {
            cs[i]
        };
        if ch == '(' {
            if let Some(len) = marker_len(cs, i) {
                if framed {
                    let inner = sub_chars(cs, i + 1, i + len - 1);
                    let lang = lower_ascii(&inner);
                    o_lang = if chars_eq(&deflang_head, &lang) {
                        copy_chars(deflang)
                    } else {
                        lang
                    };
                    o_barrier += 1;
                    o_phone += 1;
                }
                i += len;
                continue;
            }
        }
        if framed && ch == PHONE_SEPARATOR {
            o_phone += 1;
            i += 1;
            continue;
        }
        if separator_punct(ch) {
            let ghost i0 = i;
            i += 1;
            while i < cs.len() && (continuation(cs[i]) || cs[i] == PHONE_SEPARATOR)
                invariant
                    i0 < i <= cs.len(),
                    skip_mods(cs@, i as int) == skip_mods(cs@, i0 + 1),
                decreases cs.len() - i,
            {
                i += 1;
            }
            o_barrier += 1;
            in_vowel = false;
            continue;
        }
        let ghost s0 = mk_state(
            ph@,
            st@,
            spans@,
            word_start,
            pending,
            current,
            in_vowel,
            OriginS { phone: o_phone as int, barrier: o_barrier as int, language: o_lang@ },
            origins@,
        );
        let n = ph.len();
        let ghost ph0 = ph@;
        let ghost origins0 = origins@;
        if ch == '\u{2c8}' {
            o_barrier += 1;
            pending = Some(Stress::Primary);
            in_vowel = false;
        } else if ch == '\u{2cc}' {
            o_barrier += 1;
            pending = Some(Stress::Secondary);
            in_vowel = false;
        } else if word_boundary(ch) {
            if n > word_start {
                proof {
                    lemma_tiles_push(spans@, word_start as int, n as int);
                }
                spans.push((word_start, n));
            }
            word_start = n;
            pending = None;
            current = Stress::Unstressed;
            in_vowel = false;
        } else if vowel(ch) {
            match pending {
                Some(p) => {
                    current = p;
                },
                None => {
                    if !in_vowel {
                        current = Stress::Unstressed;
                    }
                },
            }
            pending = None;
            in_vowel = true;
            ph.push(single(ch));
            st.push(current);
            origins.push(Origin { phone: o_phone, barrier: o_barrier, language: copy_chars(&o_lang) });
        } else if (continuation(ch) && n > 0) || (ch == '\u{2b2}' && n > 0 && !first_is_vowel(&ph[n - 1])) {
            let ghost old_ph = ph@;
            let mut last = ph.pop().unwrap();
            last.push(ch);
            ph.push(last);
            proof {
                assert(views(ph@) =~= views(old_ph).update(n - 1, views(old_ph).last().push(ch)));
            }
        } else {
            if !continuation(ch) {
                in_vowel = false;
                current = Stress::Unstressed;
            }
            ph.push(single(ch));
            st.push(Stress::Unstressed);
            origins.push(Origin { phone: o_phone, barrier: o_barrier, language: copy_chars(&o_lang) });
        }
        i += 1;
        proof {
            let s1 = mk_state(
                ph@,
                st@,
                spans@,
                word_start,
                pending,
                current,
                in_vowel,
                OriginS { phone: o_phone as int, barrier: o_barrier as int, language: o_lang@ },
                origins@,
            );
            if ph@.len() > n {
                assert(ph@ == ph0.push(ph@[n as int]));
                assert(views(ph@) =~= views(ph0).push(seq![ch]));
                assert(origins@ == origins0.push(origins@[n as int]));
                assert(origin_views(origins@) =~= origin_views(origins0).push(s0.origin));
            }
            assert(s1 =~= char_step(s0, ch));
        }
    }
    let ghost s_end = mk_state(
        ph@,
        st@,
        spans@,
        word_start,
        pending,
        current,
        in_vowel,
        OriginS { phone: o_phone as int, barrier: o_barrier as int, language: o_lang@ },
        origins@,
    );
    let n = ph.len();
    if n > word_start {
        proof {
            lemma_tiles_push(spans@, word_start as int, n as int);
        }
        spans.push((word_start, n));
    }
    Draft { ph, st, spans, origins }
}


// ---------------------------------------------------------------------------
// Unit merging (framed engine traces)
// ---------------------------------------------------------------------------

/// `s` without continuation marks and `ʲ`.
pub open spec fn base_of(s: Seq<char>) -> Seq<char>
    decreases s.len(),
{
    if s.len() == 0 {
        s
    } else if !is_continuation(s.last()) && s.last() != '\u{2b2}' {
        base_of(s.drop_last()).push(s.last())
    } else {
        base_of(s.drop_last())
    }
}

/// Stop + fricative pairs that form an affricate, compared on their bases so
/// that length, continuation, and palatalization detail is kept.
pub open spec fn is_affricate(left: Seq<char>, right: Seq<char>) -> bool {
    let l = base_of(left);
    let r = base_of(right);
    ||| l == seq!['t'] && (r == seq!['ʃ'] || r == seq!['s'] || r == seq!['ɕ'] || r == seq!['ʂ'] || r
        == seq!['θ'])
    ||| l == seq!['d'] && (r == seq!['ʒ'] || r == seq!['z'] || r == seq!['ʑ'] || r == seq!['ʐ'] || r
        == seq!['ð'])
    ||| l == seq!['p'] && r == seq!['f']
    ||| l == seq!['b'] && r == seq!['v']
    ||| l == seq!['k'] && r == seq!['x']
    ||| l == seq!['\u{261}'] && r == seq!['\u{263}']
    ||| l == seq!['ʈ'] && r == seq!['ʂ']
    ||| l == seq!['ɖ'] && r == seq!['ʐ']
}

pub open spec fn is_english(lang: Seq<char>) -> bool {
    lang == seq!['e', 'n'] || (lang.len() >= 3 && lang[0] == 'e' && lang[1] == 'n' && lang[2] == '-')
}

/// Multi-character vowel units a language's labels keep whole.
pub open spec fn is_vowel_unit(u: Seq<char>, lang: Seq<char>) -> bool {
    if is_english(lang) {
        ||| u == seq!['e', 'ɪ']
        ||| u == seq!['a', 'ɪ']
        ||| u == seq!['ɔ', 'ɪ']
        ||| u == seq!['a', 'ʊ']
        ||| u == seq!['o', 'ʊ']
        ||| u == seq!['ə', 'ʊ']
        ||| u == seq!['ɑ', '\u{2d0}', 'ɹ']
        ||| u == seq!['ɔ', '\u{2d0}', 'ɹ']
        ||| u == seq!['ɪ', 'ɹ']
        ||| u == seq!['ɛ', 'ɹ']
        ||| u == seq!['ʊ', 'ɹ']
    } else if lang == seq!['d', 'e'] {
        ||| u == seq!['a', 'ɪ']
        ||| u == seq!['a', 'ʊ']
        ||| u == seq!['ɔ', 'ʏ']
        ||| u == seq!['ɔ', 'ø']
    } else if lang == seq!['p', 't', '-', 'b', 'r'] {
        ||| u == seq!['a', 'ʊ']
        ||| u == seq!['e', 'ɪ']
        ||| u == seq!['o', 'ʊ']
        ||| u == seq!['a', 'ɪ']
        ||| u == seq!['ɐ', '\u{303}', 'ʊ', '\u{303}']
        ||| u == seq!['ɐ', '\u{303}', 'ɪ', '\u{303}']
        ||| u == seq!['ɐ', '\u{303}', 'j']
        ||| u == seq!['o', '\u{303}', 'ɪ', '\u{303}']
        ||| u == seq!['u', '\u{303}', 'ɪ', '\u{303}']
    } else if lang == seq!['c', 's'] {
        ||| u == seq!['e', 'ɪ']
        ||| u == seq!['o', 'ʊ']
        ||| u == seq!['a', 'ʊ']
    } else {
        false
    }
}

pub open spec fn is_tie(s: Seq<char>) -> bool {
    s == seq!['\u{361}'] || s == seq!['\u{35c}']
}

/// How many scanned phones, starting at `i` inside a word ending at `end`,
/// form the next label: an affricate inside one engine phone (optionally with
/// an explicit tie), a vowel unit inside one engine phone, or one of the two
/// coda exceptions (English vowel + `ɹ`, Brazilian `ɐ̃` + `j`).
pub open spec fn merge_width(ph: Seq<Seq<char>>, og: Seq<OriginS>, i: int, end: int) -> int {
    if i + 1 >= end {
        1
    } else {
        let tied = i + 2 < end && is_tie(ph[i + 1]);
        let width = if tied {
            3
        } else {
            2
        };
        let last = i + width - 1;
        let a = og[i];
        let b = og[last];
        let right = ph[last];
        let joined = unit_at(ph, i, width);
        let same_phone = a.phone == b.phone;
        let coda = i + 2 == end || !starts_with_vowel(ph[i + 2]);
        let cross_phone = coda && ((is_english(a.language) && right == seq!['ɹ']) || (a.language
            == seq!['p', 't', '-', 'b', 'r'] && joined == seq!['ɐ', '\u{303}', 'j']));
        if a.barrier == b.barrier && a.language == b.language && ((same_phone && is_affricate(
            ph[i],
            right,
        )) || (!tied && (same_phone || cross_phone) && is_vowel_unit(joined, a.language))) {
            width
        } else {
            1
        }
    }
}

/// The concatenation of `w` phones from `i`.
pub open spec fn unit_at(ph: Seq<Seq<char>>, i: int, w: int) -> Seq<char> {
    if w == 1 {
        ph[i]
    } else if w == 2 {
        ph[i] + ph[i + 1]
    } else {
        ph[i] + ph[i + 1] + ph[i + 2]
    }
}

pub proof fn lemma_merge_width(ph: Seq<Seq<char>>, og: Seq<OriginS>, i: int, end: int)
    ensures
        1 <= merge_width(ph, og, i, end),
        i < end ==> i + merge_width(ph, og, i, end) <= end,
{
}

/// Merged labels and their stress for the phones `[i, end)` of one word.
pub open spec fn merge_word(
    ph: Seq<Seq<char>>,
    st: Seq<Stress>,
    og: Seq<OriginS>,
    i: int,
    end: int,
) -> (Seq<Seq<char>>, Seq<Stress>)
    decreases end - i,
{
    if i >= end {
        (Seq::empty(), Seq::empty())
    } else {
        proof {
            lemma_merge_width(ph, og, i, end);
        }
        let w = merge_width(ph, og, i, end);
        let rest = merge_word(ph, st, og, i + w, end);
        (seq![unit_at(ph, i, w)] + rest.0, seq![st[i]] + rest.1)
    }
}

pub proof fn lemma_merge_word_len(
    ph: Seq<Seq<char>>,
    st: Seq<Stress>,
    og: Seq<OriginS>,
    i: int,
    end: int,
)
    ensures
        merge_word(ph, st, og, i, end).0.len() == merge_word(ph, st, og, i, end).1.len(),
        i < end ==> 1 <= merge_word(ph, st, og, i, end).0.len() <= end - i,
        i >= end ==> merge_word(ph, st, og, i, end).0.len() == 0,
    decreases end - i,
{
    if i < end {
        lemma_merge_width(ph, og, i, end);
        lemma_merge_word_len(ph, st, og, i + merge_width(ph, og, i, end), end);
    }
}

/// Parsed labels: phonemes, their stress, and word spans.
#[verifier::ext_equal]
pub struct ParsedS {
    pub phonemes: Seq<Seq<char>>,
    pub stress: Seq<Stress>,
    pub word_spans: Seq<(usize, usize)>,
}

/// The first `k` words of a scan, merged.
pub open spec fn merge_words(
    ph: Seq<Seq<char>>,
    st: Seq<Stress>,
    og: Seq<OriginS>,
    spans: Seq<(usize, usize)>,
    k: int,
) -> ParsedS
    decreases k,
{
    if k <= 0 {
        ParsedS { phonemes: Seq::empty(), stress: Seq::empty(), word_spans: Seq::empty() }
    } else {
        let prev = merge_words(ph, st, og, spans, k - 1);
        let w = merge_word(ph, st, og, spans[k - 1].0 as int, spans[k - 1].1 as int);
        ParsedS {
            phonemes: prev.phonemes + w.0,
            stress: prev.stress + w.1,
            word_spans: prev.word_spans.push(
                (prev.phonemes.len() as usize, (prev.phonemes.len() + w.0.len()) as usize),
            ),
        }
    }
}

pub proof fn lemma_tiles_bounds(spans: Seq<(usize, usize)>, n: int, k: int)
    requires
        tiles(spans, n),
        0 <= k < spans.len(),
    ensures
        0 <= spans[k].0 < spans[k].1 <= n,
        k + 1 < spans.len() ==> spans[k].1 < spans[k + 1].1,
{
    lemma_tiles_lower(spans, n, k);
    lemma_tiles_upper(spans, n, k);
}

proof fn lemma_tiles_lower(spans: Seq<(usize, usize)>, n: int, k: int)
    requires
        tiles(spans, n),
        0 <= k < spans.len(),
    ensures
        0 <= spans[k].0,
        k > 0 ==> spans[k].0 == spans[k - 1].1,
    decreases k,
{
    if k > 0 {
        lemma_tiles_lower(spans, n, k - 1);
        assert(spans[k - 1].1 == spans[(k - 1) + 1].0);
    }
}

proof fn lemma_tiles_upper(spans: Seq<(usize, usize)>, n: int, k: int)
    requires
        tiles(spans, n),
        0 <= k < spans.len(),
    ensures
        spans[k].1 <= n,
    decreases spans.len() - k,
{
    if k + 1 < spans.len() {
        lemma_tiles_upper(spans, n, k + 1);
        assert(spans[k].1 == spans[k + 1].0);
        assert(spans[k + 1].0 < spans[k + 1].1);
    }
}

pub proof fn lemma_merge_words_wf(
    ph: Seq<Seq<char>>,
    st: Seq<Stress>,
    og: Seq<OriginS>,
    spans: Seq<(usize, usize)>,
    n: int,
    k: int,
)
    requires
        tiles(spans, n),
        0 <= k <= spans.len(),
        n <= usize::MAX,
    ensures
        merge_words(ph, st, og, spans, k).stress.len() == merge_words(ph, st, og, spans, k).phonemes.len(),
        merge_words(ph, st, og, spans, k).phonemes.len() <= (if k == 0 { 0 } else { spans[k - 1].1 as int }),
        tiles(merge_words(ph, st, og, spans, k).word_spans, merge_words(ph, st, og, spans, k).phonemes.len() as int),
    decreases k,
{
    if k > 0 {
        lemma_merge_words_wf(ph, st, og, spans, n, k - 1);
        lemma_tiles_bounds(spans, n, k - 1);
        if k > 1 {
            lemma_tiles_bounds(spans, n, k - 2);
            lemma_tiles_lower(spans, n, k - 1);
        } else {
            assert(spans[0].0 == 0);
        }
        let prev = merge_words(ph, st, og, spans, k - 1);
        lemma_merge_word_len(ph, st, og, spans[k - 1].0 as int, spans[k - 1].1 as int);
        lemma_tiles_push(prev.word_spans, prev.phonemes.len() as int, (prev.phonemes.len() + merge_word(ph, st, og, spans[k - 1].0 as int, spans[k - 1].1 as int).0.len()) as int);
    }
}


fn base_chars(s: &[char]) -> (r: Vec<char>)
    ensures
        r@ == base_of(s@),
{
    let mut r: Vec<char> = Vec::new();
    let mut i: usize = 0;
    while i < s.len()
        invariant
            i <= s.len(),
            r@ == base_of(s@.subrange(0, i as int)),
        decreases s.len() - i,
    {
        proof {
            assert(s@.subrange(0, i + 1).drop_last() =~= s@.subrange(0, i as int));
        }
        if !continuation(s[i]) && s[i] != '\u{2b2}' {
            r.push(s[i]);
        }
        i += 1;
    }
    proof {
        assert(s@.subrange(0, s@.len() as int) =~= s@);
    }
    r
}

/// Whether `s` is exactly the one character `c`.
pub fn is_one(s: &[char], c: char) -> (r: bool)
    ensures
        r == (s@ == seq![c]),
{
    if s.len() == 1 && s[0] == c {
        assert(s@ =~= seq![c]);
        true
    } else {
        false
    }
}

fn affricate(left: &[char], right: &[char]) -> (r: bool)
    ensures
        r == is_affricate(left@, right@),
{
    let l = base_chars(left);
    let r = base_chars(right);
    (is_one(&l, 't') && (is_one(&r, 'ʃ') || is_one(&r, 's') || is_one(&r, 'ɕ') || is_one(&r, 'ʂ')
        || is_one(&r, 'θ'))) || (is_one(&l, 'd') && (is_one(&r, 'ʒ') || is_one(&r, 'z') || is_one(
        &r,
        'ʑ',
    ) || is_one(&r, 'ʐ') || is_one(&r, 'ð'))) || (is_one(&l, 'p') && is_one(&r, 'f')) || (is_one(
        &l,
        'b',
    ) && is_one(&r, 'v')) || (is_one(&l, 'k') && is_one(&r, 'x')) || (is_one(&l, '\u{261}')
        && is_one(&r, '\u{263}')) || (is_one(&l, 'ʈ') && is_one(&r, 'ʂ')) || (is_one(&l, 'ɖ')
        && is_one(&r, 'ʐ'))
}

fn english(lang: &[char]) -> (r: bool)
    ensures
        r == is_english(lang@),
{
    chars_eq(lang, &['e', 'n']) || (lang.len() >= 3 && lang[0] == 'e' && lang[1] == 'n' && lang[2]
        == '-')
}

fn vowel_unit(u: &[char], lang: &[char]) -> (r: bool)
    ensures
        r == is_vowel_unit(u@, lang@),
{
    if english(lang) {
        chars_eq(u, &['e', 'ɪ']) || chars_eq(u, &['a', 'ɪ']) || chars_eq(u, &['ɔ', 'ɪ']) || chars_eq(
            u,
            &['a', 'ʊ'],
        ) || chars_eq(u, &['o', 'ʊ']) || chars_eq(u, &['ə', 'ʊ']) || chars_eq(
            u,
            &['ɑ', '\u{2d0}', 'ɹ'],
        ) || chars_eq(u, &['ɔ', '\u{2d0}', 'ɹ']) || chars_eq(u, &['ɪ', 'ɹ']) || chars_eq(
            u,
            &['ɛ', 'ɹ'],
        ) || chars_eq(u, &['ʊ', 'ɹ'])
    } else if chars_eq(lang, &['d', 'e']) {
        chars_eq(u, &['a', 'ɪ']) || chars_eq(u, &['a', 'ʊ']) || chars_eq(u, &['ɔ', 'ʏ']) || chars_eq(
            u,
            &['ɔ', 'ø'],
        )
    } else if chars_eq(lang, &['p', 't', '-', 'b', 'r']) {
        chars_eq(u, &['a', 'ʊ']) || chars_eq(u, &['e', 'ɪ']) || chars_eq(u, &['o', 'ʊ']) || chars_eq(
            u,
            &['a', 'ɪ'],
        ) || chars_eq(u, &['ɐ', '\u{303}', 'ʊ', '\u{303}']) || chars_eq(
            u,
            &['ɐ', '\u{303}', 'ɪ', '\u{303}'],
        ) || chars_eq(u, &['ɐ', '\u{303}', 'j']) || chars_eq(u, &['o', '\u{303}', 'ɪ', '\u{303}'])
            || chars_eq(u, &['u', '\u{303}', 'ɪ', '\u{303}'])
    } else if chars_eq(lang, &['c', 's']) {
        chars_eq(u, &['e', 'ɪ']) || chars_eq(u, &['o', 'ʊ']) || chars_eq(u, &['a', 'ʊ'])
    } else {
        false
    }
}

/// `a` followed by `b`.
pub fn concat_chars(a: &[char], b: &[char]) -> (r: Vec<char>)
    ensures
        r@ == a@ + b@,
{
    let mut r = copy_chars(a);
    let mut k: usize = 0;
    while k < b.len()
        invariant
            k <= b.len(),
            r@ == a@ + b@.subrange(0, k as int),
        decreases b.len() - k,
    {
        r.push(b[k]);
        proof {
            assert(a@ + b@.subrange(0, k + 1) =~= (a@ + b@.subrange(0, k as int)).push(b@[k as int]));
        }
        k += 1;
    }
    proof {
        assert(b@.subrange(0, b@.len() as int) =~= b@);
    }
    r
}

fn tie(s: &[char]) -> (r: bool)
    ensures
        r == is_tie(s@),
{
    is_one(s, '\u{361}') || is_one(s, '\u{35c}')
}

fn width_at(ph: &Vec<Vec<char>>, og: &Vec<Origin>, i: usize, end: usize) -> (r: (usize, Vec<char>))
    requires
        i < end <= ph@.len(),
        og@.len() == ph@.len(),
    ensures
        r.0 == merge_width(views(ph@), origin_views(og@), i as int, end as int),
        r.1@ == unit_at(views(ph@), i as int, r.0 as int),
{
    let ghost v = views(ph@);
    let ghost o = origin_views(og@);
    if i + 1 >= end {
        return (1, copy_chars(&ph[i]));
    }
    let tied = i + 2 < end && tie(&ph[i + 1]);
    let width: usize = if tied {
        3
    } else {
        2
    };
    let last = i + width - 1;
    let a = &og[i];
    let b = &og[last];
    let right = &ph[last];
    let pair = concat_chars(&ph[i], &ph[i + 1]);
    let joined = if tied {
        concat_chars(&pair, &ph[i + 2])
    } else {
        pair
    };
    let same_phone = a.phone == b.phone;
    let coda = i + 2 == end || !first_is_vowel(&ph[i + 2]);
    let cross_phone = coda && ((english(&a.language) && is_one(right, 'ɹ')) || (chars_eq(
        &a.language,
        &['p', 't', '-', 'b', 'r'],
    ) && chars_eq(&joined, &['ɐ', '\u{303}', 'j'])));
    proof {
        assert(v[i as int] == ph@[i as int]@);
        assert(o[i as int] == og@[i as int]@);
        assert(o[last as int] == og@[last as int]@);
    }
    if a.barrier == b.barrier && chars_eq(&a.language, &b.language) && ((same_phone && affricate(
        &ph[i],
        right,
    )) || (!tied && (same_phone || cross_phone) && vowel_unit(&joined, &a.language))) {
        (width, joined)
    } else {
        (1, copy_chars(&ph[i]))
    }
}

/// Merge the units of every word of a framed scan.
fn merge_units(d: &Draft) -> (r: (Vec<Vec<char>>, Vec<Stress>, Vec<(usize, usize)>))
    requires
        d.st@.len() == d.ph@.len(),
        d.origins@.len() == d.ph@.len(),
        tiles(d.spans@, d.ph@.len() as int),
    ensures
        views(r.0@) == merge_words(views(d.ph@), d.st@, origin_views(d.origins@), d.spans@, d.spans@.len() as int).phonemes,
        r.1@ == merge_words(views(d.ph@), d.st@, origin_views(d.origins@), d.spans@, d.spans@.len() as int).stress,
        r.2@ == merge_words(views(d.ph@), d.st@, origin_views(d.origins@), d.spans@, d.spans@.len() as int).word_spans,
{
    let ghost ph = views(d.ph@);
    let ghost og = origin_views(d.origins@);
    let ghost n = d.ph@.len() as int;
    let mut out_ph: Vec<Vec<char>> = Vec::new();
    let mut out_st: Vec<Stress> = Vec::new();
    let mut out_spans: Vec<(usize, usize)> = Vec::new();
    let mut k: usize = 0;
    proof {
        assert(views(out_ph@) =~= Seq::<Seq<char>>::empty());
    }
    while k < d.spans.len()
        invariant
            k <= d.spans@.len(),
            d.st@.len() == d.ph@.len(),
            d.origins@.len() == d.ph@.len(),
            tiles(d.spans@, n),
            n == d.ph@.len(),
            ph == views(d.ph@),
            og == origin_views(d.origins@),
            views(out_ph@) == merge_words(ph, d.st@, og, d.spans@, k as int).phonemes,
            out_st@ == merge_words(ph, d.st@, og, d.spans@, k as int).stress,
            out_spans@ == merge_words(ph, d.st@, og, d.spans@, k as int).word_spans,
        decreases d.spans@.len() - k,
    {
        proof {
            lemma_tiles_bounds(d.spans@, n, k as int);
            lemma_merge_words_wf(ph, d.st@, og, d.spans@, n, k as int);
            if k > 0 {
                lemma_tiles_lower(d.spans@, n, k as int);
            } else {
                assert(d.spans@[0].0 == 0);
            }
        }
        let (start, end) = d.spans[k];
        let word_start = out_ph.len();
        let ghost prev_ph = views(out_ph@);
        let ghost prev_st = out_st@;
        let mut i = start;
        proof {
            assert(prev_ph + merge_word(ph, d.st@, og, start as int, end as int).0 == prev_ph + merge_word(ph, d.st@, og, start as int, end as int).0);
        }
        while i < end
            invariant
                start <= i <= end <= n,
                n == d.ph@.len(),
                d.st@.len() == d.ph@.len(),
                d.origins@.len() == d.ph@.len(),
                ph == views(d.ph@),
                og == origin_views(d.origins@),
                views(out_ph@) + merge_word(ph, d.st@, og, i as int, end as int).0 == prev_ph
                    + merge_word(ph, d.st@, og, start as int, end as int).0,
                out_st@ + merge_word(ph, d.st@, og, i as int, end as int).1 == prev_st
                    + merge_word(ph, d.st@, og, start as int, end as int).1,
            decreases end - i,
        {
            let ghost before_ph = views(out_ph@);
            let ghost before_st = out_st@;
            let (w, unit) = width_at(&d.ph, &d.origins, i, end);
            proof {
                lemma_merge_width(ph, og, i as int, end as int);
            }
            out_ph.push(unit);
            out_st.push(d.st[i]);
            proof {
                let rest = merge_word(ph, d.st@, og, i + w, end as int);
                assert(views(out_ph@) =~= before_ph.push(unit_at(ph, i as int, w as int)));
                assert(before_ph + merge_word(ph, d.st@, og, i as int, end as int).0 =~= views(out_ph@) + rest.0);
                assert(before_st + merge_word(ph, d.st@, og, i as int, end as int).1 =~= out_st@ + rest.1);
            }
            i += w;
        }
        proof {
            let e = merge_word(ph, d.st@, og, end as int, end as int);
            assert(views(out_ph@) + e.0 =~= views(out_ph@));
            assert(out_st@ + e.1 =~= out_st@);
        }
        out_spans.push((word_start, out_ph.len()));
        k += 1;
    }
    (out_ph, out_st, out_spans)
}


// ---------------------------------------------------------------------------
// Public parsers
// ---------------------------------------------------------------------------

/// A parsed utterance. `phonemes` and `stress` are parallel; each
/// `word_spans` entry is a half-open `[start, end)` index range into them
/// for one word espeak emitted (empty words are dropped).
#[derive(Debug, Clone, PartialEq, Eq, Default)]
pub struct Parsed {
    pub phonemes: Vec<String>,
    pub stress: Vec<Stress>,
    pub word_spans: Vec<(usize, usize)>,
}

impl View for Parsed {
    type V = ParsedS;

    open spec fn view(&self) -> ParsedS {
        ParsedS {
            phonemes: string_views(self.phonemes@),
            stress: self.stress@,
            word_spans: self.word_spans@,
        }
    }
}

/// Tokenization of `cs`; with a language, of a framed engine trace (phone
/// separators honoured, units merged).
pub open spec fn parse_spec(cs: Seq<char>, language: Option<Seq<char>>) -> ParsedS {
    let framed = language is Some;
    let dl = ascii_lower(
        match language {
            Some(l) => l,
            None => Seq::empty(),
        },
    );
    let s = scan_all(cs, framed, dl);
    if framed {
        merge_words(s.ph, s.st, s.origins, s.spans, s.spans.len() as int)
    } else {
        ParsedS { phonemes: s.ph, stress: s.st, word_spans: s.spans }
    }
}

/// The requested language's label for a phone that espeak's code-switched
/// loanwords spell from another table.
pub open spec fn replacement(head: Seq<char>, p: Seq<char>) -> Seq<char> {
    if head == seq!['e', 'n'] && (p == seq!['ɐ'] || p == seq!['ᵻ']) {
        seq!['ə']
    } else if head == seq!['f', 'r'] {
        if p == seq!['u', '\u{2d0}'] || p == seq!['ʊ'] {
            seq!['u']
        } else if p == seq!['ɔ', '\u{2d0}'] || p == seq!['ɒ'] {
            seq!['ɔ']
        } else if p == seq!['ɑ', '\u{2d0}'] || p == seq!['a', '\u{2d0}'] || p == seq!['ʌ'] || p
            == seq!['ɐ'] {
            seq!['a']
        } else if p == seq!['o', '\u{2d0}'] {
            seq!['o']
        } else if p == seq!['i', '\u{2d0}'] || p == seq!['ɪ'] {
            seq!['i']
        } else if p == seq!['y', '\u{2d0}'] {
            seq!['y']
        } else if p == seq!['e', '\u{2d0}'] {
            seq!['e']
        } else if p == seq!['ɜ', '\u{2d0}'] {
            seq!['œ']
        } else {
            p
        }
    } else if head == seq!['i', 't'] {
        if p == seq!['ɪ'] {
            seq!['i']
        } else if p == seq!['ʊ'] {
            seq!['u']
        } else {
            p
        }
    } else {
        p
    }
}

/// Framed parse of an engine trace, relabelled to the requested language.
pub open spec fn parse_framed_spec(cs: Seq<char>, language: Seq<char>) -> ParsedS {
    let p = parse_spec(cs, Some(language));
    ParsedS {
        phonemes: p.phonemes.map_values(|x: Seq<char>| replacement(dash_prefix(language), x)),
        ..p
    }
}

/// Whether `p` is parallel to its stress and tiled by its word spans.
pub open spec fn parsed_wf(p: ParsedS) -> bool {
    &&& p.stress.len() == p.phonemes.len()
    &&& tiles(p.word_spans, p.phonemes.len() as int)
}

/// The scanner's word bookkeeping: closed words tile the phones before the
/// open one, and no more phones than characters read.
pub open spec fn scan_words_wf(s: ScanS, i: int) -> bool {
    &&& tiles(s.spans, s.word_start)
    &&& 0 <= s.word_start <= s.ph.len() <= i
    &&& s.st.len() == s.ph.len()
    &&& s.origins.len() == s.ph.len()
}

#[verifier::spinoff_prover]
proof fn lemma_scan_words(cs: Seq<char>, framed: bool, deflang: Seq<char>, i: int, s: ScanS)
    requires
        0 <= i,
        cs.len() <= usize::MAX,
        scan_words_wf(s, i),
    ensures
        scan_words_wf(scan(cs, framed, deflang, i, s), if i < cs.len() { cs.len() as int } else { i }),
    decreases cs.len() - i,
{
    if i < 0 || i >= cs.len() {
    } else {
        let ch = norm_char(cs[i]);
        if ch == '(' && marker_end(cs, i) > i {
            lemma_marker_end_bounds(cs, i);
            let e = marker_end(cs, i);
            let s2 = if framed {
                ScanS {
                    origin: OriginS {
                        phone: s.origin.phone + 1,
                        barrier: s.origin.barrier + 1,
                        language: switch_language(ascii_lower(cs.subrange(i + 1, e - 1)), deflang),
                    },
                    ..s
                }
            } else {
                s
            };
            lemma_scan_words(cs, framed, deflang, e, s2);
        } else if framed && ch == PHONE_SEPARATOR {
            lemma_scan_words(
                cs,
                framed,
                deflang,
                i + 1,
                ScanS { origin: OriginS { phone: s.origin.phone + 1, ..s.origin }, ..s },
            );
        } else if is_separator_punct(ch) {
            lemma_skip_mods_bounds(cs, i + 1);
            lemma_scan_words(
                cs,
                framed,
                deflang,
                skip_mods(cs, i + 1),
                ScanS { origin: bump_barrier(s.origin), in_vowel: false, ..s },
            );
        } else {
            if is_word_boundary(ch) && s.ph.len() > s.word_start {
                lemma_tiles_push(s.spans, s.word_start, s.ph.len() as int);
            }
            lemma_scan_words(cs, framed, deflang, i + 1, char_step(s, ch));
        }
    }
}

/// A scan's words tile its phones.
pub proof fn lemma_scan_all_tiles(cs: Seq<char>, framed: bool, deflang: Seq<char>)
    requires
        cs.len() <= usize::MAX,
    ensures
        tiles(scan_all(cs, framed, deflang).spans, scan_all(cs, framed, deflang).ph.len() as int),
        scan_all(cs, framed, deflang).ph.len() <= cs.len(),
        scan_all(cs, framed, deflang).st.len() == scan_all(cs, framed, deflang).ph.len(),
{
    let s = scan(cs, framed, deflang, 0, scan_init(deflang));
    lemma_scan_words(cs, framed, deflang, 0, scan_init(deflang));
    if s.ph.len() > s.word_start {
        lemma_tiles_push(s.spans, s.word_start, s.ph.len() as int);
    }
}

proof fn lemma_unit_flat(ph: Seq<Seq<char>>, i: int, w: int)
    requires
        0 <= i,
        i + w <= ph.len(),
        1 <= w <= 3,
    ensures
        ph.subrange(i, i + w).flatten() == unit_at(ph, i, w),
{
    let t = ph.subrange(i, i + w);
    let x = seq![ph[i]];
    x.lemma_flatten_one_element();
    if w == 1 {
        assert(t =~= x);
    } else {
        let y = seq![ph[i + 1]];
        y.lemma_flatten_one_element();
        lemma_flatten_concat(x, y);
        if w == 2 {
            assert(t =~= x + y);
        } else {
            let z = seq![ph[i + 2]];
            z.lemma_flatten_one_element();
            lemma_flatten_concat(x + y, z);
            assert(t =~= (x + y) + z);
        }
    }
}

proof fn lemma_merge_word_flat(ph: Seq<Seq<char>>, st: Seq<Stress>, og: Seq<OriginS>, i: int, end: int)
    requires
        0 <= i <= end <= ph.len(),
    ensures
        merge_word(ph, st, og, i, end).0.flatten() == ph.subrange(i, end).flatten(),
    decreases end - i,
{
    if i < end {
        lemma_merge_width(ph, og, i, end);
        let w = merge_width(ph, og, i, end);
        assert(w <= 3);
        lemma_merge_word_flat(ph, st, og, i + w, end);
        let rest = merge_word(ph, st, og, i + w, end).0;
        let u = unit_at(ph, i, w);
        assert(merge_word(ph, st, og, i, end).0 == seq![u] + rest);
        lemma_flatten_concat(seq![u], rest);
        seq![u].lemma_flatten_one_element();
        assert(ph.subrange(i, end) =~= ph.subrange(i, i + w) + ph.subrange(i + w, end));
        lemma_flatten_concat(ph.subrange(i, i + w), ph.subrange(i + w, end));
        lemma_unit_flat(ph, i, w);
    } else {
        assert(ph.subrange(i, end) =~= Seq::<Seq<char>>::empty());
        assert(merge_word(ph, st, og, i, end).0 =~= Seq::<Seq<char>>::empty());
    }
}

/// The `j`-th word of a parse, its labels concatenated.
pub open spec fn word_text(p: ParsedS, j: int) -> Seq<char> {
    p.phonemes.subrange(p.word_spans[j].0 as int, p.word_spans[j].1 as int).flatten()
}

#[verifier::spinoff_prover]
proof fn lemma_merge_words_flat(
    ph: Seq<Seq<char>>,
    st: Seq<Stress>,
    og: Seq<OriginS>,
    spans: Seq<(usize, usize)>,
    k: int,
)
    requires
        tiles(spans, ph.len() as int),
        ph.len() <= usize::MAX,
        0 <= k <= spans.len(),
    ensures
        merge_words(ph, st, og, spans, k).word_spans.len() == k,
        forall|j: int|
            0 <= j < k ==> #[trigger] word_text(merge_words(ph, st, og, spans, k), j) == ph.subrange(
                spans[j].0 as int,
                spans[j].1 as int,
            ).flatten(),
    decreases k,
{
    if k > 0 {
        lemma_merge_words_flat(ph, st, og, spans, k - 1);
        lemma_merge_words_wf(ph, st, og, spans, ph.len() as int, k);
        lemma_merge_words_wf(ph, st, og, spans, ph.len() as int, k - 1);
        lemma_tiles_bounds(spans, ph.len() as int, k - 1);
        let prev = merge_words(ph, st, og, spans, k - 1);
        let p = merge_words(ph, st, og, spans, k);
        let a = spans[k - 1].0 as int;
        let b = spans[k - 1].1 as int;
        let w = merge_word(ph, st, og, a, b);
        lemma_merge_word_flat(ph, st, og, a, b);
        lemma_merge_word_len(ph, st, og, a, b);
        assert forall|j: int| 0 <= j < k implies #[trigger] word_text(p, j) == ph.subrange(
            spans[j].0 as int,
            spans[j].1 as int,
        ).flatten() by {
            if j < k - 1 {
                assert(word_text(prev, j) == ph.subrange(spans[j].0 as int, spans[j].1 as int).flatten());
                lemma_tiles_bounds(prev.word_spans, prev.phonemes.len() as int, j);
                assert(p.word_spans[j] == prev.word_spans[j]);
                assert(p.phonemes.subrange(p.word_spans[j].0 as int, p.word_spans[j].1 as int)
                    =~= prev.phonemes.subrange(prev.word_spans[j].0 as int, prev.word_spans[j].1 as int));
            } else {
                assert(p.word_spans[j] == (prev.phonemes.len() as usize, (prev.phonemes.len() + w.0.len()) as usize));
                assert(p.phonemes.subrange(p.word_spans[j].0 as int, p.word_spans[j].1 as int) =~= w.0);
            }
        }
    }
}

/// Framed parsing only joins adjacent phones of one word into a label:
/// there is one labeled word per scanned word, and each labeled word's
/// labels, concatenated, spell exactly that word's scanned phones
/// (before relabeling to the requested language).
pub proof fn law_merging_joins_within_words(cs: Seq<char>, language: Seq<char>)
    requires
        cs.len() <= usize::MAX,
    ensures
        ({
            let s = scan_all(cs, true, ascii_lower(language));
            let p = parse_spec(cs, Some(language));
            &&& p.word_spans.len() == s.spans.len()
            &&& forall|k: int|
                0 <= k < s.spans.len() ==> #[trigger] word_text(p, k) == s.ph.subrange(
                    s.spans[k].0 as int,
                    s.spans[k].1 as int,
                ).flatten()
        }),
{
    let dl = ascii_lower(language);
    let s = scan_all(cs, true, dl);
    lemma_scan_all_tiles(cs, true, dl);
    lemma_merge_words_flat(s.ph, s.st, s.origins, s.spans, s.spans.len() as int);
}

proof fn lemma_base_of_members(s: Seq<char>)
    ensures
        base_of(s).len() <= s.len(),
        forall|j: int| 0 <= j < s.len() ==> is_continuation(#[trigger] s[j]) || s[j] == '\u{2b2}'
            || base_of(s).contains(s[j]),
    decreases s.len(),
{
    if s.len() > 0 {
        lemma_base_of_members(s.drop_last());
        assert forall|j: int| 0 <= j < s.len() implies is_continuation(#[trigger] s[j]) || s[j] == '\u{2b2}'
            || base_of(s).contains(s[j]) by {
            if j < s.len() - 1 {
                assert(s[j] == s.drop_last()[j]);
                if base_of(s.drop_last()).contains(s[j]) {
                    let t = choose|t: int| 0 <= t < base_of(s.drop_last()).len() && base_of(s.drop_last())[t] == s[j];
                    if !is_continuation(s.last()) && s.last() != '\u{2b2}' {
                        assert(base_of(s)[t] == s[j]);
                    }
                }
            } else if !is_continuation(s.last()) && s.last() != '\u{2b2}' {
                assert(base_of(s)[base_of(s).len() - 1] == s.last());
            }
        }
    }
}

/// A phone whose base is one consonant letter does not start with a vowel,
/// and is that letter when it is one character.
proof fn lemma_single_base_head(s: Seq<char>, c: char)
    requires
        base_of(s) == seq![c],
        !is_vowel(c),
    ensures
        s.len() >= 1,
        !is_vowel(s[0]),
        s.len() == 1 ==> s[0] == c,
{
    lemma_base_of_members(s);
    assert(s.len() >= 1);
    if base_of(s).contains(s[0]) {
        assert(s[0] == c);
    }
    if s.len() == 1 {
        assert(s.drop_last().len() == 0);
        assert(base_of(s.drop_last()) == Seq::<char>::empty());
        if !is_continuation(s[0]) && s[0] != '\u{2b2}' {
            assert(base_of(s) == base_of(s.drop_last()).push(s[0]));
            assert(base_of(s)[0] == s[0]);
        } else {
            assert(base_of(s) == base_of(s.drop_last()));
            assert(false);
        }
    }
}

proof fn lemma_affricate_heads(left: Seq<char>, right: Seq<char>)
    requires
        is_affricate(left, right),
    ensures
        left.len() >= 1,
        right.len() >= 1,
        !is_vowel(left[0]),
{
    let l = base_of(left);
    let r = base_of(right);
    assert(l.len() == 1 && !is_vowel(l[0]));
    assert(l == seq![l[0]]);
    lemma_single_base_head(left, l[0]);
    assert(r.len() == 1);
    lemma_base_of_members(right);
}

/// The labels a relabeling could change are one or two characters long and
/// start with a vowel.
proof fn lemma_replacement_keeps(head: Seq<char>, p: Seq<char>)
    requires
        p.len() >= 3 || (p.len() >= 1 && !is_vowel(p[0])),
    ensures
        replacement(head, p) == p,
{
}

/// An affricate inside one engine phone is one label: a framed trace whose
/// scan is a single word of a stop and a fricative (optionally joined by a
/// tie) from the same engine phone, same stress group and same language is
/// labeled, for any requested language, as that one unit, unstressed.
pub proof fn law_affricate_kept_whole(cs: Seq<char>, language: Seq<char>)
    requires
        cs.len() <= usize::MAX,
        ({
            let s = scan_all(cs, true, ascii_lower(language));
            let n = s.ph.len();
            &&& n == 2 || n == 3
            &&& s.spans == seq![(0usize, n as usize)]
            &&& s.origins[0] == s.origins[n - 1]
            &&& is_affricate(s.ph[0], s.ph[n - 1])
            &&& n == 3 ==> is_tie(s.ph[1])
        }),
    ensures
        ({
            let s = scan_all(cs, true, ascii_lower(language));
            let n = s.ph.len() as int;
            let p = parse_framed_spec(cs, language);
            &&& p.phonemes == seq![unit_at(s.ph, 0, n)]
            &&& p.stress == seq![Stress::Unstressed]
            &&& p.word_spans == seq![(0usize, 1usize)]
        }),
{
    let dl = ascii_lower(language);
    let s = scan_all(cs, true, dl);
    let n = s.ph.len() as int;
    lemma_scan_all_tiles(cs, true, dl);
    lemma_scan_shaped(cs, true, dl, 0, scan_init(dl));
    lemma_affricate_heads(s.ph[0], s.ph[n - 1]);
    assert(merge_width(s.ph, s.origins, 0, n) == n);
    let w = merge_word(s.ph, s.st, s.origins, 0, n);
    assert(merge_word(s.ph, s.st, s.origins, n, n).0 == Seq::<Seq<char>>::empty());
    assert(w.0 =~= seq![unit_at(s.ph, 0, n)]);
    assert(w.1 =~= seq![s.st[0]]);
    assert(s.st[0] == Stress::Unstressed);
    let q = parse_spec(cs, Some(language));
    assert(merge_words(s.ph, s.st, s.origins, s.spans, 0).phonemes == Seq::<Seq<char>>::empty());
    assert(q.phonemes =~= seq![unit_at(s.ph, 0, n)]);
    let u = unit_at(s.ph, 0, n);
    assert(u.len() >= 3 || (u.len() >= 1 && !is_vowel(u[0]))) by {
        if n == 2 {
            assert(u == s.ph[0] + s.ph[1]);
            assert(u[0] == s.ph[0][0]);
        } else {
            assert(u == s.ph[0] + s.ph[1] + s.ph[2]);
        }
    }
    lemma_replacement_keeps(dash_prefix(language), u);
    assert(parse_framed_spec(cs, language).phonemes =~= seq![u]);
}

/// `cs` from index `i` on, with the phone separators taken out.
pub open spec fn strip_from(cs: Seq<char>, i: int) -> Seq<char>
    decreases cs.len() - i,
{
    if i < 0 || i >= cs.len() {
        Seq::empty()
    } else if cs[i] == PHONE_SEPARATOR {
        strip_from(cs, i + 1)
    } else {
        seq![cs[i]] + strip_from(cs, i + 1)
    }
}

/// The scanner state apart from where phones came from.
pub open spec fn words_part(s: ScanS) -> (Seq<Seq<char>>, Seq<Stress>, Seq<(usize, usize)>, int, Option<Stress>, Stress, bool) {
    (s.ph, s.st, s.spans, s.word_start, s.pending, s.current, s.in_vowel)
}

/// No phone separator within the span a language marker could take after
/// any `(`.
pub open spec fn markers_unseparated(cs: Seq<char>) -> bool {
    forall|i: int, k: int|
        0 <= i <= k < cs.len() && k < i + 12 && #[trigger] cs[i] == '(' ==> #[trigger] cs[k] != PHONE_SEPARATOR
}

proof fn lemma_strip_unseparated(cs: Seq<char>, i: int, w: int)
    requires
        0 <= i,
        0 <= w,
        i + w <= cs.len(),
        forall|k: int| i <= k < i + w ==> #[trigger] cs[k] != PHONE_SEPARATOR,
    ensures
        strip_from(cs, i) == cs.subrange(i, i + w) + strip_from(cs, i + w),
    decreases w,
{
    if w > 0 {
        lemma_strip_unseparated(cs, i + 1, w - 1);
        assert(strip_from(cs, i) =~= cs.subrange(i, i + w) + strip_from(cs, i + w));
    } else {
        assert(cs.subrange(i, i) =~= Seq::<char>::empty());
        assert(Seq::<char>::empty() + strip_from(cs, i) =~= strip_from(cs, i));
    }
}

proof fn lemma_strip_len(cs: Seq<char>, i: int)
    requires
        0 <= i,
    ensures
        strip_from(cs, i).len() <= (if i < cs.len() { cs.len() - i } else { 0 }),
    decreases cs.len() - i,
{
    if i < cs.len() {
        lemma_strip_len(cs, i + 1);
    }
}

/// Two texts agreeing on `m` characters from `p` and `q` (or on all that
/// is left of both, when that is less) have letter runs there of the same
/// length, up to `m`.
proof fn lemma_alpha_agree(x: Seq<char>, p: int, y: Seq<char>, q: int, m: int)
    requires
        0 <= p <= x.len(),
        0 <= q <= y.len(),
        0 <= m,
        (x.len() - p >= m && y.len() - q >= m) || x.len() - p == y.len() - q,
        x.subrange(p, p + (if x.len() - p < m { x.len() - p } else { m })) == y.subrange(
            q,
            q + (if x.len() - p < m { x.len() - p } else { m }),
        ),
    ensures
        (alpha_end(x, p) - p >= m) == (alpha_end(y, q) - q >= m),
        alpha_end(x, p) - p < m ==> alpha_end(x, p) - p == alpha_end(y, q) - q,
    decreases m,
{
    let mm = if x.len() - p < m { x.len() - p } else { m };
    lemma_alpha_end_bounds(x, p);
    lemma_alpha_end_bounds(y, q);
    if m > 0 {
        if mm == 0 {
            assert(x.len() - p == 0 && y.len() - q == 0);
            assert(alpha_end(x, p) == p);
            assert(alpha_end(y, q) == q);
        } else {
            assert(x[p] == y[q]) by {
                assert(x.subrange(p, p + mm)[0] == x[p]);
                assert(y.subrange(q, q + mm)[0] == y[q]);
            }
            if is_ascii_alpha(x[p]) {
                assert(alpha_end(x, p) == alpha_end(x, p + 1));
                assert(alpha_end(y, q) == alpha_end(y, q + 1));
                let m2 = m - 1;
                let mm2 = if x.len() - (p + 1) < m2 { x.len() - (p + 1) } else { m2 };
                assert(x.subrange(p + 1, p + 1 + mm2) =~= x.subrange(p, p + mm).subrange(1, 1 + mm2));
                assert(y.subrange(q + 1, q + 1 + mm2) =~= y.subrange(q, q + mm).subrange(1, 1 + mm2));
                lemma_alpha_agree(x, p + 1, y, q + 1, m2);
            } else {
                assert(alpha_end(x, p) == p);
                assert(alpha_end(y, q) == q);
            }
        }
    }
}

/// A marker reads the same in a text and in its separator-free form when no
/// separator follows the `(` closely.
#[verifier::spinoff_prover]
#[verifier::rlimit(40)]
proof fn lemma_marker_agree(cs: Seq<char>, i: int, t: Seq<char>, j: int)
    requires
        0 <= i < cs.len(),
        0 <= j <= t.len(),
        cs[i] == '(',
        markers_unseparated(cs),
        t.subrange(j, t.len() as int) == strip_from(cs, i),
    ensures
        (marker_end(cs, i) > i) == (marker_end(t, j) > j),
        marker_end(cs, i) > i ==> marker_end(t, j) - j == marker_end(cs, i) - i && t.subrange(
            marker_end(t, j),
            t.len() as int,
        ) == strip_from(cs, marker_end(cs, i)),
{
    let w = if i + 12 <= cs.len() { 12 } else { cs.len() - i };
    assert forall|k: int| i <= k < i + w implies #[trigger] cs[k] != PHONE_SEPARATOR by {
        assert(cs[i] == '(');
    }
    lemma_strip_unseparated(cs, i, w);
    let rest = strip_from(cs, i + w);
    assert(t.subrange(j, t.len() as int) == cs.subrange(i, i + w) + rest);
    assert(t.len() - j >= w) by {
        assert((cs.subrange(i, i + w) + rest).len() >= w);
    }
    assert(t.subrange(j, j + w) =~= cs.subrange(i, i + w)) by {
        assert(t.subrange(j, j + w) =~= t.subrange(j, t.len() as int).subrange(0, w));
        assert((cs.subrange(i, i + w) + rest).subrange(0, w) =~= cs.subrange(i, i + w));
    }
    if w < 12 {
        lemma_strip_len(cs, i + w);
        assert(rest.len() == 0);
        assert(t.len() - j == w);
    }
    // Windows from `d` characters into the marker agree.
    assert forall|d: int, mm: int| 0 <= d && 0 <= mm && d + mm <= w implies #[trigger] t.subrange(j + d, j + d + mm)
        == cs.subrange(i + d, i + d + mm) by {
        assert(t.subrange(j + d, j + d + mm) =~= t.subrange(j, j + w).subrange(d, d + mm));
        assert(cs.subrange(i + d, i + d + mm) =~= cs.subrange(i, i + w).subrange(d, d + mm));
    }
    assert(cs.len() - (i + 1) == t.len() - (j + 1) || (cs.len() - (i + 1) >= 5 && t.len() - (j + 1) >= 5));
    let mm1 = if cs.len() - (i + 1) < 5 { cs.len() - (i + 1) } else { 5 };
    assert(t.subrange(j + 1, j + 1 + mm1) == cs.subrange(i + 1, i + 1 + mm1));
    lemma_alpha_agree(cs, i + 1, t, j + 1, 5);
    lemma_alpha_end_bounds(cs, i + 1);
    lemma_alpha_end_bounds(t, j + 1);
    let b = alpha_end(cs, i + 1);
    let bt = alpha_end(t, j + 1);
    if 2 <= b - (i + 1) <= 4 {
        assert(bt - (j + 1) == b - (i + 1));
        let d = b - i;
        let hy = b < cs.len() && cs[b] == '-';
        let hyt = bt < t.len() && t[bt] == '-';
        assert(hy == hyt) by {
            if b < cs.len() {
                assert(t.subrange(j + d, j + d + 1) == cs.subrange(i + d, i + d + 1));
                assert(t.subrange(j + d, j + d + 1)[0] == t[bt]);
                assert(cs.subrange(i + d, i + d + 1)[0] == cs[b]);
            }
        }
        if hy {
            let mm2 = if cs.len() - (b + 1) < 5 { cs.len() - (b + 1) } else { 5 };
            let d1 = d + 1;
            assert(t.subrange(j + d1, j + d1 + mm2) == cs.subrange(i + d1, i + d1 + mm2));
            assert(cs.len() - (b + 1) == t.len() - (bt + 1) || (cs.len() - (b + 1) >= 5 && t.len() - (bt + 1)
                >= 5));
            lemma_alpha_agree(cs, b + 1, t, bt + 1, 5);
            lemma_alpha_end_bounds(cs, b + 1);
            lemma_alpha_end_bounds(t, bt + 1);
        }
        let c = if hy { alpha_end(cs, b + 1) } else { b };
        let ct = if hyt { alpha_end(t, bt + 1) } else { bt };
        let ok = if hy { 2 <= c - (b + 1) <= 4 } else { true };
        if ok {
            assert(ct - j == c - i);
            let dc = c - i;
            assert((0 <= c < cs.len() && cs[c] == ')') == (0 <= ct < t.len() && t[ct] == ')')) by {
                if c < cs.len() {
                    assert(t.subrange(j + dc, j + dc + 1) == cs.subrange(i + dc, i + dc + 1));
                    assert(t.subrange(j + dc, j + dc + 1)[0] == t[ct]);
                    assert(cs.subrange(i + dc, i + dc + 1)[0] == cs[c]);
                }
            }
            if 0 <= c < cs.len() && cs[c] == ')' {
                let e = c + 1;
                let et = ct + 1;
                lemma_strip_unseparated(cs, i, e - i);
                assert(t.subrange(et, t.len() as int) =~= t.subrange(j, t.len() as int).subrange(e - i, t.len() - j));
                assert(strip_from(cs, i).subrange(e - i, strip_from(cs, i).len() as int) =~= strip_from(cs, e));
            }
        }
    } else {
        assert(!(2 <= bt - (j + 1) <= 4));
    }
}

/// Skipping marks after punctuation lands on corresponding places in a text
/// and in its separator-free form.
proof fn lemma_skip_agree(cs: Seq<char>, k: int, t: Seq<char>, j: int)
    requires
        0 <= k <= cs.len(),
        0 <= j <= t.len(),
        t.subrange(j, t.len() as int) == strip_from(cs, k),
    ensures
        t.subrange(skip_mods(t, j), t.len() as int) == strip_from(cs, skip_mods(cs, k)),
        j <= skip_mods(t, j) <= t.len(),
    decreases cs.len() - k,
{
    lemma_skip_mods_bounds(t, j);
    if k < cs.len() {
        if cs[k] == PHONE_SEPARATOR {
            lemma_skip_agree(cs, k + 1, t, j);
        } else {
            assert(j < t.len()) by {
                if j >= t.len() {
                    assert(t.subrange(j, t.len() as int).len() == 0);
                }
            }
            assert(t[j] == cs[k]) by {
                assert(t.subrange(j, t.len() as int)[0] == t[j]);
            }
            assert(t.subrange(j + 1, t.len() as int) =~= t.subrange(j, t.len() as int).drop_first());
            assert(strip_from(cs, k) == seq![cs[k]] + strip_from(cs, k + 1));
            assert((seq![cs[k]] + strip_from(cs, k + 1)).drop_first() =~= strip_from(cs, k + 1));
            if is_continuation(cs[k]) {
                lemma_skip_agree(cs, k + 1, t, j + 1);
            }
        }
    } else {
        assert(strip_from(cs, k).len() == 0);
        assert(j >= t.len()) by {
            if j < t.len() {
                assert(t.subrange(j, t.len() as int).len() > 0);
            }
        }
    }
}

/// The framed scanner and the plain scanner of the separator-free text keep
/// the same words, stress and phones.
#[verifier::spinoff_prover]
proof fn lemma_scan_agree(
    cs: Seq<char>,
    deflang: Seq<char>,
    i: int,
    s: ScanS,
    t: Seq<char>,
    dl2: Seq<char>,
    j: int,
    s2: ScanS,
)
    requires
        0 <= i <= cs.len(),
        0 <= j <= t.len(),
        markers_unseparated(cs),
        t.subrange(j, t.len() as int) == strip_from(cs, i),
        words_part(s) == words_part(s2),
    ensures
        words_part(scan(cs, true, deflang, i, s)) == words_part(scan(t, false, dl2, j, s2)),
    decreases cs.len() - i,
{
    if i >= cs.len() {
        assert(strip_from(cs, i).len() == 0);
        assert(j >= t.len()) by {
            if j < t.len() {
                assert(t.subrange(j, t.len() as int).len() > 0);
            }
        }
    } else if cs[i] == PHONE_SEPARATOR {
        assert(norm_char(cs[i]) == PHONE_SEPARATOR);
        lemma_scan_agree(
            cs,
            deflang,
            i + 1,
            ScanS { origin: OriginS { phone: s.origin.phone + 1, ..s.origin }, ..s },
            t,
            dl2,
            j,
            s2,
        );
    } else {
        assert(j < t.len()) by {
            if j >= t.len() {
                assert(t.subrange(j, t.len() as int).len() == 0);
            }
        }
        assert(t[j] == cs[i]) by {
            assert(t.subrange(j, t.len() as int)[0] == t[j]);
        }
        assert(t.subrange(j + 1, t.len() as int) =~= t.subrange(j, t.len() as int).drop_first());
        assert(t.subrange(j + 1, t.len() as int) == strip_from(cs, i + 1));
        let ch = norm_char(cs[i]);
        if ch == '(' {
            lemma_marker_agree(cs, i, t, j);
        }
        if ch == '(' && marker_end(cs, i) > i {
            lemma_marker_end_bounds(cs, i);
            lemma_marker_end_bounds(t, j);
            let e = marker_end(cs, i);
            let s3 = ScanS {
                origin: OriginS {
                    phone: s.origin.phone + 1,
                    barrier: s.origin.barrier + 1,
                    language: switch_language(ascii_lower(cs.subrange(i + 1, e - 1)), deflang),
                },
                ..s
            };
            lemma_scan_agree(cs, deflang, e, s3, t, dl2, marker_end(t, j), s2);
        } else if is_separator_punct(ch) {
            lemma_skip_mods_bounds(cs, i + 1);
            lemma_skip_agree(cs, i + 1, t, j + 1);
            lemma_scan_agree(
                cs,
                deflang,
                skip_mods(cs, i + 1),
                ScanS { origin: bump_barrier(s.origin), in_vowel: false, ..s },
                t,
                dl2,
                skip_mods(t, j + 1),
                ScanS { origin: bump_barrier(s2.origin), in_vowel: false, ..s2 },
            );
        } else {
            assert(words_part(char_step(s, ch)) == words_part(char_step(s2, ch)));
            lemma_scan_agree(cs, deflang, i + 1, char_step(s, ch), t, dl2, j + 1, char_step(s2, ch));
        }
    }
}

/// Framing changes only which adjacent phones of a word become one label:
/// for a requested language other than English, French and Italian (whose
/// labels are relabeled), a framed trace and the plain parse of the same
/// trace with its phone separators taken out have the same number of
/// words, stress runs parallel to the framed labels, there are no more
/// framed labels than plain ones, and each framed word's labels spell the
/// plain word's phones. Separators must not fall inside a language marker
/// (nor within a marker's length after a `(`).
pub proof fn law_framing_only_joins(cs: Seq<char>, language: Seq<char>)
    requires
        cs.len() <= usize::MAX,
        markers_unseparated(cs),
        dash_prefix(language) != seq!['e', 'n'],
        dash_prefix(language) != seq!['f', 'r'],
        dash_prefix(language) != seq!['i', 't'],
    ensures
        ({
            let f = parse_framed_spec(cs, language);
            let g = parse_spec(strip_from(cs, 0), None);
            &&& f.stress.len() == f.phonemes.len()
            &&& f.word_spans.len() == g.word_spans.len()
            &&& f.phonemes.len() <= g.phonemes.len()
            &&& forall|k: int| 0 <= k < f.word_spans.len() ==> #[trigger] word_text(f, k) == word_text(g, k)
        }),
{
    let t = strip_from(cs, 0);
    let dl = ascii_lower(language);
    let dl0 = ascii_lower(Seq::<char>::empty());
    assert(t.subrange(0, t.len() as int) =~= t);
    lemma_scan_agree(cs, dl, 0, scan_init(dl), t, dl0, 0, scan_init(dl0));
    let sf = scan_all(cs, true, dl);
    let sg = scan_all(t, false, dl0);
    assert(sf.ph == sg.ph && sf.st == sg.st && sf.spans == sg.spans);
    lemma_scan_all_tiles(cs, true, dl);
    law_merging_joins_within_words(cs, language);
    let q = parse_spec(cs, Some(language));
    lemma_merge_words_wf(sf.ph, sf.st, sf.origins, sf.spans, sf.ph.len() as int, sf.spans.len() as int);
    if sf.spans.len() > 0 {
        lemma_tiles_bounds(sf.spans, sf.ph.len() as int, sf.spans.len() - 1);
    }
    let f = parse_framed_spec(cs, language);
    assert(f.phonemes =~= q.phonemes) by {
        assert forall|x: int| 0 <= x < q.phonemes.len() implies f.phonemes[x] == q.phonemes[x] by {
            assert(replacement(dash_prefix(language), q.phonemes[x]) == q.phonemes[x]);
        }
    }
    let g = parse_spec(t, None);
    assert forall|k: int| 0 <= k < f.word_spans.len() implies #[trigger] word_text(f, k) == word_text(g, k) by {
        assert(word_text(f, k) == word_text(q, k));
        assert(g.phonemes == sf.ph && g.word_spans == sf.spans);
    }
}

/// The vowels of [`IPA_VOWELS`], written out.
pub open spec fn listed_vowel(c: char) -> bool {
    c == 'i' || c == 'y' || c == '\u{268}' || c == '\u{289}' || c == '\u{26f}' || c == 'u' || c == '\u{26a}'
        || c == '\u{28f}' || c == '\u{28a}' || c == 'e' || c == '\u{f8}' || c == '\u{258}' || c == '\u{275}'
        || c == '\u{264}' || c == 'o' || c == '\u{259}' || c == '\u{25b}' || c == '\u{153}' || c == '\u{25c}'
        || c == '\u{25e}' || c == '\u{28c}' || c == '\u{254}' || c == '\u{e6}' || c == '\u{250}' || c == 'a'
        || c == '\u{276}' || c == '\u{251}' || c == '\u{252}' || c == '\u{25a}' || c == '\u{25d}' || c
        == '\u{1d7b}'
}

/// Stress goes to vowels: a stress mark directly before a character makes
/// that character's phone primary-stressed exactly when the character is
/// one of the IPA vowels espeak emits (or the Greek epsilon some voices
/// write for `ɛ`); before anything else no primary stress comes of it.
pub proof fn law_stress_lands_on_vowels(c: char)
    ensures
        (listed_vowel(c) || c == '\u{3b5}') <==> parse_spec(seq!['\u{2c8}', c], None).stress == seq![
            Stress::Primary,
        ],
        (listed_vowel(c) || c == '\u{3b5}') ==> parse_spec(seq!['\u{2c8}', c], None).phonemes == seq![
            seq![norm_char(c)],
        ],
{
    let cs = seq!['\u{2c8}', c];
    let dl = ascii_lower(Seq::<char>::empty());
    let s0 = scan_init(dl);
    assert(norm_char('\u{2c8}') == '\u{2c8}');
    assert(marker_end(cs, 0) == 0) by {
        assert(cs[0] != '(');
    }
    let s1 = char_step(s0, '\u{2c8}');
    assert(scan(cs, false, dl, 0, s0) == scan(cs, false, dl, 1, s1));
    let ch = norm_char(c);
    assert(listed_vowel(c) || c == '\u{3b5}' <==> is_vowel(ch));
    if ch == '(' {
        lemma_marker_end_bounds(cs, 1);
    }
    lemma_skip_mods_bounds(cs, 2);
    let s = scan(cs, false, dl, 1, s1);
    assert(scan(cs, false, dl, 2, char_step(s1, ch)) == char_step(s1, ch));
    assert(parse_spec(cs, None).stress == s.st && parse_spec(cs, None).phonemes == s.ph);
    if is_vowel(ch) {
        assert(s == char_step(s1, ch));
        assert(s.st =~= seq![Stress::Primary]);
        assert(s.ph =~= seq![seq![ch]]);
    } else {
        assert(s1.st.len() == 0);
        if ch == '(' && marker_end(cs, 1) > 1 {
            assert(false);
        } else if is_separator_punct(ch) {
            assert(skip_mods(cs, 2) == 2);
            let s2 = ScanS { origin: bump_barrier(s1.origin), in_vowel: false, ..s1 };
            assert(s == scan(cs, false, dl, 2, s2));
            assert(scan(cs, false, dl, 2, s2) == s2);
            assert(s.st.len() == 0);
        } else {
            assert(s == char_step(s1, ch));
            let t = char_step(s1, ch);
            assert(t.st.len() == 0 || t.st =~= seq![Stress::Unstressed]);
        }
        assert(s.st != seq![Stress::Primary]) by {
            if s.st.len() == 1 {
                assert(s.st[0] == Stress::Unstressed);
                assert(seq![Stress::Primary][0] == Stress::Primary);
            }
        }
    }
}

/// A character that never stands in a token: a stress mark, a word
/// boundary, or punctuation and syllable separators.
pub open spec fn is_token_mark(c: char) -> bool {
    c == '\u{2c8}' || c == '\u{2cc}' || is_word_boundary(c) || is_separator_punct(c)
}

/// The shape of tokens: stress parallel to them; each non-empty and free of
/// marks; stress only on vowel-headed tokens; no token after the first
/// headed by a continuation; a palatalization mark standing alone only
/// after a vowel-headed token.
pub open spec fn tokens_shaped(ph: Seq<Seq<char>>, st: Seq<Stress>) -> bool {
    &&& st.len() == ph.len()
    &&& forall|k: int| 0 <= k < ph.len() ==> (#[trigger] ph[k]).len() > 0
    &&& forall|k: int, j: int|
        0 <= k < ph.len() && 0 <= j < ph[k].len() ==> !is_token_mark(#[trigger] ph[k][j])
    &&& forall|k: int| 0 <= k < ph.len() && #[trigger] st[k] != Stress::Unstressed ==> is_vowel(ph[k][0])
    &&& forall|k: int| 0 < k < ph.len() ==> !is_continuation(#[trigger] ph[k][0])
    &&& forall|k: int| 0 < k < ph.len() && #[trigger] ph[k][0] == '\u{2b2}' ==> starts_with_vowel(ph[k - 1])
}

#[verifier::spinoff_prover]
proof fn lemma_char_step_shaped(s: ScanS, ch: char)
    requires
        tokens_shaped(s.ph, s.st),
        !is_separator_punct(ch),
    ensures
        tokens_shaped(char_step(s, ch).ph, char_step(s, ch).st),
{
    let n = s.ph.len() as int;
    let t = char_step(s, ch);
    if ch == '\u{2c8}' || ch == '\u{2cc}' || is_word_boundary(ch) {
    } else if is_vowel(ch) || (!is_continuation(ch) && !(ch == '\u{2b2}' && n > 0
        && !starts_with_vowel(s.ph.last()))) || (is_continuation(ch) && n == 0) {
        assert(t.ph == s.ph.push(seq![ch]));
        assert forall|k: int, j: int| 0 <= k < t.ph.len() && 0 <= j < t.ph[k].len() implies !is_token_mark(
            #[trigger] t.ph[k][j]) by {
            if k < n {
                assert(t.ph[k] == s.ph[k]);
            }
        }
        assert forall|k: int| 0 < k < t.ph.len() && #[trigger] t.ph[k][0] == '\u{2b2}' implies starts_with_vowel(
            t.ph[k - 1]) by {
            if k < n {
                assert(t.ph[k] == s.ph[k]);
            }
        }
    } else {
        assert(n > 0);
        let last = s.ph[n - 1];
        assert(t.ph == s.ph.update(n - 1, last.push(ch)));
        assert(t.ph[n - 1][0] == last[0]);
        assert forall|k: int, j: int| 0 <= k < t.ph.len() && 0 <= j < t.ph[k].len() implies !is_token_mark(
            #[trigger] t.ph[k][j]) by {
            if k < n - 1 {
                assert(t.ph[k] == s.ph[k]);
            } else if j < last.len() {
                assert(t.ph[k][j] == last[j]);
            }
        }
        assert forall|k: int| 0 < k < t.ph.len() && #[trigger] t.ph[k][0] == '\u{2b2}' implies starts_with_vowel(
            t.ph[k - 1]) by {
            assert(t.ph[k][0] == s.ph[k][0]);
            assert(t.ph[k - 1][0] == s.ph[k - 1][0]);
        }
        assert forall|k: int| 0 < k < t.ph.len() implies !is_continuation(#[trigger] t.ph[k][0]) by {
            assert(t.ph[k][0] == s.ph[k][0]);
        }
        assert forall|k: int| 0 <= k < t.ph.len() && #[trigger] t.st[k] != Stress::Unstressed implies is_vowel(
            t.ph[k][0]) by {
            assert(t.ph[k][0] == s.ph[k][0]);
        }
    }
}

proof fn lemma_scan_shaped(cs: Seq<char>, framed: bool, deflang: Seq<char>, i: int, s: ScanS)
    requires
        tokens_shaped(s.ph, s.st),
    ensures
        tokens_shaped(scan(cs, framed, deflang, i, s).ph, scan(cs, framed, deflang, i, s).st),
    decreases cs.len() - i,
{
    if i < 0 || i >= cs.len() {
    } else {
        let ch = norm_char(cs[i]);
        if ch == '(' && marker_end(cs, i) > i {
            lemma_marker_end_bounds(cs, i);
            let e = marker_end(cs, i);
            let s2 = if framed {
                ScanS {
                    origin: OriginS {
                        phone: s.origin.phone + 1,
                        barrier: s.origin.barrier + 1,
                        language: switch_language(ascii_lower(cs.subrange(i + 1, e - 1)), deflang),
                    },
                    ..s
                }
            } else {
                s
            };
            lemma_scan_shaped(cs, framed, deflang, e, s2);
        } else if framed && ch == PHONE_SEPARATOR {
            lemma_scan_shaped(
                cs,
                framed,
                deflang,
                i + 1,
                ScanS { origin: OriginS { phone: s.origin.phone + 1, ..s.origin }, ..s },
            );
        } else if is_separator_punct(ch) {
            lemma_skip_mods_bounds(cs, i + 1);
            lemma_scan_shaped(
                cs,
                framed,
                deflang,
                skip_mods(cs, i + 1),
                ScanS { origin: bump_barrier(s.origin), in_vowel: false, ..s },
            );
        } else {
            lemma_char_step_shaped(s, ch);
            lemma_scan_shaped(cs, framed, deflang, i + 1, char_step(s, ch));
        }
    }
}

/// Every token of a parse is non-empty and holds no stress mark, word
/// boundary or punctuation; only vowel-headed tokens carry stress; no token
/// after the first starts with a continuation (length, nasality and the
/// like attach to the phone before); and a palatalization mark stands as a
/// token of its own only after a vowel-headed token.
pub proof fn law_token_shape(raw: Seq<char>)
    ensures
        tokens_shaped(parse_spec(raw, None).phonemes, parse_spec(raw, None).stress),
{
    let dl = ascii_lower(Seq::<char>::empty());
    lemma_scan_shaped(raw, false, dl, 0, scan_init(dl));
}

fn to_strings(v: Vec<Vec<char>>) -> (r: Vec<String>)
    ensures
        string_views(r@) == views(v@),
{
    let mut r: Vec<String> = Vec::new();
    let mut k: usize = 0;
    while k < v.len()
        invariant
            k <= v.len(),
            string_views(r@) == views(v@).subrange(0, k as int),
        decreases v.len() - k,
    {
        let s = crate::text::string_of(&v[k]);
        let ghost prev = r@;
        r.push(s);
        proof {
            assert(string_views(r@) =~= string_views(prev).push(s@));
            assert(views(v@).subrange(0, k + 1) =~= views(v@).subrange(0, k as int).push(v@[k as int]@));
        }
        k += 1;
    }
    proof {
        assert(views(v@).subrange(0, v@.len() as int) =~= views(v@));
    }
    r
}

/// Parse unframed `--ipa -x` output with character segmentation: raw IPA
/// alone cannot distinguish an affricate from adjacent stop and fricative
/// phones, so no units are merged.
pub fn parse(raw: &str) -> (r: Parsed)
    ensures
        r@ == parse_spec(raw@, None),
        parsed_wf(r@),
{
    let cs = crate::text::chars_of(raw);
    let empty: Vec<char> = Vec::new();
    proof {
        assert(ascii_lower(empty@) =~= empty@);
    }
    let d = scan_chars(&cs, false, &empty);
    Parsed { phonemes: to_strings(d.ph), stress: d.st, word_spans: d.spans }
}

fn relabel(v: Vec<Vec<char>>, head: &[char]) -> (r: Vec<Vec<char>>)
    ensures
        views(r@) == views(v@).map_values(|x: Seq<char>| replacement(head@, x)),
{
    let mut r: Vec<Vec<char>> = Vec::new();
    let mut k: usize = 0;
    while k < v.len()
        invariant
            k <= v.len(),
            views(r@) == views(v@).subrange(0, k as int).map_values(|x: Seq<char>| replacement(head@, x)),
        decreases v.len() - k,
    {
        let p = &v[k];
        let en = chars_eq(head, &['e', 'n']);
        let fr = chars_eq(head, &['f', 'r']);
        let it = chars_eq(head, &['i', 't']);
        let q: Vec<char> = if en && (is_one(p, 'ɐ') || is_one(p, 'ᵻ')) {
            single('ə')
        } else if fr {
            if chars_eq(p, &['u', '\u{2d0}']) || is_one(p, 'ʊ') {
                single('u')
            } else if chars_eq(p, &['ɔ', '\u{2d0}']) || is_one(p, 'ɒ') {
                single('ɔ')
            } else if chars_eq(p, &['ɑ', '\u{2d0}']) || chars_eq(p, &['a', '\u{2d0}']) || is_one(p, 'ʌ')
                || is_one(p, 'ɐ') {
                single('a')
            } else if chars_eq(p, &['o', '\u{2d0}']) {
                single('o')
            } else if chars_eq(p, &['i', '\u{2d0}']) || is_one(p, 'ɪ') {
                single('i')
            } else if chars_eq(p, &['y', '\u{2d0}']) {
                single('y')
            } else if chars_eq(p, &['e', '\u{2d0}']) {
                single('e')
            } else if chars_eq(p, &['ɜ', '\u{2d0}']) {
                single('œ')
            } else {
                copy_chars(p)
            }
        } else if it && is_one(p, 'ɪ') {
            single('i')
        } else if it && is_one(p, 'ʊ') {
            single('u')
        } else {
            copy_chars(p)
        };
        let ghost prev = views(r@);
        r.push(q);
        proof {
            assert(q@ == replacement(head@, v@[k as int]@));
            assert(views(r@) =~= prev.push(q@));
            assert(views(v@).subrange(0, k + 1).map_values(|x: Seq<char>| replacement(head@, x))
                =~= views(v@).subrange(0, k as int).map_values(|x: Seq<char>| replacement(head@, x)).push(
                replacement(head@, v@[k as int]@),
            ));
        }
        k += 1;
    }
    proof {
        assert(views(v@).subrange(0, v@.len() as int) =~= views(v@));
    }
    r
}

/// Parse a framed engine trace (phones separated by [`PHONE_SEPARATOR`])
/// for `language`: affricates and vowel units inside one engine phone are
/// merged, and phones that code-switched loanwords spell from another table
/// are relabelled to the requested language.
pub fn parse_framed(raw: &str, language: &str) -> (r: Parsed)
    ensures
        r@ == parse_framed_spec(raw@, language@),
        parsed_wf(r@),
{
    let cs = crate::text::chars_of(raw);
    let lang = crate::text::chars_of(language);
    let dl = lower_ascii(&lang);
    let d = scan_chars(&cs, true, &dl);
    let (ph, st, spans) = merge_units(&d);
    proof {
        lemma_merge_words_wf(views(d.ph@), d.st@, origin_views(d.origins@), d.spans@, d.ph@.len() as int, d.spans@.len() as int);
    }
    let head = dash_prefix_of(&lang);
    let ghost before = views(ph@);
    let ph2 = relabel(ph, &head);
    Parsed { phonemes: to_strings(ph2), stress: st, word_spans: spans }
}

} // verus!
