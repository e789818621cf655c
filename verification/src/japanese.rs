//! Japanese labels from the front end's analysis.
//!
//! The front end (OpenJTalk's, over the NAIST dictionary) gives the word
//! nodes of its NJD analysis and one full-context label per phone. From
//! them: OpenJTalk phones map to IPA, the sokuon closure `cl` becoming `ː`
//! on the following obstruent rather than a token of its own; each
//! mora-bearing phone gets a Tokyo pitch level from its accent phrase's
//! nucleus and mora count; and accent supervision is withheld (the phones
//! kept) when the word nodes and the labels disagree on phrase boundaries,
//! when the utterance's first content word is a particle, auxiliary or
//! suffix (a fragment), or when there is no content word at all. A closure
//! that cannot geminate, or ends the utterance, has no phone to attach to,
//! so the text is refused.

use crate::error::{Error, ErrorS};
use crate::labels::Pitch;
use vstd::prelude::*;

verus! {

/// Labels for one utterance.
#[derive(Debug, Clone, PartialEq, Eq, Default)]
pub struct Labels {
    pub phonemes: Vec<String>,
    /// Parallel to `phonemes`; `None` on phones that bear no mora.
    pub pitch: Vec<Option<Pitch>>,
    /// If set, `pitch` is empty and this says why the accent factor is not
    /// trustworthy for this utterance (the phones still are).
    pub accent_withheld: Option<String>,
    /// OpenJTalk's own phone strings, for diagnostics and parity checks.
    pub native_phones: Vec<String>,
}

#[verifier::ext_equal]
pub struct LabelsS {
    pub phonemes: Seq<Seq<char>>,
    pub pitch: Seq<Option<Pitch>>,
    pub accent_withheld: Option<Seq<char>>,
    pub native_phones: Seq<Seq<char>>,
}

impl View for Labels {
    type V = LabelsS;

    open spec fn view(&self) -> LabelsS {
        LabelsS {
            phonemes: crate::text::string_views(self.phonemes@),
            pitch: self.pitch@,
            accent_withheld: crate::labels::opt_view(self.accent_withheld),
            native_phones: crate::text::string_views(self.native_phones@),
        }
    }
}

/// One word node of the front end's analysis, as the labels read it: its
/// mora count, part of speech (comma-separated fields), whether it chains
/// onto the previous word's accent phrase, and its accent nucleus.
#[derive(Debug, Clone, PartialEq, Eq)]
pub struct NjdNode {
    pub moras: usize,
    pub pos: String,
    pub chain_flag: Option<bool>,
    pub accent: usize,
}

pub struct NjdNodeS {
    pub moras: usize,
    pub pos: Seq<char>,
    pub chain_flag: Option<bool>,
    pub accent: usize,
}

impl View for NjdNode {
    type V = NjdNodeS;

    open spec fn view(&self) -> NjdNodeS {
        NjdNodeS { moras: self.moras, pos: self.pos@, chain_flag: self.chain_flag, accent: self.accent }
    }
}

/// One full-context label, as the labels read it: the current phone, the
/// mora's position in its accent phrase, and the accent phrase's position
/// in its breath group.
#[derive(Debug, Clone, PartialEq, Eq)]
pub struct PhoneLabel {
    pub phone: Option<String>,
    pub mora: Option<u8>,
    pub accent_phrase: Option<u8>,
}

pub struct PhoneLabelS {
    pub phone: Option<Seq<char>>,
    pub mora: Option<u8>,
    pub accent_phrase: Option<u8>,
}

impl View for PhoneLabel {
    type V = PhoneLabelS;

    open spec fn view(&self) -> PhoneLabelS {
        PhoneLabelS {
            phone: crate::labels::opt_view(self.phone),
            mora: self.mora,
            accent_phrase: self.accent_phrase,
        }
    }
}

pub open spec fn node_views(v: Seq<NjdNode>) -> Seq<NjdNodeS> {
    v.map_values(|n: NjdNode| n@)
}

pub open spec fn label_views(v: Seq<PhoneLabel>) -> Seq<PhoneLabelS> {
    v.map_values(|l: PhoneLabel| l@)
}

/// OpenJTalk's phone names and their IPA.
pub open spec fn phone_ipa(p: Seq<char>) -> Option<Seq<char>> {
    if p.len() == 1 {
        match p[0] {
            'a' => Some(seq!['a']),
            'i' => Some(seq!['i']),
            'I' => Some(seq!['i', '\u{325}']),
            'u' => Some(seq!['\u{26f}', '\u{1d5d}']),
            'U' => Some(seq!['\u{26f}', '\u{325}', '\u{1d5d}']),
            'e' => Some(seq!['e']),
            'o' => Some(seq!['o']),
            'k' => Some(seq!['k']),
            'g' => Some(seq!['\u{261}']),
            's' => Some(seq!['s']),
            'z' => Some(seq!['z']),
            'j' => Some(seq!['d', '\u{291}']),
            't' => Some(seq!['t']),
            'd' => Some(seq!['d']),
            'n' => Some(seq!['n']),
            'h' => Some(seq!['h']),
            'f' => Some(seq!['\u{278}']),
            'b' => Some(seq!['b']),
            'p' => Some(seq!['p']),
            'm' => Some(seq!['m']),
            'y' => Some(seq!['j']),
            'r' => Some(seq!['\u{27e}']),
            'w' => Some(seq!['w']),
            'N' => Some(seq!['\u{274}']),
            'v' => Some(seq!['v']),
            _ => None,
        }
    } else if p.len() == 2 {
        match (p[0], p[1]) {
            ('k', 'y') => Some(seq!['k', '\u{2b2}']),
            ('g', 'y') => Some(seq!['\u{261}', '\u{2b2}']),
            ('s', 'h') => Some(seq!['\u{255}']),
            ('t', 'y') => Some(seq!['t', '\u{2b2}']),
            ('c', 'h') => Some(seq!['t', '\u{255}']),
            ('t', 's') => Some(seq!['t', 's']),
            ('d', 'y') => Some(seq!['d', '\u{2b2}']),
            ('n', 'y') => Some(seq!['\u{272}']),
            ('h', 'y') => Some(seq!['\u{e7}']),
            ('b', 'y') => Some(seq!['b', '\u{2b2}']),
            ('p', 'y') => Some(seq!['p', '\u{2b2}']),
            ('m', 'y') => Some(seq!['m', '\u{2b2}']),
            ('r', 'y') => Some(seq!['\u{27e}', '\u{2b2}']),
            _ => None,
        }
    } else {
        None
    }
}


/// OpenJTalk's affricates are a `t` with the matching fricative (`ch` the
/// alveolo-palatal `tɕ` of `sh`, `ts` the alveolar `ts` of `s`); its
/// palatalized consonants are the plain consonant with `ʲ`; its devoiced
/// vowels are the vowel with the voiceless ring below.
pub proof fn law_phone_shapes()
    ensures
        phone_ipa(seq!['c', 'h']) == Some(seq!['t'] + phone_ipa(seq!['s', 'h'])->0),
        phone_ipa(seq!['t', 's']) == Some(seq!['t'] + phone_ipa(seq!['s'])->0),
        phone_ipa(seq!['k', 'y']) == Some(phone_ipa(seq!['k'])->0.push('\u{2b2}')),
        phone_ipa(seq!['g', 'y']) == Some(phone_ipa(seq!['g'])->0.push('\u{2b2}')),
        phone_ipa(seq!['t', 'y']) == Some(phone_ipa(seq!['t'])->0.push('\u{2b2}')),
        phone_ipa(seq!['d', 'y']) == Some(phone_ipa(seq!['d'])->0.push('\u{2b2}')),
        phone_ipa(seq!['b', 'y']) == Some(phone_ipa(seq!['b'])->0.push('\u{2b2}')),
        phone_ipa(seq!['p', 'y']) == Some(phone_ipa(seq!['p'])->0.push('\u{2b2}')),
        phone_ipa(seq!['m', 'y']) == Some(phone_ipa(seq!['m'])->0.push('\u{2b2}')),
        phone_ipa(seq!['r', 'y']) == Some(phone_ipa(seq!['r'])->0.push('\u{2b2}')),
        phone_ipa(seq!['I']) == Some(phone_ipa(seq!['i'])->0.push('\u{325}')),
        phone_ipa(seq!['U']) == Some(seq![phone_ipa(seq!['u'])->0[0], '\u{325}'] + phone_ipa(seq!['u'])->0.drop_first()),
{
    assert(phone_ipa(seq!['c', 'h'])->0 =~= seq!['t'] + phone_ipa(seq!['s', 'h'])->0);
    assert(phone_ipa(seq!['t', 's'])->0 =~= seq!['t'] + phone_ipa(seq!['s'])->0);
    assert(phone_ipa(seq!['k', 'y'])->0 =~= phone_ipa(seq!['k'])->0.push('\u{2b2}'));
    assert(phone_ipa(seq!['g', 'y'])->0 =~= phone_ipa(seq!['g'])->0.push('\u{2b2}'));
    assert(phone_ipa(seq!['t', 'y'])->0 =~= phone_ipa(seq!['t'])->0.push('\u{2b2}'));
    assert(phone_ipa(seq!['d', 'y'])->0 =~= phone_ipa(seq!['d'])->0.push('\u{2b2}'));
    assert(phone_ipa(seq!['b', 'y'])->0 =~= phone_ipa(seq!['b'])->0.push('\u{2b2}'));
    assert(phone_ipa(seq!['p', 'y'])->0 =~= phone_ipa(seq!['p'])->0.push('\u{2b2}'));
    assert(phone_ipa(seq!['m', 'y'])->0 =~= phone_ipa(seq!['m'])->0.push('\u{2b2}'));
    assert(phone_ipa(seq!['r', 'y'])->0 =~= phone_ipa(seq!['r'])->0.push('\u{2b2}'));
    assert(phone_ipa(seq!['I'])->0 =~= phone_ipa(seq!['i'])->0.push('\u{325}'));
    assert(phone_ipa(seq!['U'])->0 =~= seq![phone_ipa(seq!['u'])->0[0], '\u{325}'] + phone_ipa(seq!['u'])->0.drop_first());
}

/// A label's length and its first and last characters.
pub open spec fn label_key(s: Seq<char>) -> (nat, char, char) {
    (s.len(), s[0], s[s.len() - 1])
}

/// Different OpenJTalk phones get different IPA labels.
#[verifier::rlimit(80)]
pub proof fn law_phones_have_distinct_labels(p1: Seq<char>, p2: Seq<char>)
    ensures
        phone_ipa(p1) is Some && phone_ipa(p1) == phone_ipa(p2) ==> p1 == p2,
{
    if phone_ipa(p1) is Some && phone_ipa(p1) == phone_ipa(p2) {
        assert(label_key(phone_ipa(p1)->0) == label_key(phone_ipa(p2)->0));
        assert(p1.len() == p2.len());
        if p1.len() == 1 {
            assert(p1[0] == p2[0]);
            assert(p1 =~= p2);
        } else {
            assert(p1[0] == p2[0] && p1[1] == p2[1]);
            assert(p1 =~= p2);
        }
    }
}

fn ipa_of_phone(p: &[char]) -> (r: Option<Vec<char>>)
    ensures
        match r {
            Some(v) => phone_ipa(p@) == Some(v@),
            None => phone_ipa(p@) is None,
        },
{
    let v: Vec<char> = if p.len() == 1 {
        match p[0] {
            'a' => vec!['a'],
            'i' => vec!['i'],
            'I' => vec!['i', '\u{325}'],
            'u' => vec!['\u{26f}', '\u{1d5d}'],
            'U' => vec!['\u{26f}', '\u{325}', '\u{1d5d}'],
            'e' => vec!['e'],
            'o' => vec!['o'],
            'k' => vec!['k'],
            'g' => vec!['\u{261}'],
            's' => vec!['s'],
            'z' => vec!['z'],
            'j' => vec!['d', '\u{291}'],
            't' => vec!['t'],
            'd' => vec!['d'],
            'n' => vec!['n'],
            'h' => vec!['h'],
            'f' => vec!['\u{278}'],
            'b' => vec!['b'],
            'p' => vec!['p'],
            'm' => vec!['m'],
            'y' => vec!['j'],
            'r' => vec!['\u{27e}'],
            'w' => vec!['w'],
            'N' => vec!['\u{274}'],
            'v' => vec!['v'],
            _ => return None,
        }
    } else if p.len() == 2 {
        match (p[0], p[1]) {
            ('k', 'y') => vec!['k', '\u{2b2}'],
            ('g', 'y') => vec!['\u{261}', '\u{2b2}'],
            ('s', 'h') => vec!['\u{255}'],
            ('t', 'y') => vec!['t', '\u{2b2}'],
            ('c', 'h') => vec!['t', '\u{255}'],
            ('t', 's') => vec!['t', 's'],
            ('d', 'y') => vec!['d', '\u{2b2}'],
            ('n', 'y') => vec!['\u{272}'],
            ('h', 'y') => vec!['\u{e7}'],
            ('b', 'y') => vec!['b', '\u{2b2}'],
            ('p', 'y') => vec!['p', '\u{2b2}'],
            ('m', 'y') => vec!['m', '\u{2b2}'],
            ('r', 'y') => vec!['\u{27e}', '\u{2b2}'],
            _ => return None,
        }
    } else {
        return None;
    };
    assert(phone_ipa(p@) == Some(v@));
    Some(v)
}

/// Phones a sokuon can geminate: the obstruents. A closure before anything
/// else is a glottal cutoff, not a geminate.
pub open spec fn is_geminable(p: Seq<char>) -> bool {
    if p.len() == 1 {
        match p[0] {
            'k' | 'g' | 's' | 'z' | 'j' | 't' | 'd' | 'h' | 'f' | 'b' | 'p' | 'v' => true,
            _ => false,
        }
    } else if p.len() == 2 {
        match (p[0], p[1]) {
            ('k', 'y') => true,
            ('g', 'y') => true,
            ('s', 'h') => true,
            ('t', 'y') => true,
            ('c', 'h') => true,
            ('t', 's') => true,
            ('d', 'y') => true,
            ('h', 'y') => true,
            ('b', 'y') => true,
            ('p', 'y') => true,
            _ => false,
        }
    } else {
        false
    }
}

fn geminable(p: &[char]) -> (r: bool)
    ensures
        r == is_geminable(p@),
{
    if p.len() == 1 {
        match p[0] {
            'k' | 'g' | 's' | 'z' | 'j' | 't' | 'd' | 'h' | 'f' | 'b' | 'p' | 'v' => true,
            _ => false,
        }
    } else if p.len() == 2 {
        match (p[0], p[1]) {
            ('k', 'y') => true,
            ('g', 'y') => true,
            ('s', 'h') => true,
            ('t', 'y') => true,
            ('c', 'h') => true,
            ('t', 's') => true,
            ('d', 'y') => true,
            ('h', 'y') => true,
            ('b', 'y') => true,
            ('p', 'y') => true,
            _ => false,
        }
    } else {
        false
    }
}

/// Realized pitch of one mora of a Tokyo accent phrase (0 = L, 1 = H): the
/// nucleus position plus the initial-lowering rule.
pub open spec fn tokyo_level(mora: u8, nucleus: u8, phrase_moras: u8) -> u8 {
    if phrase_moras <= 1 {
        if nucleus == 1 {
            1
        } else {
            0
        }
    } else if nucleus == 1 {
        if mora == 1 {
            1
        } else {
            0
        }
    } else if nucleus == 0 {
        if mora != 1 {
            1
        } else {
            0
        }
    } else if 2 <= mora && mora <= nucleus {
        1
    } else {
        0
    }
}

/// Realized pitch of one mora of a Tokyo accent phrase (0 = L, 1 = H): the
/// nucleus position plus the initial-lowering rule. Odaka and heiban give
/// the same in-phrase contour; they differ only on the following particle,
/// which this phrase's audio does not carry.
pub fn tokyo_pitch_level(mora: u8, nucleus: u8, phrase_moras: u8) -> (r: u8)
    ensures
        r == tokyo_level(mora, nucleus, phrase_moras),
{
    if phrase_moras <= 1 {
        return if nucleus == 1 {
            1
        } else {
            0
        };
    }
    if nucleus == 1 {
        return if mora == 1 {
            1
        } else {
            0
        };
    }
    if nucleus == 0 {
        return if mora != 1 {
            1
        } else {
            0
        };
    }
    if 2 <= mora && mora <= nucleus {
        1
    } else {
        0
    }
}

/// Every level is L or H, and in a phrase of two or more moras the first
/// two moras differ (initial lowering, or the fall after an initial
/// nucleus).
pub proof fn law_tokyo_levels(nucleus: u8, phrase_moras: u8)
    ensures
        forall|m: u8| #[trigger] tokyo_level(m, nucleus, phrase_moras) <= 1,
        phrase_moras >= 2 ==> tokyo_level(1, nucleus, phrase_moras) != tokyo_level(
            2,
            nucleus,
            phrase_moras,
        ),
{
}

// ---------------------------------------------------------------------------
// Accent phrases from the word nodes
// ---------------------------------------------------------------------------

/// Accent phrases so far as (nucleus, moras), whether a boundary is
/// pending, and the part of speech of the first content word.
pub struct PhraseScan {
    pub phrases: Seq<(int, int)>,
    pub boundary: bool,
    pub first: Option<Seq<char>>,
}

/// A part of speech in the symbol class (`記号`).
pub open spec fn is_symbol_pos(pos: Seq<char>) -> bool {
    pos.len() >= 2 && pos[0] == '\u{8a18}' && pos[1] == '\u{53f7}'
}

/// One more node: a node without moras (punctuation) forces a boundary; a
/// node starts a new phrase after a boundary or unless it chains onto the
/// last one, whose moras it otherwise joins.
pub open spec fn phrase_step(s: PhraseScan, n: NjdNodeS) -> PhraseScan {
    if n.moras == 0 {
        PhraseScan { boundary: true, ..s }
    } else {
        let first = if s.first is None && !is_symbol_pos(n.pos) {
            Some(n.pos)
        } else {
            s.first
        };
        let m = (n.moras % 256) as int;
        let phrases = if s.boundary || s.phrases.len() == 0 || n.chain_flag != Some(true) {
            s.phrases.push(((n.accent % 256) as int, m))
        } else {
            s.phrases.update(
                s.phrases.len() - 1,
                (s.phrases.last().0, s.phrases.last().1 + m),
            )
        };
        PhraseScan { phrases, boundary: false, first }
    }
}

pub open spec fn phrase_scan(nodes: Seq<NjdNodeS>, n: int) -> PhraseScan
    decreases n,
{
    if n <= 0 {
        PhraseScan { phrases: Seq::empty(), boundary: true, first: None }
    } else {
        phrase_step(phrase_scan(nodes, n - 1), nodes[n - 1])
    }
}

/// Every accent phrase holds at most 255 moras.
pub open spec fn phrases_fit(nodes: Seq<NjdNodeS>) -> bool {
    let ps = phrase_scan(nodes, nodes.len() as int).phrases;
    forall|k: int| 0 <= k < ps.len() ==> (#[trigger] ps[k]).1 <= 255
}

proof fn lemma_phrase_bounds(nodes: Seq<NjdNodeS>, i: int)
    requires
        0 <= i <= nodes.len(),
    ensures
        forall|k: int|
            0 <= k < phrase_scan(nodes, i).phrases.len() ==> 0 <= (#[trigger] phrase_scan(
                nodes,
                i,
            ).phrases[k]).0 < 256 && 0 <= phrase_scan(nodes, i).phrases[k].1,
    decreases i,
{
    if i > 0 {
        lemma_phrase_bounds(nodes, i - 1);
    }
}

proof fn lemma_phrase_scan_grows(nodes: Seq<NjdNodeS>, i: int, j: int)
    requires
        0 <= i <= j <= nodes.len(),
    ensures
        phrase_scan(nodes, i).phrases.len() <= phrase_scan(nodes, j).phrases.len(),
        forall|k: int|
            0 <= k < phrase_scan(nodes, i).phrases.len() ==> (#[trigger] phrase_scan(nodes, i).phrases[k]).1
                <= phrase_scan(nodes, j).phrases[k].1,
    decreases j - i,
{
    if i < j {
        lemma_phrase_scan_grows(nodes, i, j - 1);
        lemma_phrase_bounds(nodes, j - 1);
        let a = phrase_scan(nodes, j - 1).phrases;
        let b = phrase_scan(nodes, j).phrases;
        assert forall|k: int| 0 <= k < a.len() implies (#[trigger] a[k]).1 <= b[k].1 by {
        }
    }
}

/// Whether every accent phrase of the nodes holds at most 255 moras.
pub fn accent_phrases_fit(nodes: &[NjdNode]) -> (r: bool)
    ensures
        r == phrases_fit(node_views(nodes@)),
{
    let ghost ns = node_views(nodes@);
    let mut sums: Vec<u64> = Vec::new();
    let mut boundary = true;
    let mut i: usize = 0;
    while i < nodes.len()
        invariant
            i <= nodes@.len(),
            ns == node_views(nodes@),
            sums@.len() == phrase_scan(ns, i as int).phrases.len(),
            forall|k: int| 0 <= k < sums@.len() ==> #[trigger] sums@[k] == phrase_scan(ns, i as int).phrases[k].1,
            forall|k: int| 0 <= k < sums@.len() ==> #[trigger] sums@[k] <= 255,
            boundary == phrase_scan(ns, i as int).boundary,
        decreases nodes@.len() - i,
    {
        let node = &nodes[i];
        proof {
            assert(ns[i as int] == node@);
            lemma_phrase_bounds(ns, i as int);
        }
        if node.moras != 0 {
            let m = (node.moras % 256) as u64;
            let n = sums.len();
            if boundary || n == 0 || node.chain_flag != Some(true) {
                sums.push(m);
            } else {
                let total = sums[n - 1] + m;
                if total > 255 {
                    proof {
                        lemma_phrase_scan_grows(ns, i + 1, ns.len() as int);
                        assert(phrase_scan(ns, i + 1).phrases[n - 1].1 == total);
                        assert(phrase_scan(ns, ns.len() as int).phrases[n - 1].1 >= total);
                    }
                    return false;
                }
                sums.set(n - 1, total);
            }
            boundary = false;
        } else {
            boundary = true;
        }
        proof {
            let a = phrase_scan(ns, i + 1).phrases;
            assert(sums@.len() == a.len());
            assert forall|k: int| 0 <= k < sums@.len() implies #[trigger] sums@[k] == a[k].1 by {
            }
        }
        i += 1;
    }
    proof {
        assert(ns.len() == nodes@.len());
        let ps = phrase_scan(ns, ns.len() as int).phrases;
        assert forall|k: int| 0 <= k < ps.len() implies (#[trigger] ps[k]).1 <= 255 by {
            assert(sums@[k] == ps[k].1);
        }
    }
    true
}

pub open spec fn pair_views(v: Seq<(u8, u8)>) -> Seq<(int, int)> {
    v.map_values(|p: (u8, u8)| (p.0 as int, p.1 as int))
}

fn symbol_pos(pos: &[char]) -> (r: bool)
    ensures
        r == is_symbol_pos(pos@),
{
    pos.len() >= 2 && pos[0] == '\u{8a18}' && pos[1] == '\u{53f7}'
}

fn accent_phrases(nodes: &[NjdNode]) -> (r: (Vec<(u8, u8)>, Option<String>))
    requires
        phrases_fit(node_views(nodes@)),
    ensures
        pair_views(r.0@) == phrase_scan(node_views(nodes@), nodes@.len() as int).phrases,
        crate::labels::opt_view(r.1) == phrase_scan(node_views(nodes@), nodes@.len() as int).first,
{
    let ghost ns = node_views(nodes@);
    let mut phrases: Vec<(u8, u8)> = Vec::new();
    let mut boundary = true;
    let mut first: Option<String> = None;
    let mut i: usize = 0;
    proof {
        assert(pair_views(phrases@) =~= Seq::<(int, int)>::empty());
    }
    while i < nodes.len()
        invariant
            i <= nodes@.len(),
            ns == node_views(nodes@),
            phrases_fit(ns),
            ({
                let s = phrase_scan(ns, i as int);
                &&& pair_views(phrases@) == s.phrases
                &&& boundary == s.boundary
                &&& crate::labels::opt_view(first) == s.first
            }),
        decreases nodes@.len() - i,
    {
        let node = &nodes[i];
        proof {
            assert(ns[i as int] == node@);
            lemma_phrase_scan_grows(ns, i + 1, ns.len() as int);
            lemma_phrase_bounds(ns, i as int);
        }
        let ghost p0 = pair_views(phrases@);
        if node.moras == 0 {
            boundary = true;
        } else {
            if first.is_none() {
                let pos = crate::text::chars_of(node.pos.as_str());
                if !symbol_pos(&pos) {
                    first = Some(node.pos.clone());
                }
            }
            let m = (node.moras % 256) as u8;
            let n = phrases.len();
            if boundary || n == 0 || node.chain_flag != Some(true) {
                phrases.push(((node.accent % 256) as u8, m));
                proof {
                    assert(pair_views(phrases@) =~= p0.push(((node.accent % 256) as int, m as int)));
                }
            } else {
                let last = phrases[n - 1];
                proof {
                    let s1 = phrase_scan(ns, i + 1).phrases;
                    assert(s1[n - 1].1 == last.1 + m);
                    assert(s1[n - 1].1 <= phrase_scan(ns, ns.len() as int).phrases[n - 1].1);
                    assert(ns.len() == nodes@.len());
                    assert(phrase_scan(ns, ns.len() as int).phrases[n - 1].1 <= 255);
                }
                phrases.set(n - 1, (last.0, last.1 + m));
                proof {
                    assert(pair_views(phrases@) =~= p0.update(
                        n - 1,
                        (p0.last().0, p0.last().1 + m as int),
                    ));
                }
            }
            boundary = false;
        }
        i += 1;
    }
    (phrases, first)
}

// ---------------------------------------------------------------------------
// Phones, pitch, and withholding
// ---------------------------------------------------------------------------

/// Labels so far, whether a closure waits for its phone, the accent phrase
/// counter, the breath group, the current phrase key, or the refusal.
pub struct JpS {
    pub phonemes: Seq<Seq<char>>,
    pub pitch: Seq<Option<Pitch>>,
    pub geminate: bool,
    pub phrase: int,
    pub breath: int,
    pub key: Option<(int, int)>,
    pub err: Option<ErrorS>,
}

/// The IPA phone carries a mora: a vowel, or the moraic nasal.
pub open spec fn bears_mora(m: Seq<char>) -> bool {
    (m.len() > 0 && (m[0] == 'a' || m[0] == 'i' || m[0] == '\u{26f}' || m[0] == 'e' || m[0] == 'o'))
        || m == seq!['\u{274}']
}

pub open spec fn jp_fail(s: JpS, e: ErrorS) -> JpS {
    JpS { err: Some(e), ..s }
}

/// One more OpenJTalk phone with its label: pauses and silences start a new
/// breath group; `cl` waits for the phone it geminates; any other phone is
/// mapped to IPA (lengthened after `cl`) and, when it bears a mora, given
/// its accent phrase's pitch.
pub open spec fn jp_step(s: JpS, phone: Seq<char>, label: PhoneLabelS, phrases: Seq<(int, int)>) -> JpS {
    if s.err is Some {
        s
    } else if phone == seq!['p', 'a', 'u'] || phone == seq!['s', 'i', 'l'] {
        JpS { breath: s.breath + 1, key: None, ..s }
    } else if phone == seq!['c', 'l'] {
        if s.geminate {
            jp_fail(s, ErrorS::Unlabelable("japanese_double_closure"@))
        } else {
            JpS { geminate: true, ..s }
        }
    } else {
        match phone_ipa(phone) {
            None => jp_fail(s, ErrorS::Unlabelable("japanese_unknown_phone:"@ + phone)),
            Some(ipa) => if s.geminate && !is_geminable(phone) {
                jp_fail(s, ErrorS::Unlabelable("japanese_ungeminable_closure"@))
            } else {
                let mapped = if s.geminate {
                    ipa.push('\u{2d0}')
                } else {
                    ipa
                };
                match (label.mora, label.accent_phrase) {
                    (Some(mora), Some(ap)) => {
                        let key = (s.breath, ap as int);
                        let phrase = if s.key != Some(key) {
                            s.phrase + 1
                        } else {
                            s.phrase
                        };
                        if phrase == 0 || phrase > phrases.len() {
                            jp_fail(s, ErrorS::Synth("jpreprocess accent-phrase mismatch"@))
                        } else {
                            let info = phrases[phrase - 1];
                            let p = if bears_mora(mapped) {
                                Some(
                                    Pitch {
                                        phrase: (phrase % 256) as u8,
                                        mora,
                                        phrase_moras: info.1 as u8,
                                        nucleus: info.0 as u8,
                                        level: tokyo_level(mora, info.0 as u8, info.1 as u8),
                                    },
                                )
                            } else {
                                None
                            };
                            JpS {
                                phonemes: s.phonemes.push(mapped),
                                pitch: s.pitch.push(p),
                                geminate: false,
                                phrase,
                                key: Some(key),
                                ..s
                            }
                        }
                    },
                    _ => jp_fail(
                        s,
                        ErrorS::Synth(
                            "jpreprocess label for "@ + crate::text::str_debug(phone)
                                + " lacks mora/accent-phrase fields"@,
                        ),
                    ),
                }
            },
        }
    }
}

pub open spec fn jp_init() -> JpS {
    JpS {
        phonemes: Seq::empty(),
        pitch: Seq::empty(),
        geminate: false,
        phrase: 0,
        breath: 0,
        key: None,
        err: None,
    }
}

/// The OpenJTalk phone of a label (empty when it has none).
pub open spec fn native_of(l: PhoneLabelS) -> Seq<char> {
    match l.phone {
        Some(p) => p,
        None => Seq::empty(),
    }
}

/// The first `n` phones between the utterance's leading and trailing
/// silence labels.
pub open spec fn jp_scan(labels: Seq<PhoneLabelS>, phrases: Seq<(int, int)>, n: int) -> JpS
    decreases n,
{
    if n <= 0 {
        jp_init()
    } else {
        jp_step(jp_scan(labels, phrases, n - 1), native_of(labels[n]), labels[n], phrases)
    }
}

/// The part of speech's first field.
pub open spec fn major_pos(pos: Seq<char>) -> Seq<char>
    decreases pos.len(),
{
    if pos.len() == 0 {
        pos
    } else if pos[0] == ',' {
        Seq::empty()
    } else {
        seq![pos[0]] + major_pos(pos.subrange(1, pos.len() as int))
    }
}

/// What follows the part of speech's first comma, if it has one.
pub open spec fn after_comma(pos: Seq<char>) -> Option<Seq<char>>
    decreases pos.len(),
{
    if pos.len() == 0 {
        None
    } else if pos[0] == ',' {
        Some(pos.subrange(1, pos.len() as int))
    } else {
        after_comma(pos.subrange(1, pos.len() as int))
    }
}

/// The part of speech's second field (empty when it has one field).
pub open spec fn group1_pos(pos: Seq<char>) -> Seq<char> {
    match after_comma(pos) {
        Some(rest) => major_pos(rest),
        None => Seq::empty(),
    }
}

/// A pitch entry out of its phrase: its mora outside `1..=moras`, or its
/// nucleus past the phrase.
pub open spec fn entry_inconsistent(o: Option<Pitch>) -> bool {
    match o {
        Some(p) => !(1 <= p.mora && p.mora <= p.phrase_moras) || p.nucleus > p.phrase_moras,
        None => false,
    }
}

/// Some pitch entry is out of its phrase.
pub open spec fn pitch_inconsistent(pitch: Seq<Option<Pitch>>) -> bool {
    exists|i: int| 0 <= i < pitch.len() && entry_inconsistent(#[trigger] pitch[i])
}

/// Why the accent factor is withheld, if it is.
pub open spec fn withheld_reason(
    pitch: Seq<Option<Pitch>>,
    phrase: int,
    n: int,
    first: Option<Seq<char>>,
) -> Option<Seq<char>> {
    if pitch_inconsistent(pitch) || phrase != n {
        Some("njd_hts_phrase_boundary_mismatch"@)
    } else {
        match first {
            None => Some("japanese_accent_no_content_word"@),
            Some(pos) => if major_pos(pos) == seq!['\u{52a9}', '\u{8a5e}'] || major_pos(pos) == seq![
                '\u{52a9}',
                '\u{52d5}',
                '\u{8a5e}',
            ] || group1_pos(pos) == seq!['\u{63a5}', '\u{5c3e}'] {
                Some("japanese_accent_head_truncated"@)
            } else {
                None
            },
        }
    }
}

/// An utterance's labels from its word nodes and full-context labels, or
/// why it is refused.
pub open spec fn phonemize_spec(nodes: Seq<NjdNodeS>, labels: Seq<PhoneLabelS>) -> Result<LabelsS, ErrorS> {
    if labels.len() < 2 {
        Ok(
            LabelsS {
                phonemes: Seq::empty(),
                pitch: Seq::empty(),
                accent_withheld: None,
                native_phones: Seq::empty(),
            },
        )
    } else {
        let native = Seq::new((labels.len() - 2) as nat, |i: int| native_of(labels[i + 1]));
        let ps = phrase_scan(nodes, nodes.len() as int);
        let s = jp_scan(labels, ps.phrases, labels.len() - 2);
        if s.err is Some {
            Err(s.err->0)
        } else if s.geminate {
            Err(ErrorS::Unlabelable("japanese_terminal_sokuon"@))
        } else {
            let withheld = withheld_reason(s.pitch, s.phrase, ps.phrases.len() as int, ps.first);
            Ok(
                LabelsS {
                    phonemes: s.phonemes,
                    pitch: if withheld is None {
                        s.pitch
                    } else {
                        Seq::empty()
                    },
                    accent_withheld: withheld,
                    native_phones: native,
                },
            )
        }
    }
}


proof fn lemma_jp_scan_err(labels: Seq<PhoneLabelS>, phrases: Seq<(int, int)>, i: int, j: int)
    requires
        0 <= i <= j,
        jp_scan(labels, phrases, i).err is Some,
    ensures
        jp_scan(labels, phrases, j) == jp_scan(labels, phrases, i),
    decreases j - i,
{
    if i < j {
        lemma_jp_scan_err(labels, phrases, i, j - 1);
    }
}

proof fn lemma_comma(cs: Seq<char>, j: int)
    requires
        0 <= j <= cs.len(),
        forall|k: int| 0 <= k < j ==> cs[k] != ',',
        j == cs.len() || cs[j] == ',',
    ensures
        major_pos(cs) == cs.subrange(0, j),
        after_comma(cs) == (if j == cs.len() {
            None
        } else {
            Some(cs.subrange(j + 1, cs.len() as int))
        }),
    decreases j,
{
    if j > 0 {
        let rest = cs.subrange(1, cs.len() as int);
        lemma_comma(rest, j - 1);
        assert(seq![cs[0]] + rest.subrange(0, j - 1) =~= cs.subrange(0, j));
        if j < cs.len() {
            assert(rest.subrange(j, rest.len() as int) =~= cs.subrange(j + 1, cs.len() as int));
        }
    } else {
        assert(cs.subrange(0, 0) =~= Seq::<char>::empty());
        if cs.len() > 0 {
            assert(cs.subrange(1, cs.len() as int) =~= cs.subrange(j + 1, cs.len() as int));
        }
    }
}

fn comma_at(cs: &[char]) -> (j: usize)
    ensures
        j <= cs.len(),
        forall|k: int| 0 <= k < j ==> cs@[k] != ',',
        j == cs.len() || cs@[j as int] == ',',
{
    let mut j: usize = 0;
    while j < cs.len()
        invariant
            j <= cs.len(),
            forall|k: int| 0 <= k < j ==> cs@[k] != ',',
        decreases cs.len() - j,
    {
        if cs[j] == ',' {
            return j;
        }
        j += 1;
    }
    j
}

fn fields_of_pos(pos: &[char]) -> (r: (Vec<char>, Vec<char>))
    ensures
        r.0@ == major_pos(pos@),
        r.1@ == group1_pos(pos@),
{
    let j = comma_at(pos);
    proof {
        lemma_comma(pos@, j as int);
    }
    let major = crate::parse::sub_chars(pos, 0, j);
    if j == pos.len() {
        return (major, Vec::new());
    }
    let rest = crate::parse::sub_chars(pos, j + 1, pos.len());
    let k = comma_at(&rest);
    proof {
        lemma_comma(rest@, k as int);
    }
    let group1 = crate::parse::sub_chars(&rest, 0, k);
    (major, group1)
}

fn mora_bearing(m: &[char]) -> (r: bool)
    ensures
        r == bears_mora(m@),
{
    let vowel = m.len() > 0 && (m[0] == 'a' || m[0] == 'i' || m[0] == '\u{26f}' || m[0] == 'e'
        || m[0] == 'o');
    vowel || crate::parse::is_one(m, '\u{274}')
}

pub open spec fn key_view(k: Option<(usize, u8)>) -> Option<(int, int)> {
    match k {
        Some(p) => Some((p.0 as int, p.1 as int)),
        None => None,
    }
}

/// Labels for one utterance from the front end's analysis: its word nodes
/// and its full-context labels (the first and last are the utterance's
/// silences). Requires what the accent-phrase arithmetic needs: no phrase
/// over 255 moras.
pub fn phonemize(nodes: &[NjdNode], labels: &[PhoneLabel]) -> (r: Result<Labels, Error>)
    requires
        phrases_fit(node_views(nodes@)),
    ensures
        crate::error::result_view(r, |l: Labels| l@) == phonemize_spec(node_views(nodes@), label_views(labels@)),
{
    let ghost lv = label_views(labels@);
    if labels.len() < 2 {
        let r = Labels {
            phonemes: Vec::new(),
            pitch: Vec::new(),
            accent_withheld: None,
            native_phones: Vec::new(),
        };
        proof {
            assert(r@ =~= phonemize_spec(node_views(nodes@), lv)->Ok_0);
        }
        return Ok(r);
    }
    let (phrases, first) = accent_phrases(nodes);
    let ghost ps = phrase_scan(node_views(nodes@), nodes@.len() as int);
    proof {
        lemma_phrase_bounds(node_views(nodes@), nodes@.len() as int);
    }
    let n = labels.len() - 2;
    let mut native: Vec<String> = Vec::new();
    let mut i: usize = 0;
    while i < n
        invariant
            i <= n,
            n == labels@.len() - 2,
            lv == label_views(labels@),
            crate::text::string_views(native@) == Seq::new(i as nat, |k: int| native_of(lv[k + 1])),
        decreases n - i,
    {
        let ghost v0 = crate::text::string_views(native@);
        let p = match &labels[i + 1].phone {
            Some(p) => p.clone(),
            None => String::new(),
        };
        proof {
            assert(lv[i + 1] == labels@[i + 1]@);
            assert(p@ == native_of(lv[i + 1]));
        }
        native.push(p);
        proof {
            let want = Seq::new((i + 1) as nat, |k: int| native_of(lv[k + 1]));
            let got = crate::text::string_views(native@);
            assert(v0.len() == i);
            assert(native@.len() == i + 1);
            assert(got.len() == want.len());
            assert forall|k: int| 0 <= k < got.len() implies got[k] == want[k] by {
                if k < i {
                    assert(got[k] == v0[k]);
                } else {
                    assert(got[k] == p@);
                }
            }
            assert(got =~= want);
        }
        i += 1;
    }
    let mut phonemes: Vec<Vec<char>> = Vec::new();
    let mut pitch: Vec<Option<Pitch>> = Vec::new();
    let mut geminate = false;
    let mut phrase: usize = 0;
    let mut breath: usize = 0;
    let mut key: Option<(usize, u8)> = None;
    let mut i: usize = 0;
    proof {
        assert(crate::parse::views(phonemes@) =~= Seq::<Seq<char>>::empty());
        assert(pitch@ =~= Seq::<Option<Pitch>>::empty());
        assert(jp_scan(lv, ps.phrases, 0) =~= (JpS {
            phonemes: crate::parse::views(phonemes@),
            pitch: pitch@,
            geminate,
            phrase: phrase as int,
            breath: breath as int,
            key: key_view(key),
            err: None,
        }));
    }
    while i < n
        invariant
            i <= n,
            n == labels@.len() - 2,
            lv == label_views(labels@),
            pair_views(phrases@) == ps.phrases,
            ps == phrase_scan(node_views(nodes@), nodes@.len() as int),
            forall|k: int| 0 <= k < ps.phrases.len() ==> 0 <= (#[trigger] ps.phrases[k]).0 < 256 && 0 <= ps.phrases[k].1,
            ps.phrases.len() == phrases@.len(),
            crate::text::string_views(native@) == Seq::new(n as nat, |k: int| native_of(lv[k + 1])),
            native@.len() == n,
            phrase <= i,
            breath <= i,
            jp_scan(lv, ps.phrases, i as int) == (JpS {
                phonemes: crate::parse::views(phonemes@),
                pitch: pitch@,
                geminate,
                phrase: phrase as int,
                breath: breath as int,
                key: key_view(key),
                err: None,
            }),
        decreases n - i,
    {
        let label = &labels[i + 1];
        let phone = crate::text::chars_of(native[i].as_str());
        let ghost s0 = jp_scan(lv, ps.phrases, i as int);
        proof {
            assert(lv[i + 1] == label@);
            assert(crate::text::string_views(native@)[i as int] == native@[i as int]@);
            assert(phone@ == native_of(lv[i + 1]));
            assert(jp_scan(lv, ps.phrases, i + 1) == jp_step(s0, phone@, lv[i + 1], ps.phrases));
        }
        if crate::parse::chars_eq(&phone, &['p', 'a', 'u']) || crate::parse::chars_eq(&phone, &['s', 'i', 'l']) {
            breath += 1;
            key = None;
        } else if crate::parse::chars_eq(&phone, &['c', 'l']) {
            if geminate {
                proof {
                    lemma_jp_scan_err(lv, ps.phrases, i + 1, n as int);
                }
                return Err(Error::Unlabelable(String::from_str("japanese_double_closure")));
            }
            geminate = true;
        } else {
            let mut mapped = match ipa_of_phone(&phone) {
                Some(v) => v,
                None => {
                    proof {
                        lemma_jp_scan_err(lv, ps.phrases, i + 1, n as int);
                    }
                    return Err(Error::Unlabelable(crate::text::prefixed("japanese_unknown_phone:", &phone)));
                },
            };
            if geminate {
                if !geminable(&phone) {
                    proof {
                        lemma_jp_scan_err(lv, ps.phrases, i + 1, n as int);
                    }
                    return Err(Error::Unlabelable(String::from_str("japanese_ungeminable_closure")));
                }
                mapped.push('\u{2d0}');
                geminate = false;
            }
            match (label.mora, label.accent_phrase) {
                (Some(mora), Some(ap)) => {
                    let same = match key {
                        Some(k) => k.0 == breath && k.1 == ap,
                        None => false,
                    };
                    if !same {
                        phrase += 1;
                    }
                    key = Some((breath, ap));
                    if phrase == 0 || phrase > phrases.len() {
                        proof {
                            lemma_jp_scan_err(lv, ps.phrases, i + 1, n as int);
                        }
                        return Err(Error::Synth(String::from_str("jpreprocess accent-phrase mismatch")));
                    }
                    let info = phrases[phrase - 1];
                    proof {
                        assert(ps.phrases[phrase - 1] == (info.0 as int, info.1 as int));
                    }
                    let bears = mora_bearing(&mapped);
                    let p = if bears {
                        Some(
                            Pitch {
                                phrase: (phrase % 256) as u8,
                                mora,
                                phrase_moras: info.1,
                                nucleus: info.0,
                                level: tokyo_pitch_level(mora, info.0, info.1),
                            },
                        )
                    } else {
                        None
                    };
                    pitch.push(p);
                    let ghost pv0 = crate::parse::views(phonemes@);
                    phonemes.push(mapped);
                    proof {
                        assert(crate::parse::views(phonemes@) =~= pv0.push(mapped@));
                    }
                },
                _ => {
                    proof {
                        lemma_jp_scan_err(lv, ps.phrases, i + 1, n as int);
                    }
                    let q = crate::text::debug_quoted(native[i].as_str());
                    let msg = crate::text::concat3("jpreprocess label for ", q.as_str(), " lacks mora/accent-phrase fields");
                    return Err(Error::Synth(msg));
                },
            }
        }
        proof {
            assert(jp_scan(lv, ps.phrases, i + 1) =~= (JpS {
                phonemes: crate::parse::views(phonemes@),
                pitch: pitch@,
                geminate,
                phrase: phrase as int,
                breath: breath as int,
                key: key_view(key),
                err: None,
            }));
        }
        i += 1;
    }
    if geminate {
        return Err(Error::Unlabelable(String::from_str("japanese_terminal_sokuon")));
    }
    let mut inconsistent = false;
    let mut j: usize = 0;
    while j < pitch.len()
        invariant
            j <= pitch@.len(),
            inconsistent <==> exists|k: int| 0 <= k < j && entry_inconsistent(#[trigger] pitch@[k]),
        decreases pitch@.len() - j,
    {
        match pitch[j] {
            Some(p) => {
                if !(1 <= p.mora && p.mora <= p.phrase_moras) || p.nucleus > p.phrase_moras {
                    inconsistent = true;
                }
            },
            None => {},
        }
        proof {
            if inconsistent {
                if !(exists|k: int| 0 <= k < j && entry_inconsistent(#[trigger] pitch@[k])) {
                    assert(entry_inconsistent(pitch@[j as int]));
                }
            }
        }
        j += 1;
    }
    let reason: Option<String> = if inconsistent || phrase != phrases.len() {
        Some(String::from_str("njd_hts_phrase_boundary_mismatch"))
    } else {
        match &first {
            None => Some(String::from_str("japanese_accent_no_content_word")),
            Some(pos) => {
                let cs = crate::text::chars_of(pos.as_str());
                let (major, group1) = fields_of_pos(&cs);
                if crate::parse::chars_eq(&major, &['\u{52a9}', '\u{8a5e}']) || crate::parse::chars_eq(
                    &major,
                    &['\u{52a9}', '\u{52d5}', '\u{8a5e}'],
                ) || crate::parse::chars_eq(&group1, &['\u{63a5}', '\u{5c3e}']) {
                    Some(String::from_str("japanese_accent_head_truncated"))
                } else {
                    None
                }
            },
        }
    };
    let withheld = reason.is_some();
    let r = Labels {
        phonemes: crate::text::strings_of(&phonemes),
        pitch: if withheld {
            Vec::new()
        } else {
            pitch
        },
        accent_withheld: reason,
        native_phones: native,
    };
    proof {
        assert(r@ =~= phonemize_spec(node_views(nodes@), lv)->Ok_0);
    }
    Ok(r)
}


/// Pitch entries sit exactly on the mora-bearing phones, each at the level
/// the Tokyo rule gives its mora.
pub open spec fn pitch_on_moras(ph: Seq<Seq<char>>, pitch: Seq<Option<Pitch>>) -> bool {
    &&& pitch.len() == ph.len()
    &&& forall|i: int| 0 <= i < ph.len() ==> ((#[trigger] pitch[i]) is Some <==> bears_mora(ph[i]))
    &&& forall|i: int|
        0 <= i < ph.len() && (#[trigger] pitch[i]) is Some ==> pitch[i]->0.level == tokyo_level(
            pitch[i]->0.mora,
            pitch[i]->0.nucleus,
            pitch[i]->0.phrase_moras,
        )
}

#[verifier::spinoff_prover]
/// Every pitch entry names an accent phrase of the utterance, numbered
/// from 1.
pub open spec fn phrases_numbered(pitch: Seq<Option<Pitch>>, count: int) -> bool {
    forall|i: int| 0 <= i < pitch.len() && (#[trigger] pitch[i]) is Some ==> 1 <= pitch[i]->0.phrase <= count
}

proof fn lemma_jp_scan_parallel(labels: Seq<PhoneLabelS>, phrases: Seq<(int, int)>, n: int)
    ensures
        jp_scan(labels, phrases, n).pitch.len() == jp_scan(labels, phrases, n).phonemes.len(),
        pitch_on_moras(jp_scan(labels, phrases, n).phonemes, jp_scan(labels, phrases, n).pitch),
        phrases.len() <= 255 ==> phrases_numbered(jp_scan(labels, phrases, n).pitch, phrases.len() as int),
        jp_scan(labels, phrases, n).phrase >= 0,
    decreases n,
{
    if n > 0 {
        lemma_jp_scan_parallel(labels, phrases, n - 1);
        let s0 = jp_scan(labels, phrases, n - 1);
        let s1 = jp_scan(labels, phrases, n);
        if s1.phonemes.len() > s0.phonemes.len() {
            if phrases.len() <= 255 {
                assert forall|i: int| 0 <= i < s1.pitch.len() && (#[trigger] s1.pitch[i]) is Some implies 1
                    <= s1.pitch[i]->0.phrase <= phrases.len() by {
                    if i < s0.pitch.len() {
                        assert(s1.pitch[i] == s0.pitch[i]);
                    } else {
                        assert(s1 == jp_step(s0, native_of(labels[n]), labels[n], phrases));
                        assert(s1.phrase != 0 && s1.phrase <= phrases.len());
                        assert(s1.phrase % 256 == s1.phrase);
                        assert(((s1.phrase % 256) as u8) as int == s1.phrase);
                    }
                }
            }
            assert forall|i: int| 0 <= i < s1.phonemes.len() implies ((#[trigger] s1.pitch[i]) is Some
                <==> bears_mora(s1.phonemes[i])) by {
                if i < s0.phonemes.len() {
                    assert(s1.pitch[i] == s0.pitch[i] && s1.phonemes[i] == s0.phonemes[i]);
                }
            }
            assert forall|i: int| 0 <= i < s1.phonemes.len() && (#[trigger] s1.pitch[i]) is Some implies s1.pitch[i]->0.level
                == tokyo_level(s1.pitch[i]->0.mora, s1.pitch[i]->0.nucleus, s1.pitch[i]->0.phrase_moras) by {
                if i < s0.phonemes.len() {
                    assert(s1.pitch[i] == s0.pitch[i]);
                }
            }
        }
    }
}

/// The pitch factor runs parallel to the phones, or is empty where it is
/// withheld; where it is given, exactly the mora-bearing phones (vowels and
/// the moraic nasal) carry an entry, each mora within its phrase, the
/// nucleus no later than the phrase's end, the level the Tokyo rule gives,
/// and (while the phrases fit their byte-wide numbers) the phrase numbered
/// from 1; and there is one native phone per label between the utterance's
/// silences.
pub proof fn law_pitch_parallel(nodes: Seq<NjdNodeS>, labels: Seq<PhoneLabelS>)
    requires
        phonemize_spec(nodes, labels) is Ok,
    ensures
        ({
            let l = phonemize_spec(nodes, labels)->Ok_0;
            &&& l.accent_withheld is None ==> l.pitch.len() == l.phonemes.len()
            &&& l.accent_withheld is Some ==> l.pitch.len() == 0
            &&& l.accent_withheld is None ==> pitch_on_moras(l.phonemes, l.pitch)
            &&& l.accent_withheld is None ==> forall|i: int|
                0 <= i < l.pitch.len() && (#[trigger] l.pitch[i]) is Some ==> 1 <= l.pitch[i]->0.mora
                    <= l.pitch[i]->0.phrase_moras && l.pitch[i]->0.nucleus <= l.pitch[i]->0.phrase_moras
            &&& l.accent_withheld is None && phrase_scan(nodes, nodes.len() as int).phrases.len() <= 255
                ==> phrases_numbered(l.pitch, phrase_scan(nodes, nodes.len() as int).phrases.len() as int)
            &&& labels.len() >= 2 ==> l.native_phones.len() == labels.len() - 2
        }),
{
    if labels.len() >= 2 {
        let ps = phrase_scan(nodes, nodes.len() as int);
        lemma_jp_scan_parallel(labels, ps.phrases, labels.len() - 2);
        let l = phonemize_spec(nodes, labels)->Ok_0;
        if l.accent_withheld is None {
            assert forall|i: int| 0 <= i < l.pitch.len() && (#[trigger] l.pitch[i]) is Some implies 1
                <= l.pitch[i]->0.mora <= l.pitch[i]->0.phrase_moras && l.pitch[i]->0.nucleus
                <= l.pitch[i]->0.phrase_moras by {
                if !(1 <= l.pitch[i]->0.mora <= l.pitch[i]->0.phrase_moras && l.pitch[i]->0.nucleus
                    <= l.pitch[i]->0.phrase_moras) {
                    assert(entry_inconsistent(l.pitch[i]));
                    assert(pitch_inconsistent(l.pitch));
                }
            }
        }
    }
}

} // verus!
