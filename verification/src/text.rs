//! Character-level helpers shared by every label stage.

use vstd::prelude::*;

verus! {

/// The characters of `s`, in order.
pub fn chars_of(s: &str) -> (r: Vec<char>)
    ensures
        r@ == s@,
{
    let n = s.unicode_len();
    let mut r: Vec<char> = Vec::new();
    let mut i: usize = 0;
    while i < n
        invariant
            i <= n,
            n == s@.len(),
            r@ == s@.subrange(0, i as int),
        decreases n - i,
    {
        r.push(s.get_char(i));
        i += 1;
    }
    r
}

/// Appends one character to a `String` (`String::push`).
#[verifier::external_body]
pub(crate) fn push_char(s: &mut String, c: char)
    ensures
        final(s)@ == old(s)@.push(c),
{
    s.push(c);
}

/// `std`'s `Debug` rendering of a string: quoted, with escapes.
pub uninterp spec fn str_debug(s: Seq<char>) -> Seq<char>;

/// `format!("{s:?}")`: the standard `Debug` rendering of a string.
#[verifier::external_body]
pub(crate) fn debug_quoted(s: &str) -> (r: String)
    ensures
        r@ == str_debug(s@),
{
    format!("{s:?}")
}

/// `std`'s `Debug` rendering of a character: quoted, with escapes.
pub uninterp spec fn char_debug(c: char) -> Seq<char>;

/// `format!("{c:?}")`: the standard `Debug` rendering of a character.
#[verifier::external_body]
pub(crate) fn debug_char(c: char) -> (r: String)
    ensures
        r@ == char_debug(c),
{
    format!("{c:?}")
}

/// A `String` holding exactly the characters `cs`.
pub fn string_of(cs: &[char]) -> (r: String)
    ensures
        r@ == cs@,
{
    let mut r = String::new();
    let mut i: usize = 0;
    while i < cs.len()
        invariant
            i <= cs.len(),
            r@ == cs@.subrange(0, i as int),
        decreases cs.len() - i,
    {
        push_char(&mut r, cs[i]);
        i += 1;
    }
    r
}

} // verus!

verus! {

/// `a`, `b` and `c` concatenated.
pub fn concat3(a: &str, b: &str, c: &str) -> (r: String)
    ensures
        r@ == a@ + b@ + c@,
{
    let mut r = String::from_str(a);
    r.append(b);
    r.append(c);
    r
}

/// `prefix` followed by the characters `rest`.
pub fn prefixed(prefix: &str, rest: &[char]) -> (r: String)
    ensures
        r@ == prefix@ + rest@,
{
    let mut r = String::from_str(prefix);
    let mut i: usize = 0;
    while i < rest.len()
        invariant
            i <= rest.len(),
            r@ == prefix@ + rest@.subrange(0, i as int),
        decreases rest.len() - i,
    {
        push_char(&mut r, rest[i]);
        proof {
            assert(prefix@ + rest@.subrange(0, i + 1) =~= (prefix@ + rest@.subrange(0, i as int)).push(rest@[i as int]));
        }
        i += 1;
    }
    proof {
        assert(rest@.subrange(0, rest@.len() as int) =~= rest@);
    }
    r
}

/// Parts joined by a separator character.
pub open spec fn join_with(parts: Seq<Seq<char>>, sep: char) -> Seq<char>
    decreases parts.len(),
{
    if parts.len() == 0 {
        Seq::empty()
    } else if parts.len() == 1 {
        parts[0]
    } else {
        join_with(parts.drop_last(), sep) + seq![sep] + parts.last()
    }
}

/// Parts joined by `sep`.
pub fn join_chars(parts: &Vec<Vec<char>>, sep: char) -> (r: Vec<char>)
    ensures
        r@ == join_with(crate::parse::views(parts@), sep),
{
    let ghost ps = crate::parse::views(parts@);
    let mut r: Vec<char> = Vec::new();
    let mut k: usize = 0;
    while k < parts.len()
        invariant
            k <= parts@.len(),
            ps == crate::parse::views(parts@),
            r@ == join_with(ps.subrange(0, k as int), sep),
        decreases parts@.len() - k,
    {
        if k > 0 {
            r.push(sep);
        }
        let p = &parts[k];
        let ghost r0 = r@;
        let mut j: usize = 0;
        while j < p.len()
            invariant
                j <= p@.len(),
                r@ == r0 + p@.subrange(0, j as int),
            decreases p@.len() - j,
        {
            r.push(p[j]);
            proof {
                assert(r0 + p@.subrange(0, j + 1) =~= (r0 + p@.subrange(0, j as int)).push(p@[j as int]));
            }
            j += 1;
        }
        proof {
            assert(p@.subrange(0, p@.len() as int) =~= p@);
            let q = ps.subrange(0, k + 1);
            assert(q.drop_last() =~= ps.subrange(0, k as int));
            assert(q.last() == p@);
            if k == 0 {
                assert(r@ =~= join_with(q, sep));
            } else {
                assert(r@ =~= join_with(q, sep));
            }
        }
        k += 1;
    }
    proof {
        assert(ps.subrange(0, ps.len() as int) =~= ps);
    }
    r
}

} // verus!

verus! {

/// Each character sequence as a `String`.
pub fn strings_of(v: &Vec<Vec<char>>) -> (r: Vec<String>)
    ensures
        r@.map_values(|s: String| s@) == crate::parse::views(v@),
{
    let mut r: Vec<String> = Vec::new();
    let mut k: usize = 0;
    while k < v.len()
        invariant
            k <= v@.len(),
            r@.map_values(|s: String| s@) == crate::parse::views(v@).subrange(0, k as int),
        decreases v@.len() - k,
    {
        let s = string_of(&v[k]);
        let ghost prev = r@;
        r.push(s);
        proof {
            assert(r@.map_values(|s: String| s@) =~= prev.map_values(|s: String| s@).push(s@));
            assert(crate::parse::views(v@).subrange(0, k + 1) =~= crate::parse::views(v@).subrange(0, k as int).push(v@[k as int]@));
        }
        k += 1;
    }
    proof {
        assert(crate::parse::views(v@).subrange(0, v@.len() as int) =~= crate::parse::views(v@));
    }
    r
}

} // verus!

verus! {

/// Runs of ASCII letters found so far, and the open run.
pub open spec fn alpha_runs_prefix(cs: Seq<char>, n: int) -> (Seq<Seq<char>>, Seq<char>)
    decreases n,
{
    if n <= 0 {
        (Seq::empty(), Seq::empty())
    } else {
        let (runs, cur) = alpha_runs_prefix(cs, n - 1);
        let c = cs[n - 1];
        if crate::parse::is_ascii_alpha(c) {
            (runs, cur.push(c))
        } else if cur.len() > 0 {
            (runs.push(cur), Seq::empty())
        } else {
            (runs, cur)
        }
    }
}

/// The maximal runs of ASCII letters in `cs`, in order (what
/// `split(|c| !c.is_ascii_alphabetic())` keeps after dropping empty pieces).
pub open spec fn alpha_runs(cs: Seq<char>) -> Seq<Seq<char>> {
    let (runs, cur) = alpha_runs_prefix(cs, cs.len() as int);
    if cur.len() > 0 {
        runs.push(cur)
    } else {
        runs
    }
}

/// The maximal runs of ASCII letters in `cs`.
pub fn latin_runs(cs: &[char]) -> (r: Vec<Vec<char>>)
    ensures
        crate::parse::views(r@) == alpha_runs(cs@),
{
    let mut runs: Vec<Vec<char>> = Vec::new();
    let mut cur: Vec<char> = Vec::new();
    let mut i: usize = 0;
    proof {
        assert(crate::parse::views(runs@) =~= Seq::<Seq<char>>::empty());
    }
    while i < cs.len()
        invariant
            i <= cs@.len(),
            (crate::parse::views(runs@), cur@) == alpha_runs_prefix(cs@, i as int),
        decreases cs@.len() - i,
    {
        let c = cs[i];
        if ('a' <= c && c <= 'z') || ('A' <= c && c <= 'Z') {
            cur.push(c);
        } else if cur.len() > 0 {
            let ghost r0 = crate::parse::views(runs@);
            let done = cur;
            cur = Vec::new();
            runs.push(done);
            proof {
                assert(crate::parse::views(runs@) =~= r0.push(done@));
            }
        }
        i += 1;
    }
    if cur.len() > 0 {
        let ghost r0 = crate::parse::views(runs@);
        let done = cur;
        runs.push(done);
        proof {
            assert(crate::parse::views(runs@) =~= r0.push(done@));
        }
    }
    runs
}

/// The character sequences of strings.
pub open spec fn string_views(v: Seq<String>) -> Seq<Seq<char>> {
    v.map_values(|s: String| s@)
}

/// The pieces of `cs` from index `i` on, `cur` already read into the open
/// piece, split at each non-overlapping occurrence of `sep` read left to
/// right (`str::split` with a string pattern).
pub open spec fn split_from(cs: Seq<char>, sep: Seq<char>, i: int, cur: Seq<char>) -> Seq<Seq<char>>
    decreases cs.len() - i,
{
    if i < 0 || i >= cs.len() || sep.len() == 0 {
        seq![cur]
    } else if i + sep.len() <= cs.len() && cs.subrange(i, i + sep.len()) == sep {
        seq![cur] + split_from(cs, sep, i + sep.len(), Seq::empty())
    } else {
        split_from(cs, sep, i + 1, cur.push(cs[i]))
    }
}

/// `cs` split at each occurrence of `sep`: one more piece than occurrences.
pub open spec fn split_spec(cs: Seq<char>, sep: Seq<char>) -> Seq<Seq<char>> {
    split_from(cs, sep, 0, Seq::empty())
}

pub proof fn lemma_split_from_nonempty(cs: Seq<char>, sep: Seq<char>, i: int, cur: Seq<char>)
    ensures
        split_from(cs, sep, i, cur).len() >= 1,
    decreases cs.len() - i,
{
    if i < 0 || i >= cs.len() || sep.len() == 0 {
    } else if i + sep.len() <= cs.len() && cs.subrange(i, i + sep.len()) == sep {
        lemma_split_from_nonempty(cs, sep, i + sep.len(), Seq::empty());
    } else {
        lemma_split_from_nonempty(cs, sep, i + 1, cur.push(cs[i]));
    }
}

/// Whether `sep` occurs in `cs` at `i`.
fn occurs_at(cs: &[char], sep: &[char], i: usize) -> (r: bool)
    requires
        i <= cs@.len(),
    ensures
        r == (i + sep@.len() <= cs@.len() && cs@.subrange(i as int, i + sep@.len()) == sep@),
{
    let n = cs.len();
    if sep.len() > n - i {
        return false;
    }
    let mut k: usize = 0;
    while k < sep.len()
        invariant
            n == cs@.len(),
            k <= sep@.len(),
            i + sep@.len() <= cs@.len(),
            forall|j: int| 0 <= j < k ==> cs@[i + j] == sep@[j],
        decreases sep@.len() - k,
    {
        if cs[i + k] != sep[k] {
            proof {
                assert(cs@.subrange(i as int, i + sep@.len())[k as int] != sep@[k as int]);
            }
            return false;
        }
        k += 1;
    }
    proof {
        assert(cs@.subrange(i as int, i + sep@.len()) =~= sep@);
    }
    true
}

/// `cs` split at each occurrence of the non-empty `sep`, left to right.
#[verifier::spinoff_prover]
pub fn split_chars(cs: &[char], sep: &[char]) -> (r: Vec<Vec<char>>)
    requires
        sep@.len() > 0,
    ensures
        crate::parse::views(r@) == split_spec(cs@, sep@),
{
    let mut out: Vec<Vec<char>> = Vec::new();
    let mut cur: Vec<char> = Vec::new();
    let mut i: usize = 0;
    proof {
        assert(crate::parse::views(out@) =~= Seq::<Seq<char>>::empty());
        assert(Seq::<Seq<char>>::empty() + split_from(cs@, sep@, 0, Seq::empty()) =~= split_spec(cs@, sep@));
    }
    while i < cs.len()
        invariant
            i <= cs@.len(),
            sep@.len() > 0,
            crate::parse::views(out@) + split_from(cs@, sep@, i as int, cur@) == split_spec(cs@, sep@),
        decreases cs@.len() - i,
    {
        if occurs_at(cs, sep, i) {
            let ghost o0 = crate::parse::views(out@);
            let done = cur;
            out.push(done);
            cur = Vec::new();
            proof {
                assert(crate::parse::views(out@) =~= o0.push(done@));
                assert(o0 + split_from(cs@, sep@, i as int, done@) =~= crate::parse::views(out@) + split_from(
                    cs@,
                    sep@,
                    i + sep@.len(),
                    cur@,
                ));
            }
            i = i + sep.len();
        } else {
            cur.push(cs[i]);
            i += 1;
        }
    }
    let ghost o0 = crate::parse::views(out@);
    let done = cur;
    out.push(done);
    proof {
        assert(crate::parse::views(out@) =~= o0.push(done@));
        assert(o0 + seq![done@] =~= o0.push(done@));
    }
    out
}

/// A line without the carriage return that ended it before its newline.
pub open spec fn strip_cr(l: Seq<char>) -> Seq<char> {
    if l.len() > 0 && l.last() == '\r' {
        l.drop_last()
    } else {
        l
    }
}

/// The lines of `cs` as `str::lines` gives them: split at newlines, a
/// carriage return before a newline dropped, and no empty last line after
/// a final newline.
pub open spec fn lines_spec(cs: Seq<char>) -> Seq<Seq<char>> {
    let ps = split_spec(cs, seq!['\n']);
    let n = ps.len() as int;
    ps.subrange(0, n - 1).map_values(|l: Seq<char>| strip_cr(l)) + if ps[n - 1].len() == 0 {
        Seq::<Seq<char>>::empty()
    } else {
        seq![ps[n - 1]]
    }
}

/// The lines of `cs` (`str::lines`).
#[verifier::spinoff_prover]
pub fn lines_of(cs: &[char]) -> (r: Vec<Vec<char>>)
    ensures
        crate::parse::views(r@) == lines_spec(cs@),
{
    let ps = split_chars(cs, &['\n']);
    let ghost pv = crate::parse::views(ps@);
    proof {
        assert(seq!['\n'] =~= ['\n']@);
        lemma_split_from_nonempty(cs@, seq!['\n'], 0, Seq::empty());
    }
    let n = ps.len();
    let mut out: Vec<Vec<char>> = Vec::new();
    let mut k: usize = 0;
    proof {
        assert(crate::parse::views(out@) =~= Seq::<Seq<char>>::empty());
    }
    while k + 1 < n
        invariant
            n == ps@.len(),
            n >= 1,
            k + 1 <= n,
            pv == crate::parse::views(ps@),
            crate::parse::views(out@) == pv.subrange(0, k as int).map_values(|l: Seq<char>| strip_cr(l)),
        decreases n - k,
    {
        let l = &ps[k];
        let m = l.len();
        let line = if m > 0 && l[m - 1] == '\r' {
            crate::parse::sub_chars(l, 0, m - 1)
        } else {
            crate::parse::sub_chars(l, 0, m)
        };
        proof {
            assert(l@.drop_last() =~= l@.subrange(0, m - 1));
            assert(l@.subrange(0, m as int) =~= l@);
            assert(line@ == strip_cr(pv[k as int]));
        }
        let ghost o0 = crate::parse::views(out@);
        out.push(line);
        proof {
            assert(crate::parse::views(out@) =~= o0.push(line@));
            assert(pv.subrange(0, k + 1).map_values(|l: Seq<char>| strip_cr(l)) =~= pv.subrange(
                0,
                k as int,
            ).map_values(|l: Seq<char>| strip_cr(l)).push(strip_cr(pv[k as int])));
        }
        k += 1;
    }
    let ghost o0 = crate::parse::views(out@);
    let last = &ps[n - 1];
    if last.len() > 0 {
        out.push(crate::parse::copy_chars(last));
        proof {
            assert(crate::parse::views(out@) =~= o0 + seq![pv[n - 1]]);
        }
    } else {
        proof {
            assert(crate::parse::views(out@) =~= o0 + Seq::<Seq<char>>::empty());
        }
    }
    proof {
        assert(split_spec(cs@, seq!['\n']) == pv);
    }
    out
}

/// The lines of `text` (`str::lines`).
pub fn lines(text: &str) -> (r: Vec<String>)
    ensures
        string_views(r@) == lines_spec(text@),
{
    let cs = chars_of(text);
    strings_of(&lines_of(&cs))
}

} // verus!
