//! The engine data archive: a flat sequence of records, each a path length
//! (`u32`, little-endian), the path's bytes (UTF-8), a size (`u64`,
//! little-endian), and that many bytes of file content.

use vstd::prelude::*;

verus! {

/// Where one record's path and content lie in the archive.
#[derive(Debug, Clone, Copy, PartialEq, Eq, Structural)]
pub struct Entry {
    pub path_start: usize,
    pub path_end: usize,
    pub data_start: usize,
    pub data_end: usize,
}

/// The little-endian `u32` at `p`.
pub open spec fn le_u32(b: Seq<u8>, p: int) -> int {
    b[p] + 256 * b[p + 1] + 65536 * b[p + 2] + 16777216 * b[p + 3]
}

/// The little-endian `u64` at `p`.
pub open spec fn le_u64(b: Seq<u8>, p: int) -> int {
    le_u32(b, p) + 4294967296 * le_u32(b, p + 4)
}

/// The records from `pos` on, as (path start, path end, data start, data
/// end); `None` when a record runs past the end.
pub open spec fn records_from(b: Seq<u8>, pos: int) -> Option<Seq<(int, int, int, int)>>
    decreases b.len() - pos,
{
    if pos < 0 || pos >= b.len() {
        Some(Seq::empty())
    } else if pos + 4 > b.len() {
        None
    } else {
        let p1 = pos + 4;
        let pl = le_u32(b, pos);
        if pl < 0 || p1 + pl + 8 > b.len() {
            None
        } else {
            let d = p1 + pl + 8;
            let size = le_u64(b, p1 + pl);
            if size < 0 || d + size > b.len() {
                None
            } else {
                match records_from(b, d + size) {
                    None => None,
                    Some(rest) => Some(seq![(p1, p1 + pl, d, d + size)] + rest),
                }
            }
        }
    }
}

/// Every record of the archive lies within it.
pub open spec fn archive_wf(b: Seq<u8>) -> bool {
    records_from(b, 0) is Some
}

pub open spec fn entry_view(e: Entry) -> (int, int, int, int) {
    (e.path_start as int, e.path_end as int, e.data_start as int, e.data_end as int)
}

fn read_u32(b: &[u8], p: usize) -> (r: u64)
    requires
        p + 4 <= b.len(),
    ensures
        r == le_u32(b@, p as int),
{
    b[p] as u64 + 256 * (b[p + 1] as u64) + 65536 * (b[p + 2] as u64) + 16777216 * (b[p + 3] as u64)
}

fn read_u64(b: &[u8], p: usize) -> (r: u128)
    requires
        p + 8 <= b.len(),
    ensures
        r == le_u64(b@, p as int),
{
    let lo = read_u32(b, p);
    let hi = read_u32(b, p + 4);
    lo as u128 + 4294967296 * (hi as u128)
}

/// The records of a well-formed archive, in order.
pub fn entries(blob: &[u8]) -> (r: Vec<Entry>)
    requires
        archive_wf(blob@),
    ensures
        r@.map_values(|e: Entry| entry_view(e)) == records_from(blob@, 0)->0,
{
    let mut out: Vec<Entry> = Vec::new();
    let mut pos: usize = 0;
    let n = blob.len();
    proof {
        assert(out@.map_values(|e: Entry| entry_view(e)) + records_from(blob@, 0)->0 =~= records_from(blob@, 0)->0);
    }
    while pos < n
        invariant
            n == blob@.len(),
            pos <= n,
            records_from(blob@, pos as int) is Some,
            out@.map_values(|e: Entry| entry_view(e)) + records_from(blob@, pos as int)->0 == records_from(blob@, 0)->0,
        decreases n - pos,
    {
        let pl = read_u32(blob, pos);
        let p1 = pos + 4;
        let pe = p1 + pl as usize;
        let size = read_u64(blob, pe);
        let d = pe + 8;
        let e = d + size as usize;
        let ghost o = out@.map_values(|e: Entry| entry_view(e));
        let ghost rest = records_from(blob@, e as int)->0;
        out.push(Entry { path_start: p1, path_end: pe, data_start: d, data_end: e });
        proof {
            assert(out@.map_values(|e: Entry| entry_view(e)) =~= o.push((p1 as int, pe as int, d as int, e as int)));
            assert(records_from(blob@, pos as int)->0 == seq![(p1 as int, pe as int, d as int, e as int)] + rest);
            assert(o.push((p1 as int, pe as int, d as int, e as int)) + rest =~= o + (seq![(p1 as int, pe as int, d as int, e as int)] + rest));
        }
        pos = e;
    }
    proof {
        assert(records_from(blob@, pos as int)->0 =~= Seq::<(int, int, int, int)>::empty());
        assert(out@.map_values(|e: Entry| entry_view(e)) + Seq::<(int, int, int, int)>::empty() =~= out@.map_values(|e: Entry| entry_view(e)));
    }
    out
}


/// Whether every record of the archive lies within it.
pub fn well_formed(blob: &[u8]) -> (r: bool)
    ensures
        r == archive_wf(blob@),
{
    let n = blob.len();
    let mut pos: usize = 0;
    while pos < n
        invariant
            n == blob@.len(),
            pos <= n,
            archive_wf(blob@) == (records_from(blob@, pos as int) is Some),
        decreases n - pos,
    {
        if n - pos < 4 {
            return false;
        }
        let pl = read_u32(blob, pos);
        let p1 = pos + 4;
        if pl as u128 + 8 > (n - p1) as u128 {
            return false;
        }
        let pe = p1 + pl as usize;
        let size = read_u64(blob, pe);
        let d = pe + 8;
        if size > (n - d) as u128 {
            return false;
        }
        pos = d + size as usize;
    }
    true
}

/// The `k` low bytes of `n`, least significant first.
pub open spec fn le_bytes(n: int, k: nat) -> Seq<u8>
    decreases k,
{
    if k == 0 {
        Seq::empty()
    } else {
        seq![(n % 256) as u8] + le_bytes(n / 256, (k - 1) as nat)
    }
}

/// One record as the archive writes it: the path's length as a
/// little-endian `u32`, the path, the content's length as a little-endian
/// `u64`, and the content.
pub open spec fn pack_record(path: Seq<u8>, data: Seq<u8>) -> Seq<u8> {
    le_bytes(path.len() as int, 4) + path + le_bytes(data.len() as int, 8) + data
}

/// An archive of `(path, content)` records, in order.
pub open spec fn pack(rs: Seq<(Seq<u8>, Seq<u8>)>) -> Seq<u8>
    decreases rs.len(),
{
    if rs.len() == 0 {
        Seq::empty()
    } else {
        pack_record(rs[0].0, rs[0].1) + pack(rs.drop_first())
    }
}

/// Where each record of `pack(rs)` placed after `off` bytes lies.
pub open spec fn record_spans(rs: Seq<(Seq<u8>, Seq<u8>)>, off: int) -> Seq<(int, int, int, int)>
    decreases rs.len(),
{
    if rs.len() == 0 {
        Seq::empty()
    } else {
        let pl = rs[0].0.len() as int;
        let dl = rs[0].1.len() as int;
        seq![(off + 4, off + 4 + pl, off + 12 + pl, off + 12 + pl + dl)] + record_spans(
            rs.drop_first(),
            off + 12 + pl + dl,
        )
    }
}

/// Records whose lengths fit their fields.
pub open spec fn records_fit(rs: Seq<(Seq<u8>, Seq<u8>)>) -> bool {
    forall|k: int| 0 <= k < rs.len() ==> (#[trigger] rs[k]).0.len() < 0x1_0000_0000 && rs[k].1.len()
        < 0x1_0000_0000_0000_0000
}

proof fn lemma_le4(n: int, b0: int, b1: int, b2: int, b3: int)
    by (nonlinear_arith)
    requires
        0 <= n,
        b0 == n % 256,
        b1 == (n / 256) % 256,
        b2 == ((n / 256) / 256) % 256,
        b3 == (((n / 256) / 256) / 256) % 256,
    ensures
        b0 + 256 * b1 + 65536 * b2 + 16777216 * b3 == n % 4294967296,
        (((n / 256) / 256) / 256) / 256 == n / 4294967296,
{
}

proof fn lemma_le_bytes4(n: int)
    ensures
        le_bytes(n, 4) == seq![
            (n % 256) as u8,
            ((n / 256) % 256) as u8,
            (((n / 256) / 256) % 256) as u8,
            ((((n / 256) / 256) / 256) % 256) as u8,
        ],
{
    let m = (((n / 256) / 256) / 256) / 256;
    assert(le_bytes(m, 0) == Seq::<u8>::empty());
    assert(le_bytes(((n / 256) / 256) / 256, 1) =~= seq![((((n / 256) / 256) / 256) % 256) as u8]);
    assert(le_bytes((n / 256) / 256, 2) =~= seq![
        (((n / 256) / 256) % 256) as u8,
        ((((n / 256) / 256) / 256) % 256) as u8,
    ]);
    assert(le_bytes(n / 256, 3) =~= seq![
        ((n / 256) % 256) as u8,
        (((n / 256) / 256) % 256) as u8,
        ((((n / 256) / 256) / 256) % 256) as u8,
    ]);
    assert(le_bytes(n, 4) =~= seq![
        (n % 256) as u8,
        ((n / 256) % 256) as u8,
        (((n / 256) / 256) % 256) as u8,
        ((((n / 256) / 256) / 256) % 256) as u8,
    ]);
}

proof fn lemma_read_le4(b: Seq<u8>, p: int, n: int)
    requires
        0 <= n,
        0 <= p,
        p + 4 <= b.len(),
        b.subrange(p, p + 4) == le_bytes(n, 4),
    ensures
        le_u32(b, p) == n % 4294967296,
{
    lemma_le_bytes4(n);
    let q = le_bytes(n, 4);
    assert(b[p] == q[0] && b[p + 1] == q[1] && b[p + 2] == q[2] && b[p + 3] == q[3]) by {
        assert(b.subrange(p, p + 4)[0] == b[p]);
        assert(b.subrange(p, p + 4)[1] == b[p + 1]);
        assert(b.subrange(p, p + 4)[2] == b[p + 2]);
        assert(b.subrange(p, p + 4)[3] == b[p + 3]);
    }
    lemma_le4(n, n % 256, (n / 256) % 256, ((n / 256) / 256) % 256, (((n / 256) / 256) / 256) % 256);
}

proof fn lemma_le8_split(n: int)
    requires
        0 <= n,
    ensures
        le_bytes(n, 8) == le_bytes(n, 4) + le_bytes(n / 4294967296, 4),
{
    lemma_le4(n, n % 256, (n / 256) % 256, ((n / 256) / 256) % 256, (((n / 256) / 256) / 256) % 256);
    let m = (((n / 256) / 256) / 256) / 256;
    assert(le_bytes(n, 8) =~= le_bytes(n, 4) + le_bytes(m, 4)) by {
        assert(le_bytes(n, 8) == seq![(n % 256) as u8] + le_bytes(n / 256, 7));
        assert(le_bytes(n / 256, 7) == seq![((n / 256) % 256) as u8] + le_bytes((n / 256) / 256, 6));
        assert(le_bytes((n / 256) / 256, 6) == seq![(((n / 256) / 256) % 256) as u8] + le_bytes(
            ((n / 256) / 256) / 256,
            5,
        ));
        assert(le_bytes(((n / 256) / 256) / 256, 5) == seq![((((n / 256) / 256) / 256) % 256) as u8]
            + le_bytes(m, 4));
        assert(le_bytes(n, 4) == seq![(n % 256) as u8] + le_bytes(n / 256, 3));
        assert(le_bytes(n / 256, 3) == seq![((n / 256) % 256) as u8] + le_bytes((n / 256) / 256, 2));
        assert(le_bytes((n / 256) / 256, 2) == seq![(((n / 256) / 256) % 256) as u8] + le_bytes(
            ((n / 256) / 256) / 256,
            1,
        ));
        assert(le_bytes(((n / 256) / 256) / 256, 1) == seq![((((n / 256) / 256) / 256) % 256) as u8]
            + le_bytes(m, 0));
    }
}

proof fn lemma_read_le8(b: Seq<u8>, p: int, n: int)
    requires
        0 <= n < 0x1_0000_0000_0000_0000,
        0 <= p,
        p + 8 <= b.len(),
        b.subrange(p, p + 8) == le_bytes(n, 8),
    ensures
        le_u64(b, p) == n,
{
    lemma_le8_split(n);
    lemma_le_bytes_len(n, 4);
    lemma_le_bytes_len(n / 4294967296, 4);
    assert(b.subrange(p, p + 4) =~= le_bytes(n, 8).subrange(0, 4));
    assert(b.subrange(p + 4, p + 8) =~= le_bytes(n, 8).subrange(4, 8));
    assert(le_bytes(n, 8).subrange(0, 4) =~= le_bytes(n, 4));
    assert(le_bytes(n, 8).subrange(4, 8) =~= le_bytes(n / 4294967296, 4));
    lemma_read_le4(b, p, n);
    lemma_read_le4(b, p + 4, n / 4294967296);
    assert(n / 4294967296 < 4294967296) by (nonlinear_arith)
        requires
            0 <= n < 0x1_0000_0000_0000_0000,
    ;
    assert(n % 4294967296 + 4294967296 * (n / 4294967296) == n) by (nonlinear_arith)
        requires
            0 <= n,
    ;
}

proof fn lemma_le_bytes_len(n: int, k: nat)
    ensures
        le_bytes(n, k).len() == k,
    decreases k,
{
    if k > 0 {
        lemma_le_bytes_len(n / 256, (k - 1) as nat);
    }
}

proof fn lemma_first_record(pre: Seq<u8>, path: Seq<u8>, data: Seq<u8>, post: Seq<u8>)
    requires
        path.len() < 0x1_0000_0000,
        data.len() < 0x1_0000_0000_0000_0000,
    ensures
        ({
            let b = pre + pack_record(path, data) + post;
            let pos = pre.len() as int;
            let pl = path.len() as int;
            let dl = data.len() as int;
            &&& pack_record(path, data).len() == 12 + pl + dl
            &&& le_u32(b, pos) == pl
            &&& le_u64(b, pos + 4 + pl) == dl
            &&& b.subrange(pos + 4, pos + 4 + pl) == path
            &&& b.subrange(pos + 12 + pl, pos + 12 + pl + dl) == data
        }),
{
    let b = pre + pack_record(path, data) + post;
    let pos = pre.len() as int;
    let pl = path.len() as int;
    let dl = data.len() as int;
    lemma_le_bytes_len(pl, 4);
    lemma_le_bytes_len(dl, 8);
    assert(b.subrange(pos, pos + 4) =~= le_bytes(pl, 4));
    lemma_read_le4(b, pos, pl);
    assert(b.subrange(pos + 4 + pl, pos + 12 + pl) =~= le_bytes(dl, 8));
    lemma_read_le8(b, pos + 4 + pl, dl);
    assert(b.subrange(pos + 4, pos + 4 + pl) =~= path);
    assert(b.subrange(pos + 12 + pl, pos + 12 + pl + dl) =~= data);
}

proof fn lemma_records_step(b: Seq<u8>, pos: int, pl: int, dl: int)
    requires
        0 <= pos,
        0 <= pl,
        0 <= dl,
        pos + 12 + pl + dl <= b.len(),
        le_u32(b, pos) == pl,
        le_u64(b, pos + 4 + pl) == dl,
    ensures
        records_from(b, pos) == (match records_from(b, pos + 12 + pl + dl) {
            None => None,
            Some(rest) => Some(seq![(pos + 4, pos + 4 + pl, pos + 12 + pl, pos + 12 + pl + dl)] + rest),
        }),
{
}

proof fn lemma_pack_cons(rs: Seq<(Seq<u8>, Seq<u8>)>)
    requires
        rs.len() > 0,
    ensures
        pack(rs) == pack_record(rs[0].0, rs[0].1) + pack(rs.drop_first()),
{
}

proof fn lemma_spans_cons(rs: Seq<(Seq<u8>, Seq<u8>)>, off: int)
    requires
        rs.len() > 0,
    ensures
        record_spans(rs, off) == seq![
            (
                off + 4,
                off + 4 + rs[0].0.len(),
                off + 12 + rs[0].0.len(),
                off + 12 + rs[0].0.len() + rs[0].1.len(),
            ),
        ] + record_spans(rs.drop_first(), off + 12 + rs[0].0.len() + rs[0].1.len()),
{
}

proof fn lemma_fit_rest(rs: Seq<(Seq<u8>, Seq<u8>)>)
    requires
        rs.len() > 0,
        records_fit(rs),
    ensures
        records_fit(rs.drop_first()),
        rs[0].0.len() < 0x1_0000_0000,
        rs[0].1.len() < 0x1_0000_0000_0000_0000,
{
    let rest = rs.drop_first();
    assert forall|k: int| 0 <= k < rest.len() implies (#[trigger] rest[k]).0.len() < 0x1_0000_0000
        && rest[k].1.len() < 0x1_0000_0000_0000_0000 by {
        assert(rest[k] == rs[k + 1]);
    }
}

#[verifier::spinoff_prover]
#[verifier::rlimit(40)]
proof fn lemma_records_of_pack(pre: Seq<u8>, rs: Seq<(Seq<u8>, Seq<u8>)>)
    requires
        records_fit(rs),
    ensures
        records_from(pre + pack(rs), pre.len() as int) == Some(record_spans(rs, pre.len() as int)),
        forall|k: int|
            0 <= k < rs.len() ==> {
                let sp = #[trigger] record_spans(rs, pre.len() as int)[k];
                &&& (pre + pack(rs)).subrange(sp.0, sp.1) == rs[k].0
                &&& (pre + pack(rs)).subrange(sp.2, sp.3) == rs[k].1
            },
        record_spans(rs, pre.len() as int).len() == rs.len(),
    decreases rs.len(),
{
    let b = pre + pack(rs);
    let pos = pre.len() as int;
    if rs.len() == 0 {
        assert(b =~= pre);
    } else {
        let path = rs[0].0;
        let data = rs[0].1;
        let rest = rs.drop_first();
        lemma_fit_rest(rs);
        lemma_pack_cons(rs);
        lemma_spans_cons(rs, pos);
        let pl = path.len() as int;
        let dl = data.len() as int;
        let r = pack_record(path, data);
        let pre2 = pre + r;
        let tail = pack(rest);
        assert(b =~= pre2 + tail);
        assert(pre + r + tail == pre2 + tail);
        lemma_records_of_pack(pre2, rest);
        lemma_first_record(pre, path, data, tail);
        assert(pre2.len() == pos + 12 + pl + dl);
        lemma_records_step(b, pos, pl, dl);
        let tail_spans = record_spans(rest, pre2.len() as int);
        assert(records_from(b, pos) == Some(
            seq![(pos + 4, pos + 4 + pl, pos + 12 + pl, pos + 12 + pl + dl)] + tail_spans,
        ));
        let sps = record_spans(rs, pos);
        assert forall|k: int| 0 <= k < rs.len() implies {
            let sp = #[trigger] record_spans(rs, pos)[k];
            &&& b.subrange(sp.0, sp.1) == rs[k].0
            &&& b.subrange(sp.2, sp.3) == rs[k].1
        } by {
            if k > 0 {
                assert(sps[k] == tail_spans[k - 1]);
                assert(rs[k] == rest[k - 1]);
            }
        }
    }
}

/// Reading an archive gives back the records it was written from: for
/// records whose path and content lengths fit their `u32` and `u64` fields,
/// the archive is well formed, and its `k`-th record's path and content are
/// the `k`-th record's, in order and number.
pub proof fn law_archive_round_trip(rs: Seq<(Seq<u8>, Seq<u8>)>)
    requires
        records_fit(rs),
    ensures
        archive_wf(pack(rs)),
        (records_from(pack(rs), 0)->0).len() == rs.len(),
        forall|k: int|
            0 <= k < rs.len() ==> {
                let sp = #[trigger] (records_from(pack(rs), 0)->0)[k];
                &&& pack(rs).subrange(sp.0, sp.1) == rs[k].0
                &&& pack(rs).subrange(sp.2, sp.3) == rs[k].1
            },
{
    lemma_records_of_pack(Seq::empty(), rs);
    assert(Seq::<u8>::empty() + pack(rs) =~= pack(rs));
}

} // verus!
