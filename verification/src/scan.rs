//! Record scanner.
//!
//! The input is a byte buffer of `key;value` lines. [`scan_spec`] is the
//! mathematical reading of such a buffer: the sequence of (key bytes, scaled
//! value) pairs obtained by repeatedly taking the bytes before the next
//! delimiter as the key and the bytes before the following line terminator as
//! the value. Scanning stops silently at the first fragment with no delimiter
//! or no terminator, so a trailing partial line is dropped. [`Entries`] is the
//! cursor that produces exactly that sequence.

use crate::key::{key_model, StationId};
use crate::parse::{parse_int, parse_spec};
use vstd::prelude::*;

verus! {

/// The record delimiter between key and value.
pub const SEMI: u8 = 59;

/// The line terminator.
pub const LF: u8 = 10;

/// The index of the first occurrence of `c` in `s`, or -1 when there is none.
pub open spec fn find_idx(s: Seq<u8>, c: u8) -> int
    decreases s.len(),
{
    if s.len() == 0 {
        -1
    } else if s[0] == c {
        0
    } else {
        let r = find_idx(s.drop_first(), c);
        if r < 0 {
            -1
        } else {
            r + 1
        }
    }
}

/// What [`find_idx`] returns: -1 exactly when `c` does not occur, otherwise
/// the position of the first occurrence.
pub proof fn lemma_find_idx(s: Seq<u8>, c: u8)
    ensures
        find_idx(s, c) == -1 ==> forall|i: int| 0 <= i < s.len() ==> s[i] != c,
        find_idx(s, c) != -1 ==> 0 <= find_idx(s, c) < s.len() && s[find_idx(s, c)] == c
            && forall|i: int| 0 <= i < find_idx(s, c) ==> s[i] != c,
    decreases s.len(),
{
    if s.len() > 0 && s[0] != c {
        let t = s.drop_first();
        lemma_find_idx(t, c);
        assert(forall|i: int| 1 <= i < s.len() ==> s[i] == #[trigger] t[i - 1]);
        if find_idx(t, c) == -1 {
            assert forall|i: int| 0 <= i < s.len() implies s[i] != c by {
                if i > 0 {
                    assert(t[i - 1] != c);
                }
            }
        } else {
            assert(find_idx(s, c) == find_idx(t, c) + 1);
            assert(s[find_idx(s, c)] == t[find_idx(t, c)]);
            assert forall|i: int| 0 <= i < find_idx(s, c) implies s[i] != c by {
                if i > 0 {
                    assert(t[i - 1] != c);
                }
            }
        }
    }
}

/// A position holding `c` with none before it is what [`find_idx`] returns.
pub proof fn lemma_find_idx_is_first(s: Seq<u8>, c: u8, j: int)
    requires
        0 <= j < s.len(),
        s[j] == c,
        forall|i: int| 0 <= i < j ==> s[i] != c,
    ensures
        find_idx(s, c) == j,
{
    lemma_find_idx(s, c);
}

/// Byte-for-byte equality of two spans.
pub fn bytes_eq(a: &[u8], b: &[u8]) -> (r: bool)
    ensures
        r <==> a@ == b@,
{
    let n = a.len();
    if n != b.len() {
        return false;
    }
    let mut i: usize = 0;
    while i < n
        invariant
            i <= n,
            n == a@.len() == b@.len(),
            forall|j: int| 0 <= j < i ==> a@[j] == b@[j],
        decreases n - i,
    {
        if *vstd::slice::slice_index_get(a, i) != *vstd::slice::slice_index_get(b, i) {
            return false;
        }
        i += 1;
    }
    proof {
        assert(a@ =~= b@);
    }
    true
}

/// Splits a span at the first occurrence of `c`, which itself is kept by
/// neither part; `None` when `c` does not occur.
pub fn split_on<'a>(s: &'a [u8], c: u8) -> (r: Option<(&'a [u8], &'a [u8])>)
    ensures
        r is Some <==> find_idx(s@, c) >= 0,
        r is Some ==> r->Some_0.0@ == s@.subrange(0, find_idx(s@, c)) && r->Some_0.1@
            == s@.subrange(find_idx(s@, c) + 1, s@.len() as int),
{
    let n = s.len();
    let mut i: usize = 0;
    while i < n
        invariant
            i <= n,
            n == s@.len(),
            forall|j: int| 0 <= j < i ==> s@[j] != c,
        decreases n - i,
    {
        if *vstd::slice::slice_index_get(s, i) == c {
            proof {
                lemma_find_idx_is_first(s@, c, i as int);
            }
            let head = vstd::slice::slice_subrange(s, 0, i);
            let tail = vstd::slice::slice_subrange(s, i + 1, n);
            return Some((head, tail));
        }
        i += 1;
    }
    proof {
        lemma_find_idx(s@, c);
    }
    None
}

/// Splits a span just after the first occurrence of `c` at or beyond `from`,
/// the occurrence going with the first part; `None` when `from` is past the
/// end or `c` does not occur there.
pub fn split_on_inclusive_from<'a>(s: &'a [u8], from: usize, c: u8) -> (r: Option<
    (&'a [u8], &'a [u8]),
>)
    ensures
        r is Some <==> from <= s@.len() && find_idx(s@.skip(from as int), c) >= 0,
        r is Some ==> ({
            let i = from + find_idx(s@.skip(from as int), c);
            r->Some_0.0@ == s@.subrange(0, i + 1) && r->Some_0.1@ == s@.subrange(
                i + 1,
                s@.len() as int,
            )
        }),
{
    let n = s.len();
    if from > n {
        return None;
    }
    let ghost suffix = s@.skip(from as int);
    let mut i: usize = from;
    while i < n
        invariant
            from <= i <= n,
            n == s@.len(),
            suffix == s@.skip(from as int),
            forall|j: int| 0 <= j < i - from ==> suffix[j] != c,
        decreases n - i,
    {
        if *vstd::slice::slice_index_get(s, i) == c {
            proof {
                lemma_find_idx_is_first(suffix, c, i - from);
            }
            let head = vstd::slice::slice_subrange(s, 0, i + 1);
            let tail = vstd::slice::slice_subrange(s, i + 1, n);
            return Some((head, tail));
        }
        i += 1;
    }
    proof {
        lemma_find_idx(suffix, c);
    }
    None
}

/// The record sequence of a buffer: each step takes the bytes before the first
/// delimiter as the key and the bytes before the following terminator as the
/// value, and recurses past the terminator; a fragment with neither ends the
/// sequence.
pub open spec fn scan_spec(s: Seq<u8>) -> Seq<(Seq<u8>, int)>
    decreases s.len(),
    via scan_spec_decreases
{
    let i = find_idx(s, SEMI);
    if i < 0 {
        Seq::empty()
    } else {
        let rest = s.subrange(i + 1, s.len() as int);
        let j = find_idx(rest, LF);
        if j < 0 {
            Seq::empty()
        } else {
            seq![(s.subrange(0, i), parse_spec(rest.subrange(0, j)))] + scan_spec(
                rest.subrange(j + 1, rest.len() as int),
            )
        }
    }
}

/// A record takes at least two bytes, so a span holds at most half its length
/// in records.
pub proof fn lemma_scan_len(s: Seq<u8>)
    ensures
        2 * scan_spec(s).len() <= s.len(),
    decreases s.len(),
{
    lemma_find_idx(s, SEMI);
    let i = find_idx(s, SEMI);
    if i >= 0 {
        let rest = s.subrange(i + 1, s.len() as int);
        lemma_find_idx(rest, LF);
        let j = find_idx(rest, LF);
        if j >= 0 {
            lemma_scan_len(rest.subrange(j + 1, rest.len() as int));
        }
    }
}

/// Every scanned value lies within the signed 16-bit range: the positional
/// grammar reads at most three digit weights.
pub proof fn lemma_scan_vals(s: Seq<u8>)
    ensures
        forall|i: int| 0 <= i < scan_spec(s).len() ==> i16::MIN as int <= (#[trigger] scan_spec(
            s,
        )[i]).1 <= i16::MAX as int,
    decreases s.len(),
{
    lemma_find_idx(s, SEMI);
    let i = find_idx(s, SEMI);
    if i >= 0 {
        let rest = s.subrange(i + 1, s.len() as int);
        lemma_find_idx(rest, LF);
        let j = find_idx(rest, LF);
        if j >= 0 {
            let tail = rest.subrange(j + 1, rest.len() as int);
            lemma_scan_vals(tail);
            assert(i16::MIN as int <= parse_spec(rest.subrange(0, j)) <= i16::MAX as int);
            assert(forall|q: int| 0 <= q < scan_spec(tail).len() ==> #[trigger] scan_spec(s)[q
                + 1] == scan_spec(tail)[q]);
        }
    }
}

#[via_fn]
proof fn scan_spec_decreases(s: Seq<u8>) {
    lemma_find_idx(s, SEMI);
    let i = find_idx(s, SEMI);
    if i >= 0 {
        lemma_find_idx(s.subrange(i + 1, s.len() as int), LF);
    }
}

/// A record whose key holds no delimiter and no terminator and whose value
/// holds no terminator: the shape the input format guarantees.
pub open spec fn wf_rec(r: (Seq<u8>, Seq<u8>)) -> bool {
    &&& !r.0.contains(SEMI)
    &&& !r.0.contains(LF)
    &&& !r.1.contains(LF)
}

/// Every record of the sequence is well formed.
pub open spec fn wf_recs(rs: Seq<(Seq<u8>, Seq<u8>)>) -> bool {
    forall|i: int| 0 <= i < rs.len() ==> wf_rec(#[trigger] rs[i])
}

/// One record laid out as input text: key, delimiter, value, terminator.
pub open spec fn encode_rec(r: (Seq<u8>, Seq<u8>)) -> Seq<u8> {
    r.0 + seq![SEMI] + r.1 + seq![LF]
}

/// A sequence of records laid out as input text.
pub open spec fn encode_recs(rs: Seq<(Seq<u8>, Seq<u8>)>) -> Seq<u8>
    decreases rs.len(),
{
    if rs.len() == 0 {
        Seq::empty()
    } else {
        encode_rec(rs.first()) + encode_recs(rs.drop_first())
    }
}

/// The scanned form of a record sequence: each value parsed.
pub open spec fn records_of(rs: Seq<(Seq<u8>, Seq<u8>)>) -> Seq<(Seq<u8>, int)> {
    rs.map_values(|r: (Seq<u8>, Seq<u8>)| (r.0, parse_spec(r.1)))
}

/// Scanning one well-formed record followed by anything yields that record
/// and then the scan of the remainder.
pub proof fn lemma_scan_record(k: Seq<u8>, v: Seq<u8>, rest: Seq<u8>)
    requires
        !k.contains(SEMI),
        !v.contains(LF),
    ensures
        scan_spec(k + seq![SEMI] + v + seq![LF] + rest) == seq![(k, parse_spec(v))] + scan_spec(
            rest,
        ),
{
    let s = k + seq![SEMI] + v + seq![LF] + rest;
    assert(s[k.len() as int] == SEMI);
    assert forall|i: int| 0 <= i < k.len() implies s[i] != SEMI by {
        assert(s[i] == k[i]);
    }
    lemma_find_idx_is_first(s, SEMI, k.len() as int);
    let rest1 = s.subrange(k.len() as int + 1, s.len() as int);
    assert(rest1 =~= v + seq![LF] + rest);
    assert(rest1[v.len() as int] == LF);
    assert forall|i: int| 0 <= i < v.len() implies rest1[i] != LF by {
        assert(rest1[i] == v[i]);
    }
    lemma_find_idx_is_first(rest1, LF, v.len() as int);
    assert(s.subrange(0, k.len() as int) =~= k);
    assert(rest1.subrange(0, v.len() as int) =~= v);
    assert(rest1.subrange(v.len() as int + 1, rest1.len() as int) =~= rest);
    assert(scan_spec(s) == seq![(k, parse_spec(v))] + scan_spec(rest));
}

/// Scanning well-formed records followed by anything yields those records and
/// then the scan of the tail.
pub proof fn lemma_scan_complete(rs: Seq<(Seq<u8>, Seq<u8>)>, tail: Seq<u8>)
    requires
        wf_recs(rs),
    ensures
        scan_spec(encode_recs(rs) + tail) == records_of(rs) + scan_spec(tail),
    decreases rs.len(),
{
    if rs.len() == 0 {
        assert(encode_recs(rs) + tail =~= tail);
        assert(records_of(rs) + scan_spec(tail) =~= scan_spec(tail));
    } else {
        let r0 = rs.first();
        let rest_recs = rs.drop_first();
        assert(wf_rec(rs[0]));
        assert(wf_recs(rest_recs)) by {
            assert(forall|i: int| 0 <= i < rest_recs.len() ==> #[trigger] rest_recs[i] == rs[i
                + 1]);
        }
        lemma_scan_complete(rest_recs, tail);
        lemma_scan_record(r0.0, r0.1, encode_recs(rest_recs) + tail);
        assert(encode_recs(rs) + tail =~= r0.0 + seq![SEMI] + r0.1 + seq![LF] + (encode_recs(
            rest_recs,
        ) + tail));
        assert(records_of(rs) =~= seq![(r0.0, parse_spec(r0.1))] + records_of(rest_recs));
        assert(scan_spec(encode_recs(rs) + tail) =~= records_of(rs) + scan_spec(tail));
    }
}

/// The laid-out text of a record-aligned partition: chunk after chunk.
pub open spec fn encode_chunks(cs: Seq<Seq<(Seq<u8>, Seq<u8>)>>) -> Seq<u8>
    decreases cs.len(),
{
    if cs.len() == 0 {
        Seq::empty()
    } else {
        encode_recs(cs.first()) + encode_chunks(cs.drop_first())
    }
}

/// The concatenation of each chunk's own scan.
pub open spec fn chunk_scans(cs: Seq<Seq<(Seq<u8>, Seq<u8>)>>) -> Seq<(Seq<u8>, int)>
    decreases cs.len(),
{
    if cs.len() == 0 {
        Seq::empty()
    } else {
        scan_spec(encode_recs(cs.first())) + chunk_scans(cs.drop_first())
    }
}

/// Round-trip across a partition: scanning a well-formed buffer in one piece
/// yields, record for record and in order — hence also as a multiset — what
/// scanning it chunk by chunk over any record-aligned partition yields; no
/// record is seen by two chunks or by none.
pub proof fn lemma_scan_partition(cs: Seq<Seq<(Seq<u8>, Seq<u8>)>>)
    requires
        forall|i: int| 0 <= i < cs.len() ==> wf_recs(#[trigger] cs[i]),
    ensures
        scan_spec(encode_chunks(cs)) == chunk_scans(cs),
    decreases cs.len(),
{
    if cs.len() == 0 {
        assert(scan_spec(Seq::empty()) =~= Seq::<(Seq<u8>, int)>::empty());
    } else {
        let c0 = cs.first();
        let rest = cs.drop_first();
        assert(wf_recs(cs[0]));
        assert(forall|i: int| 0 <= i < rest.len() ==> #[trigger] rest[i] == cs[i + 1]);
        lemma_scan_partition(rest);
        lemma_scan_complete(c0, encode_chunks(rest));
        lemma_scan_complete(c0, Seq::empty());
        assert(encode_recs(c0) + Seq::<u8>::empty() =~= encode_recs(c0));
        assert(scan_spec(Seq::empty()) =~= Seq::<(Seq<u8>, int)>::empty());
        assert(scan_spec(encode_recs(c0)) =~= records_of(c0));
        assert(scan_spec(encode_chunks(cs)) =~= chunk_scans(cs));
    }
}

/// In the laid-out text of one well-formed record, the terminator stands at
/// the end and nowhere else.
pub proof fn lemma_encode_rec_lf(r: (Seq<u8>, Seq<u8>))
    requires
        wf_rec(r),
    ensures
        encode_rec(r).len() == r.0.len() + r.1.len() + 2,
        encode_rec(r)[encode_rec(r).len() - 1] == LF,
        forall|q: int| 0 <= q < encode_rec(r).len() - 1 ==> encode_rec(r)[q] != LF,
{
    let e = encode_rec(r);
    let kn = r.0.len() as int;
    assert forall|q: int| 0 <= q < e.len() - 1 implies e[q] != LF by {
        if q < kn {
            assert(e[q] == r.0[q]);
        } else if q == kn {
            assert(e[q] == SEMI);
        } else {
            assert(e[q] == r.1[q - kn - 1]);
        }
    }
}

/// A cut placed just after a terminator of a well-formed buffer falls on a
/// record boundary: the bytes on each side lay out a whole number of records.
pub proof fn lemma_split_alignment(rs: Seq<(Seq<u8>, Seq<u8>)>, p: int)
    requires
        wf_recs(rs),
        0 < p <= encode_recs(rs).len(),
        encode_recs(rs)[p - 1] == LF,
    ensures
        exists|m: int|
            0 <= m <= rs.len() && encode_recs(rs).take(p) == encode_recs(#[trigger] rs.take(m))
                && encode_recs(rs).skip(p) == encode_recs(rs.skip(m)),
    decreases rs.len(),
{
    let e = encode_recs(rs);
    let r0 = rs.first();
    assert(wf_rec(rs[0]));
    let e0 = encode_rec(r0);
    let ln = e0.len() as int;
    let erest = encode_recs(rs.drop_first());
    lemma_encode_rec_lf(r0);
    if p < ln {
        assert(e[p - 1] == e0[p - 1]);
        assert(false);
    } else if p == ln {
        assert(rs.take(1).drop_first() =~= Seq::<(Seq<u8>, Seq<u8>)>::empty());
        assert(rs.take(1).first() == r0);
        assert(encode_recs(rs.take(1).drop_first()) =~= Seq::<u8>::empty());
        assert(encode_recs(rs.take(1)) == encode_rec(rs.take(1).first()) + encode_recs(
            rs.take(1).drop_first(),
        ));
        assert(encode_recs(rs.take(1)) =~= e0);
        assert(e.take(p) =~= e0);
        assert(rs.skip(1) =~= rs.drop_first());
        assert(e.skip(p) =~= erest);
        assert(0 <= 1 <= rs.len() && e.take(p) == encode_recs(rs.take(1)) && e.skip(p)
            == encode_recs(rs.skip(1)));
    } else {
        assert(e[p - 1] == erest[p - 1 - ln]);
        assert(wf_recs(rs.drop_first())) by {
            assert(forall|i: int| 0 <= i < rs.drop_first().len() ==> #[trigger] rs.drop_first()[i]
                == rs[i + 1]);
        }
        lemma_split_alignment(rs.drop_first(), p - ln);
        let m = choose|m: int|
            0 <= m <= rs.drop_first().len() && erest.take(p - ln) == encode_recs(
                #[trigger] rs.drop_first().take(m),
            ) && erest.skip(p - ln) == encode_recs(rs.drop_first().skip(m));
        assert(rs.take(m + 1).first() == r0);
        assert(rs.take(m + 1).drop_first() =~= rs.drop_first().take(m));
        assert(encode_recs(rs.take(m + 1)) == e0 + encode_recs(rs.drop_first().take(m)));
        assert(e.take(p) =~= e0 + erest.take(p - ln));
        assert(e.take(p) == encode_recs(rs.take(m + 1)));
        assert(rs.skip(m + 1) =~= rs.drop_first().skip(m));
        assert(e.skip(p) =~= erest.skip(p - ln));
        assert(0 <= m + 1 <= rs.len() && e.take(p) == encode_recs(rs.take(m + 1)) && e.skip(p)
            == encode_recs(rs.skip(m + 1)));
    }
}

/// Chunk-boundary safety: cutting a well-formed buffer just after a line
/// terminator bisects no record — each side scans to its own records, and
/// together they are exactly the records of the whole buffer.
pub proof fn lemma_cut_after_terminator(rs: Seq<(Seq<u8>, Seq<u8>)>, p: int)
    requires
        wf_recs(rs),
        0 <= p <= encode_recs(rs).len(),
        p == 0 || encode_recs(rs)[p - 1] == LF,
    ensures
        scan_spec(encode_recs(rs)) == scan_spec(encode_recs(rs).take(p)) + scan_spec(
            encode_recs(rs).skip(p),
        ),
{
    let e = encode_recs(rs);
    lemma_scan_complete(rs, Seq::empty());
    assert(e + Seq::<u8>::empty() =~= e);
    assert(scan_spec(Seq::<u8>::empty()) =~= Seq::<(Seq<u8>, int)>::empty());
    if p == 0 {
        assert(e.take(0) =~= Seq::<u8>::empty());
        assert(e.skip(0) =~= e);
    } else {
        lemma_split_alignment(rs, p);
        let m = choose|m: int|
            0 <= m <= rs.len() && e.take(p) == encode_recs(#[trigger] rs.take(m)) && e.skip(p)
                == encode_recs(rs.skip(m));
        assert(wf_recs(rs.take(m))) by {
            assert(forall|i: int| 0 <= i < m ==> #[trigger] rs.take(m)[i] == rs[i]);
        }
        assert(wf_recs(rs.skip(m))) by {
            assert(forall|i: int| 0 <= i < rs.len() - m ==> #[trigger] rs.skip(m)[i] == rs[i + m]);
        }
        lemma_scan_complete(rs.take(m), Seq::empty());
        lemma_scan_complete(rs.skip(m), Seq::empty());
        assert(encode_recs(rs.take(m)) + Seq::<u8>::empty() =~= encode_recs(rs.take(m)));
        assert(encode_recs(rs.skip(m)) + Seq::<u8>::empty() =~= encode_recs(rs.skip(m)));
        assert(records_of(rs) =~= records_of(rs.take(m)) + records_of(rs.skip(m)));
        assert(scan_spec(e.take(p)) + scan_spec(e.skip(p)) =~= records_of(rs.take(m))
            + records_of(rs.skip(m)));
    }
}

/// A cursor over the records of a byte span.
pub struct Entries<'a> {
    pub inner: &'a [u8],
}

impl<'a> Entries<'a> {
    /// Produces the next record — the head of [`scan_spec`] of the remaining
    /// span — and advances past it; `None` exactly when no record is left.
    pub fn next(&mut self) -> (r: Option<(StationId<'a>, i16)>)
        ensures
            r is None ==> scan_spec(old(self).inner@).len() == 0 && final(self).inner@ == old(
                self,
            ).inner@,
            r is Some ==> ({
                let s = old(self).inner@;
                let recs = scan_spec(s);
                let i = find_idx(s, SEMI);
                let j = find_idx(s.subrange(i + 1, s.len() as int), LF);
                &&& recs.len() > 0
                &&& r->Some_0.0@ == key_model(recs[0].0)
                &&& r->Some_0.1 as int == recs[0].1
                &&& final(self).inner@ == s.subrange(i + j + 2, s.len() as int)
                &&& scan_spec(final(self).inner@) == recs.drop_first()
                &&& final(self).inner@.len() < old(self).inner@.len()
            }),
    {
        proof {
            lemma_find_idx(self.inner@, SEMI);
        }
        match split_on(self.inner, SEMI) {
            None => None,
            Some((k, rest)) => {
                proof {
                    lemma_find_idx(rest@, LF);
                }
                match split_on(rest, LF) {
                    None => None,
                    Some((v, rest2)) => {
                        self.inner = rest2;
                        let value = parse_int(v);
                        let id = StationId::from_bytes(k);
                        proof {
                            let s = old(self).inner@;
                            let recs = scan_spec(s);
                            let i = find_idx(s, SEMI);
                            let j = find_idx(s.subrange(i + 1, s.len() as int), LF);
                            assert(recs == seq![(k@, parse_spec(v@))] + scan_spec(rest2@));
                            assert(recs[0] == (k@, parse_spec(v@)));
                            assert(recs.drop_first() =~= scan_spec(rest2@));
                            assert(rest2@ =~= s.subrange(i + j + 2, s.len() as int));
                        }
                        Some((id, value))
                    },
                }
            },
        }
    }
}

} // verus!
