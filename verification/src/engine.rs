//! Chunk partitioner and per-chunk aggregation.
//!
//! [`chunks`] divides a byte buffer into contiguous, non-overlapping spans
//! whose boundaries fall just after a line terminator, so no record straddles
//! two spans: from each target offset the cut is pushed forward to the next
//! terminator, and whatever remains without one becomes the final span.
//! [`aggregate_chunk`] folds every record of one span into a fresh table.

use crate::acc::{AccModel, MAX_COUNT};
use crate::key::{key_model, KeyModel};
use crate::scan::{encode_recs, scan_spec, split_on_inclusive_from, Entries, LF};
use crate::table::{map_add, sizes_le, Table};
use vstd::prelude::*;

verus! {

/// The bytes of a sequence of spans, in order.
pub open spec fn concat_chunks<'a>(cs: Seq<&'a [u8]>) -> Seq<u8>
    decreases cs.len(),
{
    if cs.len() == 0 {
        Seq::empty()
    } else {
        concat_chunks(cs.drop_last()) + cs.last()@
    }
}

/// The views of a sequence of spans.
pub open spec fn views_of<'a>(cs: Seq<&'a [u8]>) -> Seq<Seq<u8>> {
    cs.map_values(|c: &[u8]| c@)
}

/// The record-aligned partition of a buffer at target size `t`: each cut is
/// pushed from the target offset to just after the next line terminator, and
/// a remainder without one becomes the final span whole.
pub open spec fn chunks_spec(s: Seq<u8>, t: int) -> Seq<Seq<u8>>
    decreases s.len(),
    via chunks_spec_decreases
{
    if s.len() == 0 {
        Seq::empty()
    } else {
        let f = if 0 <= t <= s.len() {
            crate::scan::find_idx(s.skip(t), LF)
        } else {
            -1
        };
        if f < 0 {
            seq![s]
        } else {
            seq![s.take(t + f + 1)] + chunks_spec(s.skip(t + f + 1), t)
        }
    }
}

#[via_fn]
proof fn chunks_spec_decreases(s: Seq<u8>, t: int) {
    if s.len() > 0 && 0 <= t <= s.len() {
        crate::scan::lemma_find_idx(s.skip(t), LF);
    }
}

/// A non-final span cut at target `t`: longer than the target, ending with the
/// first line terminator at or after it.
pub open spec fn chunk_ok(c: Seq<u8>, t: int) -> bool {
    &&& c.len() > t
    &&& c[c.len() - 1] == LF
    &&& forall|j: int| t <= j < c.len() - 1 ==> c[j] != LF
}

/// Splits a buffer into record-aligned spans: every span but the last
/// satisfies [`chunk_ok`], no byte is lost or duplicated, and no span is
/// empty.
pub fn chunks<'a>(input: &'a [u8], chunk_size: usize) -> (r: Vec<&'a [u8]>)
    ensures
        views_of(r@) == chunks_spec(input@, chunk_size as int),
        concat_chunks(r@) == input@,
        forall|i: int| 0 <= i < r@.len() ==> (#[trigger] r@[i])@.len() > 0,
        forall|i: int| 0 <= i < r@.len() - 1 ==> chunk_ok((#[trigger] r@[i])@, chunk_size as int),
{
    let mut out: Vec<&'a [u8]> = Vec::new();
    let mut remaining: &'a [u8] = input;
    proof {
        assert(concat_chunks(out@) + remaining@ =~= input@);
        assert(views_of(out@) + chunks_spec(remaining@, chunk_size as int) =~= chunks_spec(
            input@,
            chunk_size as int,
        ));
    }
    while remaining.len() > 0
        invariant
            concat_chunks(out@) + remaining@ == input@,
            views_of(out@) + chunks_spec(remaining@, chunk_size as int) == chunks_spec(
                input@,
                chunk_size as int,
            ),
            forall|i: int| 0 <= i < out@.len() ==> (#[trigger] out@[i])@.len() > 0,
            forall|i: int| 0 <= i < out@.len() ==> chunk_ok((#[trigger] out@[i])@, chunk_size as int)
                || (i == out@.len() - 1 && remaining@.len() == 0),
        decreases remaining@.len(),
    {
        let ghost pre_out = out@;
        let ghost pre_rem = remaining@;
        match split_on_inclusive_from(remaining, chunk_size, LF) {
            Some((chunk, rem)) => {
                proof {
                    let suf = pre_rem.skip(chunk_size as int);
                    crate::scan::lemma_find_idx(suf, LF);
                    let f = crate::scan::find_idx(suf, LF);
                    let i = chunk_size as int + f;
                    assert(chunk@ == pre_rem.subrange(0, i + 1));
                    assert(chunk@[i] == suf[f]);
                    assert(chunk@[chunk@.len() - 1] == LF);
                    assert forall|j: int| chunk_size as int <= j < chunk@.len() - 1 implies chunk@[j]
                        != LF by {
                        assert(chunk@[j] == suf[j - chunk_size as int]);
                    }
                    assert(chunk_ok(chunk@, chunk_size as int));
                }
                out.push(chunk);
                remaining = rem;
                proof {
                    assert(out@.drop_last() =~= pre_out);
                    assert(concat_chunks(out@) + remaining@ =~= concat_chunks(pre_out) + pre_rem);
                    let t = chunk_size as int;
                    let f = crate::scan::find_idx(pre_rem.skip(t), LF);
                    assert(chunk@ =~= pre_rem.take(t + f + 1));
                    assert(remaining@ =~= pre_rem.skip(t + f + 1));
                    assert(chunks_spec(pre_rem, t) == seq![pre_rem.take(t + f + 1)] + chunks_spec(
                        pre_rem.skip(t + f + 1),
                        t,
                    ));
                    assert(views_of(out@) =~= views_of(pre_out).push(chunk@));
                    assert(views_of(out@) + chunks_spec(remaining@, t) =~= views_of(pre_out)
                        + chunks_spec(pre_rem, t));
                }
            },
            None => {
                out.push(remaining);
                let n = remaining.len();
                remaining = vstd::slice::slice_subrange(remaining, n, n);
                proof {
                    assert(out@.drop_last() =~= pre_out);
                    assert(remaining@ =~= Seq::<u8>::empty());
                    assert(concat_chunks(out@) + remaining@ =~= concat_chunks(pre_out) + pre_rem);
                    let t = chunk_size as int;
                    assert(chunks_spec(pre_rem, t) == seq![pre_rem]);
                    assert(chunks_spec(remaining@, t) == Seq::<Seq<u8>>::empty());
                    assert(views_of(out@) =~= views_of(pre_out).push(pre_rem));
                    assert(views_of(out@) + chunks_spec(remaining@, t) =~= views_of(pre_out)
                        + chunks_spec(pre_rem, t));
                }
            },
        }
    }
    proof {
        assert(remaining@.len() == 0);
        assert(concat_chunks(out@) =~= input@);
        assert(chunks_spec(remaining@, chunk_size as int) == Seq::<Seq<u8>>::empty());
        assert(views_of(out@) =~= chunks_spec(input@, chunk_size as int));
    }
    out
}

/// The table of a record sequence, folded record by record.
pub open spec fn table_of(rs: Seq<(Seq<u8>, int)>) -> Map<KeyModel, AccModel>
    decreases rs.len(),
{
    if rs.len() == 0 {
        Map::empty()
    } else {
        map_add(table_of(rs.drop_last()), key_model(rs.last().0), rs.last().1)
    }
}

/// Scans one span and folds every record of it into a fresh table.
pub fn aggregate_chunk<'a>(chunk: &'a [u8]) -> (r: Table<'a>)
    requires
        chunk@.len() <= MAX_COUNT as int,
    ensures
        r.wf(),
        r@ == table_of(scan_spec(chunk@)),
        sizes_le(r@, scan_spec(chunk@).len() as int),
{
    let ghost recs = scan_spec(chunk@);
    proof {
        crate::scan::lemma_scan_len(chunk@);
        assert(recs.take(0) =~= Seq::<(Seq<u8>, int)>::empty());
        assert(recs.skip(0) =~= recs);
    }
    let mut tbl = Table::new();
    let mut ent = Entries { inner: chunk };
    let ghost mut done: int = 0;
    loop
        invariant
            recs == scan_spec(chunk@),
            2 * recs.len() <= chunk@.len() <= MAX_COUNT as int,
            0 <= done <= recs.len(),
            scan_spec(ent.inner@) == recs.skip(done),
            tbl.wf(),
            tbl@ == table_of(recs.take(done)),
            sizes_le(tbl@, done),
        ensures
            done == recs.len(),
        decreases ent.inner@.len(),
    {
        match ent.next() {
            None => {
                proof {
                    assert(recs.skip(done).len() == 0);
                }
                break ;
            },
            Some((k, v)) => {
                proof {
                    assert(recs.skip(done).len() > 0);
                    assert(recs.skip(done)[0] == recs[done]);
                    assert(k@ == key_model(recs[done].0));
                    assert(v as int == recs[done].1);
                    crate::table::lemma_map_add_sizes(tbl@, k@, v as int, done);
                }
                tbl.add_record(k, v);
                proof {
                    assert(recs.take(done + 1).drop_last() =~= recs.take(done));
                    assert(recs.take(done + 1).last() == recs[done]);
                    assert(tbl@ == table_of(recs.take(done + 1)));
                    assert(recs.skip(done + 1) =~= recs.skip(done).drop_first());
                    done = done + 1;
                }
            },
        }
    }
    proof {
        assert(recs.take(done) =~= recs);
    }
    tbl
}

/// Record values within the signed 16-bit range, as every scanned record is.
pub open spec fn vals_ok(rs: Seq<(Seq<u8>, int)>) -> bool {
    forall|i: int| 0 <= i < rs.len() ==> i16::MIN as int <= (#[trigger] rs[i]).1 <= i16::MAX as int
}

/// A table's minima never exceed the value ceiling and its maxima never fall
/// under the value floor.
pub proof fn lemma_table_of_bounds(rs: Seq<(Seq<u8>, int)>)
    requires
        vals_ok(rs),
    ensures
        forall|k: KeyModel| table_of(rs).contains_key(k) ==> (#[trigger] table_of(rs)[k]).min
            <= i16::MAX as int && table_of(rs)[k].max >= i16::MIN as int,
    decreases rs.len(),
{
    if rs.len() > 0 {
        assert(vals_ok(rs.drop_last())) by {
            assert(forall|i: int| 0 <= i < rs.len() - 1 ==> #[trigger] rs.drop_last()[i] == rs[i]);
        }
        lemma_table_of_bounds(rs.drop_last());
        assert(i16::MIN as int <= rs.last().1 <= i16::MAX as int);
        let m = table_of(rs);
        let prev = table_of(rs.drop_last());
        let km = key_model(rs.last().0);
        assert forall|k: KeyModel| m.contains_key(k) implies (#[trigger] m[k]).min
            <= i16::MAX as int && m[k].max >= i16::MIN as int by {
            if k != km {
                assert(prev.contains_key(k));
                assert(prev[k].min <= i16::MAX as int && prev[k].max >= i16::MIN as int);
            }
        }
    }
}

/// Folding a record into the second table commutes with merging: the record's
/// key takes the value either way, every other key is untouched.
proof fn lemma_map_add_merge(
    a: Map<KeyModel, AccModel>,
    b: Map<KeyModel, AccModel>,
    k: KeyModel,
    v: int,
)
    requires
        i16::MIN as int <= v <= i16::MAX as int,
        forall|q: KeyModel| a.contains_key(q) ==> (#[trigger] a[q]).min <= i16::MAX as int
            && a[q].max >= i16::MIN as int,
    ensures
        map_add(crate::table::map_merge(a, b), k, v) == crate::table::map_merge(
            a,
            map_add(b, k, v),
        ),
{
    let lhs = map_add(crate::table::map_merge(a, b), k, v);
    let rhs = crate::table::map_merge(a, map_add(b, k, v));
    assert forall|q: KeyModel| lhs.contains_key(q) implies rhs.contains_key(q) && #[trigger] lhs[q]
        == rhs[q] by {
        if q == k {
            if a.contains_key(k) && !b.contains_key(k) {
                assert(a[k].min <= i16::MAX as int && a[k].max >= i16::MIN as int);
            }
        }
    }
    assert(lhs =~= rhs);
}

/// The table of two record runs in sequence is the merge of their tables: the
/// two-level fold loses nothing and counts nothing twice.
pub proof fn lemma_table_of_append(r1: Seq<(Seq<u8>, int)>, r2: Seq<(Seq<u8>, int)>)
    requires
        vals_ok(r1),
        vals_ok(r2),
    ensures
        table_of(r1 + r2) == crate::table::map_merge(table_of(r1), table_of(r2)),
    decreases r2.len(),
{
    if r2.len() == 0 {
        assert(r1 + r2 =~= r1);
        assert(crate::table::map_merge(table_of(r1), table_of(r2)) =~= table_of(r1));
    } else {
        let r2p = r2.drop_last();
        assert(vals_ok(r2p)) by {
            assert(forall|i: int| 0 <= i < r2p.len() ==> #[trigger] r2p[i] == r2[i]);
        }
        lemma_table_of_append(r1, r2p);
        assert((r1 + r2).drop_last() =~= r1 + r2p);
        assert((r1 + r2).last() == r2.last());
        lemma_table_of_bounds(r1);
        assert(i16::MIN as int <= r2.last().1 <= i16::MAX as int);
        lemma_map_add_merge(table_of(r1), table_of(r2p), key_model(r2.last().0), r2.last().1);
    }
}

/// Per-chunk tables of a record-aligned partition, merged chunk by chunk.
pub open spec fn chunk_tables(cs: Seq<Seq<(Seq<u8>, Seq<u8>)>>) -> Map<KeyModel, AccModel>
    decreases cs.len(),
{
    if cs.len() == 0 {
        Map::empty()
    } else {
        crate::table::map_merge(
            table_of(scan_spec(crate::scan::encode_recs(cs.first()))),
            chunk_tables(cs.drop_first()),
        )
    }
}

/// Two-level aggregation: over any record-aligned partition of a well-formed
/// buffer, the merge of the per-chunk tables is exactly the table of scanning
/// the whole buffer in one piece.
pub proof fn lemma_partition_tables(cs: Seq<Seq<(Seq<u8>, Seq<u8>)>>)
    requires
        forall|i: int| 0 <= i < cs.len() ==> crate::scan::wf_recs(#[trigger] cs[i]),
    ensures
        table_of(scan_spec(crate::scan::encode_chunks(cs))) == chunk_tables(cs),
    decreases cs.len(),
{
    crate::scan::lemma_scan_partition(cs);
    if cs.len() == 0 {
        crate::scan::lemma_find_idx(Seq::empty(), crate::scan::SEMI);
        assert(scan_spec(crate::scan::encode_chunks(cs)) =~= Seq::<(Seq<u8>, int)>::empty());
    } else {
        let c0 = cs.first();
        let rest = cs.drop_first();
        assert(forall|i: int| 0 <= i < rest.len() ==> #[trigger] rest[i] == cs[i + 1]);
        lemma_partition_tables(rest);
        crate::scan::lemma_scan_partition(rest);
        let s0 = scan_spec(crate::scan::encode_recs(c0));
        let srest = crate::scan::chunk_scans(rest);
        assert(crate::scan::chunk_scans(cs) == s0 + srest);
        crate::scan::lemma_scan_vals(crate::scan::encode_recs(c0));
        crate::scan::lemma_scan_vals(crate::scan::encode_chunks(rest));
        assert(vals_ok(srest));
        lemma_table_of_append(s0, srest);
    }
}

/// The empty table is neutral for merging.
proof fn lemma_map_merge_empty(a: Map<KeyModel, AccModel>)
    ensures
        crate::table::map_merge(a, Map::<KeyModel, AccModel>::empty()) == a,
        crate::table::map_merge(Map::<KeyModel, AccModel>::empty(), a) == a,
{
    assert(crate::table::map_merge(a, Map::<KeyModel, AccModel>::empty()) =~= a);
    assert(crate::table::map_merge(Map::<KeyModel, AccModel>::empty(), a) =~= a);
}

/// Merging tables is associative.
proof fn lemma_map_merge_assoc(
    a: Map<KeyModel, AccModel>,
    b: Map<KeyModel, AccModel>,
    c: Map<KeyModel, AccModel>,
)
    ensures
        crate::table::map_merge(crate::table::map_merge(a, b), c) == crate::table::map_merge(
            a,
            crate::table::map_merge(b, c),
        ),
{
    assert(crate::table::map_merge(crate::table::map_merge(a, b), c)
        =~= crate::table::map_merge(a, crate::table::map_merge(b, c)));
}

/// A partition's merged tables, read off the first chunk.
proof fn lemma_pipeline_map_cons(c: Seq<u8>, cs: Seq<Seq<u8>>)
    ensures
        pipeline_map(seq![c] + cs) == crate::table::map_merge(
            table_of(scan_spec(c)),
            pipeline_map(cs),
        ),
    decreases cs.len(),
{
    let tc = table_of(scan_spec(c));
    if cs.len() == 0 {
        assert((seq![c] + cs).drop_last() =~= Seq::<Seq<u8>>::empty());
        assert((seq![c] + cs).last() == c);
        assert(pipeline_map((seq![c] + cs).drop_last()) == Map::<KeyModel, AccModel>::empty());
        assert(pipeline_map(cs) == Map::<KeyModel, AccModel>::empty());
        lemma_map_merge_empty(tc);
    } else {
        assert((seq![c] + cs).drop_last() =~= seq![c] + cs.drop_last());
        assert((seq![c] + cs).last() == cs.last());
        lemma_pipeline_map_cons(c, cs.drop_last());
        lemma_map_merge_assoc(tc, pipeline_map(cs.drop_last()), table_of(scan_spec(cs.last())));
    }
}

/// The whole job in one statement: over a well-formed buffer, the chunked
/// pipeline — partition at record boundaries, scan and fold each chunk, merge
/// the chunk tables — builds exactly the table of scanning the buffer in one
/// piece, whatever the target chunk size.
pub proof fn lemma_run_table_exact(rs: Seq<(Seq<u8>, Seq<u8>)>, t: int)
    requires
        crate::scan::wf_recs(rs),
        t >= 0,
    ensures
        pipeline_map(chunks_spec(encode_recs(rs), t)) == table_of(scan_spec(encode_recs(rs))),
    decreases rs.len(),
{
    let s = encode_recs(rs);
    crate::scan::lemma_scan_complete(rs, Seq::empty());
    assert(s + Seq::<u8>::empty() =~= s);
    if s.len() == 0 {
        assert(crate::scan::find_idx(s, crate::scan::SEMI) == -1);
        assert(scan_spec(s) =~= Seq::<(Seq<u8>, int)>::empty());
        assert(chunks_spec(s, t) == Seq::<Seq<u8>>::empty());
        assert(pipeline_map(chunks_spec(s, t)) == Map::<KeyModel, AccModel>::empty());
        assert(table_of(scan_spec(s)) == Map::<KeyModel, AccModel>::empty());
    } else {
        let f = if t <= s.len() {
            crate::scan::find_idx(s.skip(t), LF)
        } else {
            -1
        };
        if f < 0 {
            assert(chunks_spec(s, t) == seq![s]);
            assert((seq![s]).drop_last() =~= Seq::<Seq<u8>>::empty());
            assert((seq![s]).last() == s);
            assert(pipeline_map((seq![s]).drop_last()) == Map::<KeyModel, AccModel>::empty());
            assert(pipeline_map(seq![s]) == crate::table::map_merge(
                pipeline_map((seq![s]).drop_last()),
                table_of(scan_spec(s)),
            ));
            lemma_map_merge_empty(table_of(scan_spec(s)));
        } else {
            crate::scan::lemma_find_idx(s.skip(t), LF);
            let p = t + f + 1;
            assert(s[p - 1] == s.skip(t)[f]);
            assert(0 < p <= s.len());
            crate::scan::lemma_split_alignment(rs, p);
            let m = choose|m: int|
                0 <= m <= rs.len() && s.take(p) == encode_recs(#[trigger] rs.take(m)) && s.skip(p)
                    == encode_recs(rs.skip(m));
            assert(m >= 1) by {
                if m == 0 {
                    assert(rs.take(0) =~= Seq::<(Seq<u8>, Seq<u8>)>::empty());
                    assert(encode_recs(rs.take(0)).len() == 0);
                }
            }
            assert(crate::scan::wf_recs(rs.skip(m))) by {
                assert(forall|i: int| 0 <= i < rs.len() - m ==> #[trigger] rs.skip(m)[i] == rs[i
                    + m]);
            }
            lemma_run_table_exact(rs.skip(m), t);
            assert(chunks_spec(s, t) == seq![s.take(p)] + chunks_spec(s.skip(p), t));
            lemma_pipeline_map_cons(s.take(p), chunks_spec(s.skip(p), t));
            crate::scan::lemma_cut_after_terminator(rs, p);
            crate::scan::lemma_scan_vals(s.take(p));
            crate::scan::lemma_scan_vals(s.skip(p));
            lemma_table_of_append(scan_spec(s.take(p)), scan_spec(s.skip(p)));
        }
    }
}

/// Accumulator counts add across a merge of two tables.
pub proof fn lemma_map_merge_sizes(
    a: Map<KeyModel, AccModel>,
    b: Map<KeyModel, AccModel>,
    na: int,
    nb: int,
)
    requires
        sizes_le(a, na),
        sizes_le(b, nb),
        na >= 0,
        nb >= 0,
    ensures
        sizes_le(crate::table::map_merge(a, b), na + nb),
{
    let m = crate::table::map_merge(a, b);
    assert forall|k: KeyModel| m.contains_key(k) implies #[trigger] m[k].size <= na + nb by {
        if a.contains_key(k) && b.contains_key(k) {
            assert(a[k].size <= na);
            assert(b[k].size <= nb);
        } else if b.contains_key(k) {
            assert(b[k].size <= nb);
        } else {
            assert(a[k].size <= na);
        }
    }
}

/// A prefix of a partition holds at most as many bytes as the whole.
pub proof fn lemma_concat_prefix_len<'a>(cs: Seq<&'a [u8]>, i: int)
    requires
        0 <= i <= cs.len(),
    ensures
        concat_chunks(cs.take(i)).len() <= concat_chunks(cs).len(),
    decreases cs.len() - i,
{
    if i == cs.len() {
        assert(cs.take(i) =~= cs);
    } else {
        lemma_concat_prefix_len(cs, i + 1);
        assert(cs.take(i + 1).drop_last() =~= cs.take(i));
        assert(cs.take(i + 1).last() == cs[i]);
    }
}

/// The tables of a partition's chunks, each scanned and folded on its own,
/// merged left to right.
pub open spec fn pipeline_map(cs: Seq<Seq<u8>>) -> Map<KeyModel, AccModel>
    decreases cs.len(),
{
    if cs.len() == 0 {
        Map::empty()
    } else {
        crate::table::map_merge(pipeline_map(cs.drop_last()), table_of(scan_spec(cs.last())))
    }
}

/// Aggregates one buffer chunk by chunk: partitions it at record boundaries,
/// scans and folds each chunk into its own table, and merges the chunk tables
/// into one.
pub fn run_table<'a>(input: &'a [u8], chunk_size: usize) -> (r: Table<'a>)
    requires
        input@.len() <= MAX_COUNT as int,
    ensures
        r.wf(),
        r@ == pipeline_map(chunks_spec(input@, chunk_size as int)),
{
    let parts = chunks(input, chunk_size);
    let ghost cs = parts@;
    let mut global: Table = Table::new();
    let n = parts.len();
    let mut i: usize = 0;
    proof {
        assert(concat_chunks(cs.take(0)) =~= Seq::<u8>::empty());
        assert(views_of(cs.take(0)) =~= Seq::<Seq<u8>>::empty());
        assert(global@ =~= pipeline_map(views_of(cs.take(0))));
    }
    while i < n
        invariant
            i <= n,
            n == cs.len(),
            cs == parts@,
            concat_chunks(cs) == input@,
            views_of(cs) == chunks_spec(input@, chunk_size as int),
            input@.len() <= MAX_COUNT as int,
            global.wf(),
            global@ == pipeline_map(views_of(cs.take(i as int))),
            sizes_le(global@, concat_chunks(cs.take(i as int)).len() as int),
        decreases n - i,
    {
        let chunk: &[u8] = parts[i];
        let ghost pre_bound = concat_chunks(cs.take(i as int)).len() as int;
        proof {
            lemma_concat_prefix_len(cs, i as int + 1);
            assert(cs.take(i as int + 1).drop_last() =~= cs.take(i as int));
            assert(cs.take(i as int + 1).last() == cs[i as int]);
            assert(concat_chunks(cs.take(i as int + 1)).len() == pre_bound + chunk@.len());
            crate::scan::lemma_scan_len(chunk@);
        }
        let t = aggregate_chunk(chunk);
        let ghost pre_map = global@;
        proof {
            assert forall|k: KeyModel| pre_map.contains_key(k) && t@.contains_key(k) implies
                pre_map[k].size + (#[trigger] t@[k]).size <= MAX_COUNT as int by {
                assert(pre_map[k].size <= pre_bound);
                assert(t@[k].size <= scan_spec(chunk@).len() as int);
            }
        }
        global.merge(&t);
        proof {
            lemma_map_merge_sizes(
                pre_map,
                t@,
                pre_bound,
                scan_spec(chunk@).len() as int,
            );
            assert(sizes_le(global@, concat_chunks(cs.take(i as int + 1)).len() as int));
            assert(views_of(cs.take(i as int + 1)).drop_last() =~= views_of(cs.take(i as int)));
            assert(views_of(cs.take(i as int + 1)).last() == chunk@);
            assert(global@ == pipeline_map(views_of(cs.take(i as int + 1))));
        }
        i += 1;
    }
    proof {
        assert(views_of(cs.take(n as int)) =~= views_of(cs));
    }
    global
}

/// Runs the whole job on one buffer: partition into record-aligned chunks,
/// scan and fold each chunk into its own table, merge the chunk tables,
/// project every accumulator, sort by key and render the report. The output
/// renders a key-sorted read-out of exactly the input's merged table.
pub fn run_pipeline(input: &[u8], n_chunks: usize) -> (out: Vec<u8>)
    requires
        n_chunks >= 1,
        input@.len() <= MAX_COUNT as int,
    ensures
        exists|rows: Seq<(Seq<u8>, crate::output::Res)>|
            {
                &&& out@ == crate::output::render_spec(rows)
                &&& crate::output::key_sorted(rows)
                &&& crate::output::rows_match(
                    rows,
                    pipeline_map(chunks_spec(input@, input@.len() as int / n_chunks as int)),
                )
            },
{
    let chunk_size = input.len() / n_chunks;
    let global = run_table(input, chunk_size);
    let ghost m = pipeline_map(chunks_spec(input@, chunk_size as int));
    let ghost es = global.entries@;
    let pairs = global.to_pairs();
    let ghost pairsv = pairs@;
    proof {
        assert forall|j: int| 0 <= j < pairs@.len() implies crate::acc::acc_wf(
            (#[trigger] pairs@[j]).1@,
        ) && pairs@[j].1@.size >= 1 by {
            assert(pairs@[j].1 == es[j].1);
        }
    }
    let rows = crate::output::project_rows(pairs);
    let ghost rowsv = rows@;
    let sorted = crate::output::sort_rows(rows);
    let out = crate::output::render_rows(&sorted);
    proof {
        broadcast use vstd::seq_lib::group_to_multiset_ensures;

        let before = crate::output::rows_view(rowsv);
        let after = crate::output::rows_view(sorted@);
        crate::table::lemma_entries_map_dom(es);
        assert(before.len() == es.len());
        assert forall|j: int| 0 <= j < before.len() implies m.contains_key(es[j].0@) && (
        #[trigger] before[j]).0 == crate::key::decode_spec(es[j].0@) && crate::output::res_matches(
            m[es[j].0@],
            before[j].1,
        ) by {
            crate::table::lemma_entries_map_index(es, j);
            assert(before[j] == (rowsv[j].0@, rowsv[j].1));
            assert(rowsv[j].0@ == pairsv[j].0@);
            assert(pairsv[j].0@ == crate::key::decode_spec(es[j].0@));
            assert(pairsv[j].1 == es[j].1);
        }
        assert forall|i: int| 0 <= i < after.len() implies exists|k: KeyModel|
            m.contains_key(k) && (#[trigger] after[i]).0 == crate::key::decode_spec(k)
                && crate::output::res_matches(m[k], after[i].1) by {
            assert(after.contains(after[i]));
            assert(after.to_multiset().count(after[i]) > 0);
            assert(before.to_multiset().count(after[i]) > 0);
            assert(before.contains(after[i]));
            let j = choose|j: int| 0 <= j < before.len() && before[j] == after[i];
            assert(m.contains_key(es[j].0@) && after[i].0 == crate::key::decode_spec(es[j].0@)
                && crate::output::res_matches(m[es[j].0@], after[i].1));
        }
        assert forall|k: KeyModel| #[trigger] m.contains_key(k) implies exists|i: int|
            0 <= i < after.len() && (#[trigger] after[i]).0 == crate::key::decode_spec(k) by {
            let j = choose|j: int| 0 <= j < es.len() && (#[trigger] es[j]).0@ == k;
            assert(before[j].0 == crate::key::decode_spec(k));
            assert(before.contains(before[j]));
            assert(before.to_multiset().count(before[j]) > 0);
            assert(after.to_multiset().count(before[j]) > 0);
            assert(after.contains(before[j]));
            let i = choose|i: int| 0 <= i < after.len() && after[i] == before[j];
            assert(after[i].0 == crate::key::decode_spec(k));
        }
        assert(out@ == crate::output::render_spec(after) && crate::output::key_sorted(after)
            && crate::output::rows_match(after, m));
    }
    out
}

} // verus!
