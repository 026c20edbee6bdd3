//! Result projection, sorting and rendering.
//!
//! Each accumulator projects to a [`Res`]: minimum, rounded mean, maximum —
//! all in scaled units, value times ten — and count. Rows of key bytes and
//! results sort byte-lexicographically by key and render one line per key as
//! `key: min/mean/max (count)`, every statistic with one fractional digit.

use crate::acc::{acc_wf, Acc, AccModel};
use crate::scan::LF;
use vstd::multiset::Multiset;
use vstd::prelude::*;
use vstd::relations::{sorted_by, total_ordering};
use vstd::seq_lib::lemma_sorted_unique;

verus! {

/// Final statistics of one key, in scaled units.
#[derive(Clone, Copy, PartialEq, Eq, Structural)]
pub struct Res {
    pub min: i16,
    pub avg: i64,
    pub max: i16,
    pub size: i64,
}

/// The scaled mean: the sum over the count, rounded half away from zero.
pub open spec fn round_div(s: int, c: int) -> int
    recommends
        c >= 1,
{
    if s >= 0 {
        (2 * s + c) / (2 * c)
    } else {
        -((2 * (-s) + c) / (2 * c))
    }
}

/// `r` is the projection of accumulator `a`.
pub open spec fn res_matches(a: AccModel, r: Res) -> bool {
    &&& r.min as int == a.min
    &&& r.max as int == a.max
    &&& r.avg as int == round_div(a.sum, a.size)
    &&& r.size as int == a.size
}

impl Acc {
    /// Projects the running statistics of one key.
    pub fn to_res(&self) -> (r: Res)
        requires
            acc_wf(self@),
            self@.size >= 1,
        ensures
            res_matches(self@, r),
            r.avg != i64::MIN,
            r.size >= 1,
    {
        let c = self.size;
        let neg = self.sum < 0;
        let a: u64 = if neg {
            (-self.sum) as u64
        } else {
            self.sum as u64
        };
        let q: u64 = (2 * a + (c as u64)) / (2 * (c as u64));
        let avg: i64 = if neg {
            -(q as i64)
        } else {
            q as i64
        };
        Res { min: self.min, avg, max: self.max, size: c }
    }
}

/// The decimal digits of a non-negative number.
pub open spec fn dec_spec(n: int) -> Seq<u8>
    recommends
        n >= 0,
    decreases n,
{
    if n < 10 {
        seq![(48 + if n >= 0 { n } else { 0 }) as u8]
    } else {
        dec_spec(n / 10).push((48 + n % 10) as u8)
    }
}

/// Appends the decimal digits of `n`.
pub fn push_dec(out: &mut Vec<u8>, n: u64)
    ensures
        final(out)@ == old(out)@ + dec_spec(n as int),
    decreases n,
{
    if n < 10 {
        out.push(48 + n as u8);
        proof {
            assert(out@ =~= old(out)@ + dec_spec(n as int));
        }
    } else {
        push_dec(out, n / 10);
        out.push(48 + (n % 10) as u8);
        proof {
            assert(out@ =~= old(out)@ + dec_spec(n as int));
        }
    }
}

/// A scaled value rendered with a sign, its whole part, a dot, and one
/// fractional digit.
pub open spec fn fmt_scaled(x: int) -> Seq<u8> {
    let a = if x < 0 {
        -x
    } else {
        x
    };
    (if x < 0 {
        seq![45u8]
    } else {
        Seq::<u8>::empty()
    }) + dec_spec(a / 10) + seq![46u8, (48 + a % 10) as u8]
}

/// Appends a scaled value with one fractional digit.
pub fn push_scaled(out: &mut Vec<u8>, x: i64)
    requires
        x != i64::MIN,
    ensures
        final(out)@ == old(out)@ + fmt_scaled(x as int),
{
    let a: u64 = if x < 0 {
        out.push(45);
        (-x) as u64
    } else {
        x as u64
    };
    push_dec(out, a / 10);
    out.push(46);
    out.push(48 + (a % 10) as u8);
    proof {
        assert(out@ =~= old(out)@ + fmt_scaled(x as int));
    }
}

/// Appends a whole byte span.
pub fn push_bytes(out: &mut Vec<u8>, b: &Vec<u8>)
    ensures
        final(out)@ == old(out)@ + b@,
{
    let n = b.len();
    let mut i: usize = 0;
    while i < n
        invariant
            i <= n,
            n == b@.len(),
            out@ == old(out)@ + b@.take(i as int),
        decreases n - i,
    {
        out.push(b[i]);
        proof {
            assert(old(out)@ + b@.take(i as int) + seq![b@[i as int]] =~= old(out)@ + b@.take(
                i as int + 1,
            ));
        }
        i += 1;
    }
    proof {
        assert(b@.take(n as int) =~= b@);
    }
}

/// One output line: key, `: `, min, `/`, mean, `/`, max, ` (`, count, `)`,
/// and the line terminator.
pub open spec fn line_spec(key: Seq<u8>, r: Res) -> Seq<u8> {
    key + seq![58u8, 32u8] + fmt_scaled(r.min as int) + seq![47u8] + fmt_scaled(r.avg as int)
        + seq![47u8] + fmt_scaled(r.max as int) + seq![32u8, 40u8] + dec_spec(r.size as int)
        + seq![41u8, LF]
}

/// The whole report: one line per row, in row order.
pub open spec fn render_spec(rows: Seq<(Seq<u8>, Res)>) -> Seq<u8>
    decreases rows.len(),
{
    if rows.len() == 0 {
        Seq::empty()
    } else {
        render_spec(rows.drop_last()) + line_spec(rows.last().0, rows.last().1)
    }
}

/// The view of a row sequence: each key as its byte sequence.
pub open spec fn rows_view(s: Seq<(Vec<u8>, Res)>) -> Seq<(Seq<u8>, Res)> {
    s.map_values(|p: (Vec<u8>, Res)| (p.0@, p.1))
}

/// Rows that render without overflow: counts non-negative, means above the
/// integer floor.
pub open spec fn rows_ok(s: Seq<(Vec<u8>, Res)>) -> bool {
    forall|i: int| 0 <= i < s.len() ==> (#[trigger] s[i]).1.size >= 0 && s[i].1.avg != i64::MIN
}

/// Renders every row into one output buffer.
#[verifier::rlimit(100)]
pub fn render_rows(rows: &Vec<(Vec<u8>, Res)>) -> (out: Vec<u8>)
    requires
        rows_ok(rows@),
    ensures
        out@ == render_spec(rows_view(rows@)),
{
    let n = rows.len();
    let mut out: Vec<u8> = Vec::new();
    let mut i: usize = 0;
    proof {
        assert(render_spec(rows_view(rows@.take(0))) =~= Seq::<u8>::empty());
        assert(rows_view(rows@.take(0)) =~= Seq::<(Seq<u8>, Res)>::empty());
    }
    while i < n
        invariant
            i <= n,
            n == rows@.len(),
            rows_ok(rows@),
            out@ == render_spec(rows_view(rows@.take(i as int))),
        decreases n - i,
    {
        let ghost pre = out@;
        let row = &rows[i];
        let r = row.1;
        push_bytes(&mut out, &row.0);
        out.push(58);
        out.push(32);
        push_scaled(&mut out, r.min as i64);
        out.push(47);
        push_scaled(&mut out, r.avg);
        out.push(47);
        push_scaled(&mut out, r.max as i64);
        out.push(32);
        out.push(40);
        push_dec(&mut out, r.size as u64);
        out.push(41);
        out.push(10);
        proof {
            assert(out@ =~= pre + line_spec(rows@[i as int].0@, r));
            let rv = rows_view(rows@.take(i as int + 1));
            assert(rv.drop_last() =~= rows_view(rows@.take(i as int)));
            assert(rv.last() == (rows@[i as int].0@, rows@[i as int].1));
            assert(out@ =~= render_spec(rv));
        }
        i += 1;
    }
    proof {
        assert(rows@.take(n as int) =~= rows@);
    }
    out
}

/// Byte-lexicographic order: a shorter span precedes every extension of it.
pub open spec fn lex_le(a: Seq<u8>, b: Seq<u8>) -> bool
    decreases a.len(),
{
    if a.len() == 0 {
        true
    } else if b.len() == 0 {
        false
    } else if a[0] < b[0] {
        true
    } else if a[0] > b[0] {
        false
    } else {
        lex_le(a.drop_first(), b.drop_first())
    }
}

/// Spans with a common prefix compare as their remainders.
pub proof fn lemma_lex_skip(a: Seq<u8>, b: Seq<u8>, i: int)
    requires
        0 <= i <= a.len(),
        i <= b.len(),
        forall|j: int| 0 <= j < i ==> a[j] == b[j],
    ensures
        lex_le(a, b) == lex_le(a.skip(i), b.skip(i)),
    decreases i,
{
    if i == 0 {
        assert(a.skip(0) =~= a);
        assert(b.skip(0) =~= b);
    } else {
        assert(a[0] == b[0]);
        let a1 = a.drop_first();
        let b1 = b.drop_first();
        assert(forall|j: int| 0 <= j < i - 1 ==> a1[j] == b1[j]);
        lemma_lex_skip(a1, b1, i - 1);
        assert(a1.skip(i - 1) =~= a.skip(i));
        assert(b1.skip(i - 1) =~= b.skip(i));
    }
}

/// The order is transitive.
pub proof fn lemma_lex_trans(a: Seq<u8>, b: Seq<u8>, c: Seq<u8>)
    requires
        lex_le(a, b),
        lex_le(b, c),
    ensures
        lex_le(a, c),
    decreases a.len(),
{
    if a.len() > 0 && b.len() > 0 && c.len() > 0 && a[0] == b[0] && b[0] == c[0] {
        lemma_lex_trans(a.drop_first(), b.drop_first(), c.drop_first());
    }
}

/// The order is antisymmetric.
pub proof fn lemma_lex_antisym(a: Seq<u8>, b: Seq<u8>)
    requires
        lex_le(a, b),
        lex_le(b, a),
    ensures
        a == b,
    decreases a.len(),
{
    if a.len() > 0 && b.len() > 0 && a[0] == b[0] {
        let a1 = a.drop_first();
        let b1 = b.drop_first();
        lemma_lex_antisym(a1, b1);
        assert(a1.len() == b1.len());
        assert(a.len() == b.len());
        assert forall|i: int| 0 <= i < a.len() implies a[i] == b[i] by {
            if i > 0 {
                assert(a1[i - 1] == b1[i - 1]);
                assert(a[i] == a1[i - 1]);
                assert(b[i] == b1[i - 1]);
            }
        }
        assert(a =~= b);
    } else {
        if a.len() == 0 {
            if b.len() > 0 {
                assert(!lex_le(b, a));
            }
        } else if b.len() == 0 {
            assert(!lex_le(a, b));
        } else if a[0] < b[0] {
            assert(!lex_le(b, a));
        } else {
            assert(!lex_le(a, b));
        }
        assert(a =~= b);
    }
}

/// Any two spans compare one way or the other.
pub proof fn lemma_lex_conn(a: Seq<u8>, b: Seq<u8>)
    ensures
        lex_le(a, b) || lex_le(b, a),
    decreases a.len(),
{
    if a.len() > 0 && b.len() > 0 && a[0] == b[0] {
        lemma_lex_conn(a.drop_first(), b.drop_first());
    }
}

/// Byte-lexicographic comparison of two keys.
pub fn bytes_le(a: &Vec<u8>, b: &Vec<u8>) -> (r: bool)
    ensures
        r == lex_le(a@, b@),
{
    let na = a.len();
    let nb = b.len();
    let n = if na < nb {
        na
    } else {
        nb
    };
    let mut i: usize = 0;
    while i < n
        invariant
            i <= n,
            na == a@.len(),
            nb == b@.len(),
            n == if na < nb {
                na
            } else {
                nb
            },
            forall|j: int| 0 <= j < i ==> a@[j] == b@[j],
        decreases n - i,
    {
        let x = a[i];
        let y = b[i];
        if x < y {
            proof {
                lemma_lex_skip(a@, b@, i as int);
            }
            return true;
        }
        if x > y {
            proof {
                lemma_lex_skip(a@, b@, i as int);
            }
            return false;
        }
        i += 1;
    }
    proof {
        lemma_lex_skip(a@, b@, n as int);
    }
    na <= nb
}

/// Rows in byte-lexicographic key order.
pub open spec fn key_sorted(s: Seq<(Seq<u8>, Res)>) -> bool {
    forall|i: int, j: int| 0 <= i < j < s.len() ==> lex_le(#[trigger] s[i].0, #[trigger] s[j].0)
}

/// No two rows share a key.
pub open spec fn distinct_row_keys(s: Seq<(Seq<u8>, Res)>) -> bool {
    forall|i: int, j: int| 0 <= i < j < s.len() ==> (#[trigger] s[i]).0 != (#[trigger] s[j]).0
}

/// Inserting an element anywhere adds it to the sequence's multiset.
pub proof fn lemma_to_multiset_insert<A>(s: Seq<A>, i: int, x: A)
    requires
        0 <= i <= s.len(),
    ensures
        s.insert(i, x).to_multiset() == s.to_multiset().insert(x),
{
    broadcast use vstd::seq_lib::group_to_multiset_ensures;

    let t = s.insert(i, x);
    assert(t.remove(i) =~= s);
    assert(t[i] == x);
    assert(t.remove(i).to_multiset() =~= t.to_multiset().remove(x));
    assert(t.to_multiset().contains(x)) by {
        assert(t.contains(x));
    }
    assert(t.to_multiset() =~= t.to_multiset().remove(x).insert(x));
}

/// Sorts rows by key, byte-lexicographically, keeping exactly the given rows.
pub fn sort_rows(rows: Vec<(Vec<u8>, Res)>) -> (r: Vec<(Vec<u8>, Res)>)
    ensures
        key_sorted(rows_view(r@)),
        rows_view(r@).to_multiset() == rows_view(rows@).to_multiset(),
        rows_ok(rows@) ==> rows_ok(r@),
{
    broadcast use vstd::seq_lib::group_to_multiset_ensures;

    let ghost orig = rows@;
    let mut rest = rows;
    let mut out: Vec<(Vec<u8>, Res)> = Vec::new();
    proof {
        assert(rows_view(out@) =~= Seq::<(Seq<u8>, Res)>::empty());
        assert(rows_view(rest@).to_multiset().add(rows_view(out@).to_multiset()) =~= rows_view(
            orig,
        ).to_multiset()) by {
            assert(rows_view(out@).to_multiset() =~= Multiset::<(Seq<u8>, Res)>::empty());
            assert(rows_view(rest@) =~= rows_view(orig));
        }
    }
    while rest.len() > 0
        invariant
            key_sorted(rows_view(out@)),
            rows_view(rest@).to_multiset().add(rows_view(out@).to_multiset()) == rows_view(
                orig,
            ).to_multiset(),
            rows_ok(orig) ==> rows_ok(rest@) && rows_ok(out@),
        decreases rest@.len(),
    {
        let ghost pre_rest = rest@;
        let ghost pre_out = out@;
        let x = rest.pop().unwrap();
        proof {
            assert(pre_rest.drop_last() =~= rest@);
            assert(rows_view(pre_rest) =~= rows_view(rest@).push((x.0@, x.1)));
            vstd::seq_lib::to_multiset_build(rows_view(rest@), (x.0@, x.1));
            assert(rows_view(pre_rest).to_multiset() =~= rows_view(rest@).to_multiset().insert(
                (x.0@, x.1),
            ));
        }
        let n = out.len();
        let mut p: usize = 0;
        loop
            invariant
                0 <= p <= n,
                n == out@.len(),
                out@ == pre_out,
                forall|j: int| 0 <= j < p ==> lex_le(rows_view(out@)[j].0, x.0@),
            ensures
                0 <= p <= n,
                out@ == pre_out,
                forall|j: int| 0 <= j < p ==> lex_le(rows_view(out@)[j].0, x.0@),
                p < n ==> !lex_le(rows_view(out@)[p as int].0, x.0@),
            decreases n - p,
        {
            if p >= n {
                break ;
            }
            if !bytes_le(&out[p].0, &x.0) {
                proof {
                    assert(rows_view(out@)[p as int].0 == out@[p as int].0@);
                }
                break ;
            }
            proof {
                assert(rows_view(out@)[p as int].0 == out@[p as int].0@);
            }
            p += 1;
        }
        out.insert(p, x);
        proof {
            let xv = (x.0@, x.1);
            assert(out@ =~= pre_out.insert(p as int, x));
            assert(rows_view(out@) =~= rows_view(pre_out).insert(p as int, xv));
            lemma_to_multiset_insert(rows_view(pre_out), p as int, xv);
            let sv = rows_view(out@);
            assert forall|i: int, j: int| 0 <= i < j < sv.len() implies lex_le(
                sv[i].0,
                sv[j].0,
            ) by {
                let ov = rows_view(pre_out);
                if j < p {
                    assert(sv[i] == ov[i] && sv[j] == ov[j]);
                } else if j == p {
                    assert(sv[i] == ov[i]);
                    assert(lex_le(ov[i].0, xv.0));
                } else if i < p {
                    assert(sv[i] == ov[i] && sv[j] == ov[j - 1]);
                } else if i == p {
                    assert(sv[j] == ov[j - 1]);
                    lemma_lex_conn(ov[p as int].0, xv.0);
                    assert(lex_le(xv.0, ov[p as int].0));
                    if j - 1 > p {
                        assert(lex_le(ov[p as int].0, ov[j - 1].0));
                        lemma_lex_trans(xv.0, ov[p as int].0, ov[j - 1].0);
                    }
                } else {
                    assert(sv[i] == ov[i - 1] && sv[j] == ov[j - 1]);
                }
            }
        }
    }
    proof {
        assert(rows_view(rest@).to_multiset() =~= Multiset::<(Seq<u8>, Res)>::empty()) by {
            assert(rows_view(rest@) =~= Seq::<(Seq<u8>, Res)>::empty());
        }
        assert(rows_view(out@).to_multiset() =~= rows_view(orig).to_multiset());
    }
    out
}

/// Projects each (key, accumulator) pair to its result row, in order.
pub fn project_rows(pairs: Vec<(Vec<u8>, Acc)>) -> (r: Vec<(Vec<u8>, Res)>)
    requires
        forall|i: int| 0 <= i < pairs@.len() ==> acc_wf((#[trigger] pairs@[i]).1@)
            && pairs@[i].1@.size >= 1,
    ensures
        r@.len() == pairs@.len(),
        forall|i: int| 0 <= i < r@.len() ==> (#[trigger] r@[i]).0@ == pairs@[i].0@ && res_matches(
            pairs@[i].1@,
            r@[i].1,
        ),
        rows_ok(r@),
{
    let ghost orig = pairs@;
    let mut rest = pairs;
    let mut out: Vec<(Vec<u8>, Res)> = Vec::new();
    while rest.len() > 0
        invariant
            out@.len() + rest@.len() == orig.len(),
            forall|i: int| 0 <= i < rest@.len() ==> #[trigger] rest@[i] == orig[out@.len() + i],
            forall|i: int| 0 <= i < orig.len() ==> acc_wf((#[trigger] orig[i]).1@)
                && orig[i].1@.size >= 1,
            forall|i: int| 0 <= i < out@.len() ==> (#[trigger] out@[i]).0@ == orig[i].0@
                && res_matches(orig[i].1@, out@[i].1) && out@[i].1.size >= 0 && out@[i].1.avg
                != i64::MIN,
        decreases rest@.len(),
    {
        let ghost pre = rest@;
        let p = rest.remove(0);
        proof {
            assert(p == orig[out@.len() as int]);
            assert(forall|i: int| 0 <= i < rest@.len() ==> #[trigger] rest@[i] == pre[i + 1]);
        }
        let res = p.1.to_res();
        out.push((p.0, res));
    }
    out
}

/// The rows are a read-out of the table: every row carries the decoded key
/// and projected result of some entry, and every key of the table appears.
pub open spec fn rows_match(
    rows: Seq<(Seq<u8>, Res)>,
    m: Map<crate::key::KeyModel, AccModel>,
) -> bool {
    &&& forall|i: int| 0 <= i < rows.len() ==> exists|k: crate::key::KeyModel|
        m.contains_key(k) && (#[trigger] rows[i]).0 == crate::key::decode_spec(k) && res_matches(
            m[k],
            rows[i].1,
        )
    &&& forall|k: crate::key::KeyModel| #[trigger] m.contains_key(k) ==> exists|i: int|
        0 <= i < rows.len() && (#[trigger] rows[i]).0 == crate::key::decode_spec(k)
}

/// Order on equal-key rows: by the result fields, each one an integer.
pub open spec fn res_le(x: Res, y: Res) -> bool {
    if x.min != y.min {
        x.min < y.min
    } else if x.avg != y.avg {
        x.avg < y.avg
    } else if x.max != y.max {
        x.max < y.max
    } else {
        x.size <= y.size
    }
}

/// A total order on rows: by key, ties broken by the result fields.
pub open spec fn row_le(x: (Seq<u8>, Res), y: (Seq<u8>, Res)) -> bool {
    if x.0 == y.0 {
        res_le(x.1, y.1)
    } else {
        lex_le(x.0, y.0)
    }
}

/// Determinism of the report: two key-sorted row sequences with pairwise
/// distinct keys that hold the same rows are one and the same, so the rendered
/// report does not depend on the order in which the table was read out or the
/// order in which workers finished.
pub proof fn lemma_report_deterministic(r1: Seq<(Seq<u8>, Res)>, r2: Seq<(Seq<u8>, Res)>)
    requires
        key_sorted(r1),
        key_sorted(r2),
        distinct_row_keys(r1),
        distinct_row_keys(r2),
        r1.to_multiset() == r2.to_multiset(),
    ensures
        r1 == r2,
        render_spec(r1) == render_spec(r2),
{
    let leq = |x: (Seq<u8>, Res), y: (Seq<u8>, Res)| row_le(x, y);
    assert forall|x: (Seq<u8>, Res)| #[trigger] leq(x, x) by {}
    assert forall|x: (Seq<u8>, Res), y: (Seq<u8>, Res)| #[trigger] leq(x, y) && #[trigger] leq(
        y,
        x,
    ) implies x == y by {
        if x.0 == y.0 {
            assert(x.1 == y.1);
            assert(x =~= y);
        } else {
            lemma_lex_antisym(x.0, y.0);
        }
    }
    assert forall|x: (Seq<u8>, Res), y: (Seq<u8>, Res), z: (Seq<u8>, Res)|
        #[trigger] leq(x, y) && #[trigger] leq(y, z) implies leq(x, z) by {
        if x.0 == y.0 && y.0 == z.0 {
        } else if x.0 == y.0 {
        } else if y.0 == z.0 {
        } else {
            lemma_lex_trans(x.0, y.0, z.0);
            if x.0 == z.0 {
                lemma_lex_antisym(x.0, y.0);
            }
        }
    }
    assert forall|x: (Seq<u8>, Res), y: (Seq<u8>, Res)| #[trigger] leq(x, y) || #[trigger] leq(
        y,
        x,
    ) by {
        if x.0 != y.0 {
            lemma_lex_conn(x.0, y.0);
        }
    }
    assert(total_ordering(leq));
    assert(sorted_by(r1, leq)) by {
        assert forall|i: int, j: int| 0 <= i < j < r1.len() implies leq(r1[i], r1[j]) by {
            assert(lex_le(r1[i].0, r1[j].0));
            assert(r1[i].0 != r1[j].0);
        }
    }
    assert(sorted_by(r2, leq)) by {
        assert forall|i: int, j: int| 0 <= i < j < r2.len() implies leq(r2[i], r2[j]) by {
            assert(lex_le(r2[i].0, r2[j].0));
            assert(r2[i].0 != r2[j].0);
        }
    }
    lemma_sorted_unique(r1, r2, leq);
}

} // verus!
