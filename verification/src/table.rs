//! Key-to-accumulator table.
//!
//! A [`Table`] maps each distinct key to the accumulator of the values seen
//! for it. Its mathematical value is a [`Map`] from key models to accumulator
//! models; the entries are kept with pairwise-distinct keys, every accumulator
//! well formed and holding at least one value.

use crate::acc::{acc_add, acc_empty, acc_merge, acc_wf, Acc, AccModel, MAX_COUNT};
use crate::key::{KeyModel, StationId};
use vstd::prelude::*;

verus! {

/// The map that a sequence of entries denotes: later entries win, though with
/// distinct keys each key denotes its single entry.
pub open spec fn entries_map<'a>(s: Seq<(StationId<'a>, Acc)>) -> Map<KeyModel, AccModel>
    decreases s.len(),
{
    if s.len() == 0 {
        Map::empty()
    } else {
        entries_map(s.drop_last()).insert(s.last().0@, s.last().1@)
    }
}

/// No two entries share a key.
pub open spec fn distinct_keys<'a>(s: Seq<(StationId<'a>, Acc)>) -> bool {
    forall|i: int, j: int| 0 <= i < j < s.len() ==> s[i].0@ != s[j].0@
}

/// A key is in the map exactly when some entry holds it.
pub proof fn lemma_entries_map_dom<'a>(s: Seq<(StationId<'a>, Acc)>)
    ensures
        forall|k: KeyModel| #[trigger] entries_map(s).contains_key(k) <==> exists|i: int|
            0 <= i < s.len() && (#[trigger] s[i]).0@ == k,
    decreases s.len(),
{
    if s.len() > 0 {
        let t = s.drop_last();
        lemma_entries_map_dom(t);
        assert(forall|i: int| 0 <= i < t.len() ==> #[trigger] t[i] == s[i]);
        assert forall|k: KeyModel| #[trigger] entries_map(s).contains_key(k) implies exists|i: int|
            0 <= i < s.len() && (#[trigger] s[i]).0@ == k by {
            if k == s.last().0@ {
                assert((s[s.len() - 1]).0@ == k);
            } else {
                assert(entries_map(t).contains_key(k));
                let i = choose|i: int| 0 <= i < t.len() && (#[trigger] t[i]).0@ == k;
                assert((s[i]).0@ == k);
            }
        }
        assert forall|k: KeyModel|
            exists|i: int| 0 <= i < s.len() && (#[trigger] s[i]).0@ == k implies #[trigger]
        entries_map(s).contains_key(k) by {
            let i = choose|i: int| 0 <= i < s.len() && (#[trigger] s[i]).0@ == k;
            if i < s.len() - 1 {
                assert((t[i]).0@ == k);
                assert(entries_map(t).contains_key(k));
            }
        }
    }
}

/// With distinct keys, each entry is its key's value in the map.
pub proof fn lemma_entries_map_index<'a>(s: Seq<(StationId<'a>, Acc)>, i: int)
    requires
        distinct_keys(s),
        0 <= i < s.len(),
    ensures
        entries_map(s).contains_key(s[i].0@),
        entries_map(s)[s[i].0@] == s[i].1@,
    decreases s.len(),
{
    lemma_entries_map_dom(s);
    if i < s.len() - 1 {
        lemma_entries_map_index(s.drop_last(), i);
        assert(s.drop_last()[i] == s[i]);
        assert(s[i].0@ != s.last().0@);
    }
}

/// Replacing the accumulator of one entry inserts over its key in the map.
pub proof fn lemma_entries_map_update<'a>(s: Seq<(StationId<'a>, Acc)>, i: int, a: Acc)
    requires
        distinct_keys(s),
        0 <= i < s.len(),
    ensures
        entries_map(s.update(i, (s[i].0, a))) == entries_map(s).insert(s[i].0@, a@),
    decreases s.len(),
{
    let t = s.update(i, (s[i].0, a));
    if i == s.len() - 1 {
        assert(t.drop_last() =~= s.drop_last());
        assert(t.last() == (s[i].0, a));
        assert(entries_map(t) =~= entries_map(s).insert(s[i].0@, a@));
    } else {
        lemma_entries_map_update(s.drop_last(), i, a);
        assert(s.drop_last()[i] == s[i]);
        assert(t.drop_last() =~= s.drop_last().update(i, (s[i].0, a)));
        assert(t.last() == s.last());
        assert(s[i].0@ != s.last().0@);
        assert(entries_map(t) =~= entries_map(s).insert(s[i].0@, a@));
    }
}

/// One record folded into a map: the key's accumulator — fresh if absent —
/// grows by the value.
pub open spec fn map_add(m: Map<KeyModel, AccModel>, k: KeyModel, v: int) -> Map<
    KeyModel,
    AccModel,
> {
    m.insert(
        k,
        acc_add(
            if m.contains_key(k) {
                m[k]
            } else {
                acc_empty()
            },
            v,
        ),
    )
}

/// One whole accumulator folded into a map.
pub open spec fn map_upsert(m: Map<KeyModel, AccModel>, k: KeyModel, a: AccModel) -> Map<
    KeyModel,
    AccModel,
> {
    m.insert(
        k,
        if m.contains_key(k) {
            acc_merge(m[k], a)
        } else {
            a
        },
    )
}

/// Two maps combined: accumulators of shared keys merge componentwise, the
/// rest carry over.
pub open spec fn map_merge(a: Map<KeyModel, AccModel>, b: Map<KeyModel, AccModel>) -> Map<
    KeyModel,
    AccModel,
> {
    Map::new(
        |k: KeyModel| a.contains_key(k) || b.contains_key(k),
        |k: KeyModel|
            if a.contains_key(k) && b.contains_key(k) {
                acc_merge(a[k], b[k])
            } else if b.contains_key(k) {
                b[k]
            } else {
                a[k]
            },
    )
}

/// Every accumulator in the map holds at most `n` values.
pub open spec fn sizes_le(m: Map<KeyModel, AccModel>, n: int) -> bool {
    forall|k: KeyModel| m.contains_key(k) ==> #[trigger] m[k].size <= n
}

/// Folding a record keeps every count within one of its old bound.
pub proof fn lemma_map_add_sizes(m: Map<KeyModel, AccModel>, k: KeyModel, v: int, n: int)
    requires
        sizes_le(m, n),
        n >= 0,
    ensures
        sizes_le(map_add(m, k, v), n + 1),
{
    let r = map_add(m, k, v);
    assert forall|j: KeyModel| r.contains_key(j) implies #[trigger] r[j].size <= n + 1 by {
        if j != k {
            assert(m.contains_key(j));
            assert(m[j].size <= n);
        }
    }
}

/// A table of per-key running statistics.
pub struct Table<'a> {
    pub entries: Vec<(StationId<'a>, Acc)>,
}

impl<'a> View for Table<'a> {
    type V = Map<KeyModel, AccModel>;

    open spec fn view(&self) -> Map<KeyModel, AccModel> {
        entries_map(self.entries@)
    }
}

impl<'a> Table<'a> {
    /// Entries carry distinct keys and well-formed, non-empty accumulators.
    pub open spec fn wf(self) -> bool {
        &&& distinct_keys(self.entries@)
        &&& forall|i: int| 0 <= i < self.entries@.len() ==> acc_wf(
            #[trigger] self.entries@[i].1@,
        ) && self.entries@[i].1@.size >= 1
    }

    /// The empty table.
    pub fn new() -> (r: Self)
        ensures
            r.wf(),
            r@ == Map::<KeyModel, AccModel>::empty(),
            r.entries@.len() == 0,
    {
        Table { entries: Vec::new() }
    }

    /// Folds one record into the table.
    pub fn add_record(&mut self, k: StationId<'a>, v: i16)
        requires
            old(self).wf(),
            sizes_le(old(self)@, MAX_COUNT as int - 1),
        ensures
            final(self).wf(),
            final(self)@ == map_add(old(self)@, k@, v as int),
    {
        proof {
            lemma_entries_map_dom(self.entries@);
        }
        let n = self.entries.len();
        let mut i: usize = 0;
        while i < n
            invariant
                i <= n,
                n == self.entries@.len(),
                self.entries@ == old(self).entries@,
                self.wf(),
                sizes_le(self@, MAX_COUNT as int - 1),
                forall|j: int| 0 <= j < i ==> (#[trigger] self.entries@[j]).0@ != k@,
            decreases n - i,
        {
            let e = self.entries[i];
            if e.0 == k {
                proof {
                    assert(self.entries@[i as int] == e);
                    assert(acc_wf(e.1@) && e.1@.size >= 1);
                    lemma_entries_map_index(self.entries@, i as int);
                    assert(self@[e.0@].size <= MAX_COUNT as int - 1);
                }
                let mut a = e.1;
                a.add_value(v);
                self.entries[i] = (e.0, a);
                proof {
                    lemma_entries_map_update(old(self).entries@, i as int, a);
                    assert(forall|j: int| 0 <= j < self.entries@.len() ==> (
                    #[trigger] self.entries@[j]).0@ == old(self).entries@[j].0@);
                    assert(final(self)@ == map_add(old(self)@, k@, v as int));
                }
                return ;
            }
            i += 1;
        }
        let mut a = Acc::default();
        a.add_value(v);
        self.entries.push((k, a));
        proof {
            assert(self.entries@.drop_last() =~= old(self).entries@);
            assert(self.entries@.last() == (k, a));
            lemma_entries_map_dom(old(self).entries@);
            assert(!old(self)@.contains_key(k@));
            assert(final(self)@ == map_add(old(self)@, k@, v as int));
        }
    }

    /// Folds one whole accumulator into the table.
    fn upsert(&mut self, k: StationId<'a>, acc: Acc)
        requires
            old(self).wf(),
            acc_wf(acc@),
            acc@.size >= 1,
            old(self)@.contains_key(k@) ==> old(self)@[k@].size + acc@.size <= MAX_COUNT as int,
        ensures
            final(self).wf(),
            final(self)@ == map_upsert(old(self)@, k@, acc@),
    {
        proof {
            lemma_entries_map_dom(self.entries@);
        }
        let n = self.entries.len();
        let mut i: usize = 0;
        while i < n
            invariant
                i <= n,
                n == self.entries@.len(),
                self.entries@ == old(self).entries@,
                self.wf(),
                acc_wf(acc@),
                old(self)@.contains_key(k@) ==> old(self)@[k@].size + acc@.size
                    <= MAX_COUNT as int,
                forall|j: int| 0 <= j < i ==> (#[trigger] self.entries@[j]).0@ != k@,
            decreases n - i,
        {
            let e = self.entries[i];
            if e.0 == k {
                proof {
                    assert(self.entries@[i as int] == e);
                    assert(acc_wf(e.1@) && e.1@.size >= 1);
                    lemma_entries_map_index(self.entries@, i as int);
                    assert(self@[e.0@] == e.1@);
                }
                let mut a = e.1;
                a.add_acc(&acc);
                self.entries[i] = (e.0, a);
                proof {
                    lemma_entries_map_update(old(self).entries@, i as int, a);
                    assert(forall|j: int| 0 <= j < self.entries@.len() ==> (
                    #[trigger] self.entries@[j]).0@ == old(self).entries@[j].0@);
                    assert(final(self)@ == map_upsert(old(self)@, k@, acc@));
                }
                return ;
            }
            i += 1;
        }
        self.entries.push((k, acc));
        proof {
            assert(self.entries@.drop_last() =~= old(self).entries@);
            assert(self.entries@.last() == (k, acc));
            lemma_entries_map_dom(old(self).entries@);
            assert(!old(self)@.contains_key(k@));
            assert(final(self)@ == map_upsert(old(self)@, k@, acc@));
        }
    }

    /// Merges another table into this one: shared keys combine componentwise,
    /// new keys carry over.
    pub fn merge(&mut self, other: &Table<'a>)
        requires
            old(self).wf(),
            other.wf(),
            forall|k: KeyModel| old(self)@.contains_key(k) && other@.contains_key(k) ==> old(
                self,
            )@[k].size + (#[trigger] other@[k]).size <= MAX_COUNT as int,
        ensures
            final(self).wf(),
            final(self)@ == map_merge(old(self)@, other@),
    {
        let ghost m0 = old(self)@;
        let ghost os = other.entries@;
        proof {
            lemma_entries_map_dom(os);
            assert(entries_map(os.take(0)) =~= Map::<KeyModel, AccModel>::empty());
            assert(self@ =~= map_merge(m0, entries_map(os.take(0))));
        }
        let n = other.entries.len();
        let mut j: usize = 0;
        while j < n
            invariant
                j <= n,
                n == os.len(),
                os == other.entries@,
                other.wf(),
                self.wf(),
                m0 == old(self)@,
                self@ == map_merge(m0, entries_map(os.take(j as int))),
                forall|k: KeyModel| m0.contains_key(k) && other@.contains_key(k) ==> m0[k].size + (
                #[trigger] other@[k]).size <= MAX_COUNT as int,
            decreases n - j,
        {
            let e = other.entries[j];
            proof {
                assert(os[j as int] == e);
                assert(acc_wf(e.1@) && e.1@.size >= 1);
                lemma_entries_map_index(os, j as int);
                assert(other@[e.0@] == e.1@);
                lemma_entries_map_dom(os.take(j as int));
                assert(forall|i: int| 0 <= i < j ==> #[trigger] os.take(j as int)[i] == os[i]);
                assert(!entries_map(os.take(j as int)).contains_key(e.0@)) by {
                    if entries_map(os.take(j as int)).contains_key(e.0@) {
                        let i = choose|i: int|
                            0 <= i < os.take(j as int).len() && (#[trigger] os.take(
                                j as int,
                            )[i]).0@ == e.0@;
                        assert(os[i].0@ == os[j as int].0@);
                    }
                }
                assert(self@.contains_key(e.0@) ==> self@[e.0@] == m0[e.0@]
                    && m0.contains_key(e.0@));
                if m0.contains_key(e.0@) {
                    assert(m0[e.0@].size + other@[e.0@].size <= MAX_COUNT as int);
                }
            }
            self.upsert(e.0, e.1);
            proof {
                assert(os.take(j as int + 1).drop_last() =~= os.take(j as int));
                assert(os.take(j as int + 1).last() == os[j as int]);
                assert(entries_map(os.take(j as int + 1)) == entries_map(os.take(j as int)).insert(
                    e.0@,
                    e.1@,
                ));
                assert(self@ =~= map_merge(m0, entries_map(os.take(j as int + 1))));
            }
            j += 1;
        }
        proof {
            assert(os.take(n as int) =~= os);
        }
    }

    /// The table's entries, each key decoded to its logical bytes.
    pub fn to_pairs(&self) -> (r: Vec<(Vec<u8>, Acc)>)
        ensures
            r@.len() == self.entries@.len(),
            forall|i: int| 0 <= i < r@.len() ==> (#[trigger] r@[i]).0@ == crate::key::decode_spec(
                self.entries@[i].0@,
            ) && r@[i].1 == self.entries@[i].1,
    {
        let n = self.entries.len();
        let mut out: Vec<(Vec<u8>, Acc)> = Vec::new();
        let mut i: usize = 0;
        while i < n
            invariant
                i <= n,
                n == self.entries@.len(),
                out@.len() == i,
                forall|j: int| 0 <= j < i ==> (#[trigger] out@[j]).0@ == crate::key::decode_spec(
                    self.entries@[j].0@,
                ) && out@[j].1 == self.entries@[j].1,
            decreases n - i,
        {
            let e = &self.entries[i];
            let kb = e.0.as_bytes();
            out.push((kb, e.1));
            i += 1;
        }
        out
    }
}

} // verus!
