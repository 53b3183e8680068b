//! An association table from station key bytes to `Records`, with unique
//! keys, viewed as a `Map<Seq<u8>, RecordsModel>`.
//!
//! One table serves both scopes: chunk-local aggregation keyed by the raw
//! station bytes, and the global map keyed by the decoded station text.

use vstd::prelude::*;
use crate::records::{Records, RecordsModel, spec_update, TEMP_LIMIT};

verus! {

/// The map described by an entry sequence: later entries win, though with
/// unique keys every entry is the only one for its key.
pub open spec fn spec_entries_map(es: Seq<(Vec<u8>, Records)>) -> Map<Seq<u8>, RecordsModel>
    decreases es.len(),
{
    if es.len() == 0 {
        Map::empty()
    } else {
        spec_entries_map(es.drop_last()).insert(es.last().0@, es.last().1@)
    }
}

/// No two entries share a key.
pub open spec fn spec_keys_unique(es: Seq<(Vec<u8>, Records)>) -> bool {
    forall|i: int, j: int| 0 <= i < j < es.len() ==> (#[trigger] es[i]).0@ != (#[trigger] es[j]).0@
}

/// With unique keys, the described map holds exactly the entries: its domain
/// is the key set and each key maps to its entry's summary.
pub proof fn lemma_entries_map_index(es: Seq<(Vec<u8>, Records)>, i: int)
    requires
        spec_keys_unique(es),
        0 <= i < es.len(),
    ensures
        spec_entries_map(es).dom().contains(es[i].0@),
        spec_entries_map(es)[es[i].0@] == es[i].1@,
    decreases es.len(),
{
    if i < es.len() - 1 {
        assert(spec_keys_unique(es.drop_last()));
        assert(es.drop_last()[i] == es[i]);
        lemma_entries_map_index(es.drop_last(), i);
        assert(es[i].0@ != es.last().0@);
    }
}

/// A key held by no entry is outside the described map's domain.
pub proof fn lemma_entries_map_absent(es: Seq<(Vec<u8>, Records)>, k: Seq<u8>)
    requires
        forall|i: int| 0 <= i < es.len() ==> (#[trigger] es[i]).0@ != k,
    ensures
        !spec_entries_map(es).dom().contains(k),
    decreases es.len(),
{
    if es.len() > 0 {
        assert(forall|i: int|
            0 <= i < es.len() - 1 ==> (#[trigger] es.drop_last()[i]).0@ != k);
        lemma_entries_map_absent(es.drop_last(), k);
    }
}

/// Replacing the summary of entry `i` inserts the new summary at its key.
pub proof fn lemma_entries_map_update(es: Seq<(Vec<u8>, Records)>, i: int, r: Records)
    requires
        spec_keys_unique(es),
        0 <= i < es.len(),
    ensures
        spec_entries_map(es.update(i, (es[i].0, r))) == spec_entries_map(es).insert(es[i].0@, r@),
    decreases es.len(),
{
    let es2 = es.update(i, (es[i].0, r));
    if i == es.len() - 1 {
        assert(es2.drop_last() =~= es.drop_last());
        assert(es2.last() == (es[i].0, r));
        assert(spec_entries_map(es2) =~= spec_entries_map(es).insert(es[i].0@, r@));
    } else {
        assert(spec_keys_unique(es.drop_last()));
        assert(es.drop_last()[i] == es[i]);
        lemma_entries_map_update(es.drop_last(), i, r);
        assert(es2.drop_last() =~= es.drop_last().update(i, (es[i].0, r)));
        assert(es2.last() == es.last());
        assert(es[i].0@ != es.last().0@);
        assert(spec_entries_map(es2) =~= spec_entries_map(es).insert(es[i].0@, r@));
    }
}

/// Removing an entry removes exactly its key from the described map.
pub proof fn lemma_entries_map_remove(es: Seq<(Vec<u8>, Records)>, i: int)
    requires
        spec_keys_unique(es),
        0 <= i < es.len(),
    ensures
        spec_entries_map(es.remove(i)) == spec_entries_map(es).remove(es[i].0@),
    decreases es.len(),
{
    let k = es[i].0@;
    if i == es.len() - 1 {
        assert(es.remove(i) =~= es.drop_last());
        assert(forall|j: int| 0 <= j < es.len() - 1 ==> (#[trigger] es.drop_last()[j]).0@ != k);
        lemma_entries_map_absent(es.drop_last(), k);
        assert(spec_entries_map(es.drop_last()) =~= spec_entries_map(es).remove(k));
    } else {
        assert(spec_keys_unique(es.drop_last()));
        assert(es.drop_last()[i] == es[i]);
        lemma_entries_map_remove(es.drop_last(), i);
        assert(es.remove(i).drop_last() =~= es.drop_last().remove(i));
        assert(es.remove(i).last() == es.last());
        assert(es[i].0@ != es.last().0@);
        assert(spec_entries_map(es.remove(i)) =~= spec_entries_map(es).remove(k));
    }
}

/// Appending an entry inserts its key.
pub proof fn lemma_entries_map_push(es: Seq<(Vec<u8>, Records)>, k: Vec<u8>, r: Records)
    ensures
        spec_entries_map(es.push((k, r))) == spec_entries_map(es).insert(k@, r@),
{
    assert(es.push((k, r)).drop_last() =~= es);
}

/// Byte-exact equality of a key candidate and a stored key.
fn bytes_eq(a: &[u8], b: &Vec<u8>) -> (r: bool)
    ensures
        r <==> a@ == b@,
{
    if a.len() != b.len() {
        proof {
            assert(a@ != b@);
        }
        return false;
    }
    let n: usize = a.len();
    let mut i: usize = 0;
    while i < n
        invariant
            i <= n,
            n == a@.len() == b@.len(),
            forall|j: int| 0 <= j < i ==> a@[j] == b@[j],
        decreases n - i,
    {
        if *vstd::slice::slice_index_get(a, i) != b[i] {
            proof {
                assert(a@[i as int] != b@[i as int]);
            }
            return false;
        }
        i = i + 1;
    }
    proof {
        assert(a@ =~= b@);
    }
    true
}

/// Association table from station key bytes to running summaries.
pub struct StationMap {
    pub entries: Vec<(Vec<u8>, Records)>,
}

impl StationMap {
    /// The mapping this table holds.
    pub open spec fn view(&self) -> Map<Seq<u8>, RecordsModel> {
        spec_entries_map(self.entries@)
    }

    /// Unique keys, every summary well-formed.
    pub open spec fn wf(&self) -> bool {
        &&& spec_keys_unique(self.entries@)
        &&& forall|i: int| 0 <= i < self.entries@.len() ==> (#[trigger] self.entries@[i]).1.wf()
    }

    pub fn new() -> (r: StationMap)
        ensures
            r.wf(),
            r@ == Map::<Seq<u8>, RecordsModel>::empty(),
            r.entries@.len() == 0,
    {
        StationMap { entries: Vec::new() }
    }

    pub fn len(&self) -> (n: usize)
        ensures
            n == self.entries@.len(),
    {
        self.entries.len()
    }

    /// The position of `key` in the table, if present; relates the position's
    /// entry to the map view.
    pub fn find(&self, key: &[u8]) -> (r: Option<usize>)
        requires
            self.wf(),
        ensures
            match r {
                Some(i) => {
                    &&& i < self.entries@.len()
                    &&& self.entries@[i as int].0@ == key@
                    &&& self@.dom().contains(key@)
                    &&& self@[key@] == self.entries@[i as int].1@
                },
                None => !self@.dom().contains(key@),
            },
    {
        let n: usize = self.entries.len();
        let mut i: usize = 0;
        while i < n
            invariant
                i <= n,
                n == self.entries@.len(),
                self.wf(),
                forall|j: int| 0 <= j < i ==> (#[trigger] self.entries@[j]).0@ != key@,
            decreases n - i,
        {
            if bytes_eq(key, &self.entries[i].0) {
                proof {
                    lemma_entries_map_index(self.entries@, i as int);
                }
                return Some(i);
            }
            i = i + 1;
        }
        proof {
            lemma_entries_map_absent(self.entries@, key@);
        }
        None
    }

    /// Fold one more observation into the entry at `i`.
    pub fn update_at(&mut self, i: usize, temp: i64)
        requires
            old(self).wf(),
            i < old(self).entries@.len(),
            old(self).entries@[i as int].1.count < u64::MAX,
            -TEMP_LIMIT <= temp <= TEMP_LIMIT,
        ensures
            final(self).wf(),
            final(self)@ == old(self)@.insert(
                old(self).entries@[i as int].0@,
                spec_update(old(self).entries@[i as int].1@, temp as int),
            ),
            final(self).entries@.len() == old(self).entries@.len(),
            forall|j: int|
                0 <= j < old(self).entries@.len() ==> (#[trigger] final(self).entries@[j]).0@
                    == old(self).entries@[j].0@,
            forall|j: int|
                0 <= j < old(self).entries@.len() && j != i as int ==> (
                #[trigger] final(self).entries@[j]).1 == old(self).entries@[j].1,
            final(self).entries@[i as int].1@ == spec_update(
                old(self).entries@[i as int].1@,
                temp as int,
            ),
            final(self).entries@[i as int].1.count == old(self).entries@[i as int].1.count + 1,
    {
        let (k, mut r) = self.entries.remove(i);
        r.update(temp);
        self.entries.insert(i, (k, r));
        proof {
            assert(self.entries@ =~= old(self).entries@.update(
                i as int,
                (old(self).entries@[i as int].0, r),
            ));
            lemma_entries_map_update(old(self).entries@, i as int, r);
        }
    }

    /// Take the entry at `i` out of the table.
    pub fn remove_entry(&mut self, i: usize) -> (e: (Vec<u8>, Records))
        requires
            old(self).wf(),
            i < old(self).entries@.len(),
        ensures
            final(self).wf(),
            e == old(self).entries@[i as int],
            e.1.wf(),
            final(self).entries@.len() == old(self).entries@.len() - 1,
            forall|j: int|
                0 <= j < i as int
                    ==> #[trigger] final(self).entries@[j] == old(self).entries@[j],
            forall|j: int|
                i as int <= j < old(self).entries@.len() - 1
                    ==> #[trigger] final(self).entries@[j] == old(self).entries@[j + 1],
            final(self)@ == old(self)@.remove(old(self).entries@[i as int].0@),
    {
        let e = self.entries.remove(i);
        proof {
            let es0 = old(self).entries@;
            let es1 = self.entries@;
            assert(es1 =~= es0.remove(i as int));
            assert(spec_keys_unique(es1)) by {
                assert forall|a: int, b: int| 0 <= a < b < es1.len() implies (
                #[trigger] es1[a]).0@ != (#[trigger] es1[b]).0@ by {
                    let oa: int = if a < i as int {
                        a
                    } else {
                        a + 1
                    };
                    let ob: int = if b < i as int {
                        b
                    } else {
                        b + 1
                    };
                    assert(es1[a] == es0[oa]);
                    assert(es1[b] == es0[ob]);
                }
            }
            lemma_entries_map_remove(es0, i as int);
        }
        e
    }

    /// Combine another summary into the entry at `i`.
    pub fn merge_at(&mut self, i: usize, other: &Records)
        requires
            old(self).wf(),
            i < old(self).entries@.len(),
            other.wf(),
            old(self).entries@[i as int].1.count as int + other.count as int <= u64::MAX as int,
        ensures
            final(self).wf(),
            final(self)@ == old(self)@.insert(
                old(self).entries@[i as int].0@,
                crate::records::spec_merge(old(self).entries@[i as int].1@, other@),
            ),
            final(self).entries@.len() == old(self).entries@.len(),
            forall|j: int|
                0 <= j < old(self).entries@.len() ==> (#[trigger] final(self).entries@[j]).0@
                    == old(self).entries@[j].0@,
    {
        let (k, mut r) = self.entries.remove(i);
        r.merge(other);
        self.entries.insert(i, (k, r));
        proof {
            assert(self.entries@ =~= old(self).entries@.update(
                i as int,
                (old(self).entries@[i as int].0, r),
            ));
            lemma_entries_map_update(old(self).entries@, i as int, r);
        }
    }

    /// Append a summary under a key the table does not hold.
    pub fn push_pair(&mut self, key: Vec<u8>, rec: Records)
        requires
            old(self).wf(),
            rec.wf(),
            forall|j: int|
                0 <= j < old(self).entries@.len() ==> (#[trigger] old(self).entries@[j]).0@
                    != key@,
        ensures
            final(self).wf(),
            final(self)@ == old(self)@.insert(key@, rec@),
            final(self).entries@ == old(self).entries@.push((key, rec)),
    {
        proof {
            lemma_entries_map_push(old(self).entries@, key, rec);
        }
        self.entries.push((key, rec));
        proof {
            assert(final(self).entries@.drop_last() =~= old(self).entries@);
        }
    }
}

} // verus!
