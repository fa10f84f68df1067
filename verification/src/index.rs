//! The in-memory index: from each live key to the place of its latest record.

use vstd::prelude::*;
use vstd::hash_map::StringHashMap;
use crate::log::{IndexView, TransactionPosition};

verus! {

/// A map from keys to places that can also be walked key by key.
///
/// The places live in a hash map with string keys, `StringHashMap`, which
/// offers lookup, insertion and removal but no way to visit its entries. So
/// the keys are kept a second time in a list, each once, in which compaction
/// walks them.
pub struct Index {
    map: StringHashMap<TransactionPosition>,
    keys: Vec<String>,
}

impl View for Index {
    type V = IndexView;

    /// The map from keys to places.
    closed spec fn view(&self) -> IndexView {
        self.map@
    }
}

impl Index {
    /// The keys in the order in which they are walked.
    pub closed spec fn key_seq(&self) -> Seq<Seq<char>> {
        Seq::new(self.keys@.len(), |i: int| self.keys@[i]@)
    }

    /// Every key of the map stands in the list exactly once, and the list
    /// holds nothing else.
    pub open spec fn wf(&self) -> bool {
        &&& forall|i: int, j: int|
            0 <= i < j < self.key_seq().len() ==> self.key_seq()[i] != self.key_seq()[j]
        &&& forall|i: int|
            0 <= i < self.key_seq().len() ==> #[trigger] self@.contains_key(self.key_seq()[i])
        &&& forall|key: Seq<char>| #[trigger]
            self@.contains_key(key) ==> self.key_seq().contains(key)
    }

    /// An index without entries.
    pub fn new() -> (index: Index)
        ensures
            index.wf(),
            index@ == Map::<Seq<char>, TransactionPosition>::empty(),
            index.key_seq().len() == 0,
    {
        Index { map: StringHashMap::new(), keys: Vec::new() }
    }

    /// The place that `key` points at.
    pub fn get(&self, key: &String) -> (found: Option<TransactionPosition>)
        ensures
            found == if self@.contains_key(key@) {
                Some(self@[key@])
            } else {
                None
            },
    {
        match self.map.get(key.as_str()) {
            Some(at) => Some(*at),
            None => None,
        }
    }

    /// Points `key` at `at`. A key that is new comes last in the walk; the
    /// others keep their turn.
    pub fn insert(&mut self, key: String, at: TransactionPosition)
        requires
            old(self).wf(),
        ensures
            final(self).wf(),
            final(self)@ == old(self)@.insert(key@, at),
            final(self).key_seq() == if old(self)@.contains_key(key@) {
                old(self).key_seq()
            } else {
                old(self).key_seq().push(key@)
            },
    {
        let ghost before = self.key_seq();
        if !self.map.contains_key(key.as_str()) {
            self.keys.push(key.clone());
            assert(self.key_seq() =~= before.push(key@));
            assert(!before.contains(key@)) by {
                if before.contains(key@) {
                    let j = choose|j: int| 0 <= j < before.len() && before[j] == key@;
                    assert(old(self)@.contains_key(before[j]));
                }
            }
        } else {
            assert(self.key_seq() =~= before);
        }
        self.map.insert(key, at);
        assert forall|k: Seq<char>| #[trigger] self@.contains_key(k) implies self.key_seq().contains(
            k,
        ) by {
            if k == key@ {
                if old(self)@.contains_key(key@) {
                    assert(before.contains(k));
                } else {
                    assert(self.key_seq()[before.len() as int] == k);
                }
            } else {
                assert(old(self)@.contains_key(k));
                assert(before.contains(k));
                let i = choose|i: int| 0 <= i < before.len() && before[i] == k;
                assert(self.key_seq()[i] == k);
            }
        }
    }

    /// Takes `key` out and gives the place it pointed at. The keys that stay
    /// keep their order in the walk.
    pub fn remove(&mut self, key: &String) -> (found: Option<TransactionPosition>)
        requires
            old(self).wf(),
        ensures
            final(self).wf(),
            final(self)@ == old(self)@.remove(key@),
            found == if old(self)@.contains_key(key@) {
                Some(old(self)@[key@])
            } else {
                None
            },
            final(self).key_seq() == if old(self)@.contains_key(key@) {
                old(self).key_seq().remove(old(self).key_seq().index_of(key@))
            } else {
                old(self).key_seq()
            },
    {
        let found = self.get(key);
        if found.is_none() {
            assert(self@.remove(key@) =~= self@);
            return None;
        }
        let ghost before = self.key_seq();
        assert(before.contains(key@));
        let mut i: usize = 0;
        while i < self.keys.len() && !string_eq(&self.keys[i], key)
            invariant
                i <= self.keys.len(),
                self.key_seq() == before,
                forall|j: int| 0 <= j < i ==> before[j] != key@,
                before.contains(key@),
            decreases self.keys.len() - i,
        {
            i = i + 1;
        }
        assert(i < self.keys.len()) by {
            let j = choose|j: int| 0 <= j < before.len() && before[j] == key@;
            assert(before[j] == key@);
        }
        assert(before[i as int] == key@);
        assert(before.index_of(key@) == i) by {
            let found = before.index_of(key@);
            assert(0 <= found < before.len() && before[found] == key@);
            if found < i {
                assert(before[found] != before[i as int]);
            } else if found > i {
                assert(before[i as int] != before[found]);
            }
        }
        self.keys.remove(i);
        self.map.remove(key.as_str());
        let ghost after = self.key_seq();
        assert(after =~= before.remove(i as int));
        assert forall|k: Seq<char>| #[trigger] self@.contains_key(k) implies after.contains(
            k,
        ) by {
            assert(old(self)@.contains_key(k));
            assert(before.contains(k));
            let j = choose|j: int| 0 <= j < before.len() && before[j] == k;
            if j < i {
                assert(after[j] == k);
            } else {
                assert(after[j - 1] == k);
            }
        }
        assert forall|a: int| 0 <= a < after.len() implies #[trigger] self@.contains_key(
            after[a],
        ) by {
            if a < i {
                assert(after[a] == before[a]);
                assert(old(self)@.contains_key(before[a]));
                assert(before[a] != before[i as int]);
            } else {
                assert(after[a] == before[a + 1]);
                assert(old(self)@.contains_key(before[a + 1]));
                assert(before[i as int] != before[a + 1]);
            }
        }
        found
    }

    /// How many keys the index holds.
    pub fn len(&self) -> (n: usize)
        ensures
            n == self.key_seq().len(),
    {
        self.keys.len()
    }

    /// The key whose turn in the walk is `i`.
    pub fn key(&self, i: usize) -> (key: &String)
        requires
            i < self.key_seq().len(),
        ensures
            key@ == self.key_seq()[i as int],
    {
        &self.keys[i]
    }
}

/// Whether two strings hold the same text.
fn string_eq(a: &String, b: &String) -> (same: bool)
    ensures
        same == (a@ == b@),
{
    *a == *b
}

} // verus!
