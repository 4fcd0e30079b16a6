//! Tallies kept apart by a partition key, such as a file's extension.

use crate::tally::{AccountError, Tally};
use crate::text::{clusters_of, text_tally, utf8_decoded};
use vstd::multiset::Multiset;
use vstd::prelude::*;

verus! {

/// The tally kept under `key`, empty when there is none.
pub open spec fn partition_tally(m: Map<Seq<char>, Multiset<u32>>, key: Seq<char>) -> Multiset<
    u32,
> {
    if m.contains_key(key) {
        m[key]
    } else {
        Multiset::empty()
    }
}

/// The partitions after `added` is counted under `key`: a partition exists
/// only once something was counted in it.
pub open spec fn with_added(
    m: Map<Seq<char>, Multiset<u32>>,
    key: Seq<char>,
    added: Multiset<u32>,
) -> Map<Seq<char>, Multiset<u32>> {
    let merged = partition_tally(m, key).add(added);
    if merged.len() == 0 {
        m
    } else {
        m.insert(key, merged)
    }
}

/// One tally per partition key, in the order in which the keys first had
/// something counted.
pub struct Census {
    parts: Vec<(String, Tally)>,
    model: Ghost<Map<Seq<char>, Multiset<u32>>>,
}

impl Census {
    /// The tally of each partition key.
    pub closed spec fn view(&self) -> Map<Seq<char>, Multiset<u32>> {
        self.model@
    }

    /// The partition keys in report order.
    pub closed spec fn keys(&self) -> Seq<Seq<char>> {
        Seq::new(self.parts@.len(), |i: int| self.parts@[i].0@)
    }

    /// Each key is listed once, with a well-formed non-empty tally, and the
    /// listed keys are exactly the partitions.
    pub closed spec fn wf(&self) -> bool {
        &&& forall|i: int, j: int|
            0 <= i < j < self.parts@.len() ==> self.parts@[i].0@ != self.parts@[j].0@
        &&& forall|i: int|
            0 <= i < self.parts@.len() ==> {
                &&& (#[trigger] self.parts@[i]).1.wf()
                &&& self.parts@[i].1@.len() > 0
                &&& self.model@.contains_key(self.parts@[i].0@)
                &&& self.model@[self.parts@[i].0@] == self.parts@[i].1@
            }
        &&& forall|k: Seq<char>| #[trigger]
            self.model@.contains_key(k) ==> exists|i: int|
                0 <= i < self.parts@.len() && #[trigger] self.parts@[i].0@ == k
    }

    /// A census with no partitions.
    pub fn new() -> (r: Census)
        ensures
            r.wf(),
            r@ == Map::<Seq<char>, Multiset<u32>>::empty(),
    {
        Census { parts: Vec::new(), model: Ghost(Map::empty()) }
    }

    /// The keys are exactly the partitions, each listed once.
    pub proof fn lemma_keys(&self)
        requires
            self.wf(),
        ensures
            forall|k: Seq<char>| #[trigger] self@.contains_key(k) <==> self.keys().contains(k),
            forall|i: int, j: int|
                0 <= i < j < self.keys().len() ==> self.keys()[i] != self.keys()[j],
            forall|i: int|
                0 <= i < self.keys().len() ==> #[trigger] self@[self.keys()[i]].len() > 0,
    {
        assert forall|k: Seq<char>| #[trigger] self@.contains_key(k) <==> self.keys().contains(k) by {
            if self@.contains_key(k) {
                let i = choose|i: int| 0 <= i < self.parts@.len() && self.parts@[i].0@ == k;
                assert(self.keys()[i] == k);
            }
            if self.keys().contains(k) {
                let i = choose|i: int| 0 <= i < self.keys().len() && self.keys()[i] == k;
                assert(self.parts@[i].0@ == k);
            }
        }
        assert forall|i: int| 0 <= i < self.keys().len() implies #[trigger] self@[self.keys()[i]].len()
            > 0 by {
            assert(self.parts@[i].0@ == self.keys()[i]);
        }
    }

    /// Number of partitions.
    pub fn partitions(&self) -> (r: usize)
        requires
            self.wf(),
        ensures
            r == self.keys().len(),
    {
        self.parts.len()
    }

    /// The key of the partition at `i`.
    pub fn key_at(&self, i: usize) -> (r: &String)
        requires
            self.wf(),
            i < self.keys().len(),
        ensures
            r@ == self.keys()[i as int],
    {
        &self.parts[i].0
    }

    /// The tally of the partition at `i`.
    pub fn tally_at(&self, i: usize) -> (r: &Tally)
        requires
            self.wf(),
            i < self.keys().len(),
        ensures
            r.wf(),
            r@ == self@[self.keys()[i as int]],
    {
        &self.parts[i].1
    }

    /// Position of the partition `key`, if there is one.
    fn find(&self, key: &String) -> (r: Option<usize>)
        requires
            self.wf(),
        ensures
            match r {
                Some(i) => i < self.parts@.len() && self.parts@[i as int].0@ == key@,
                None => !self@.contains_key(key@),
            },
    {
        let mut i: usize = 0;
        while i < self.parts.len()
            invariant
                self.wf(),
                i <= self.parts@.len(),
                forall|k: int| 0 <= k < i ==> self.parts@[k].0@ != key@,
            decreases self.parts@.len() - i,
        {
            if self.parts[i].0 == *key {
                return Some(i);
            }
            i = i + 1;
        }
        None
    }

    /// Accounts the content of a file under the partition `key`, as
    /// `Tally::account_bytes` does; no other partition changes.
    pub fn account_bytes(&mut self, key: &str, bytes: &[u8]) -> (r: Result<(), AccountError>)
        requires
            old(self).wf(),
        ensures
            final(self).wf(),
            match utf8_decoded(bytes@) {
                None => {
                    &&& r == Err::<(), AccountError>(AccountError::InvalidUtf8)
                    &&& final(self)@ == old(self)@
                },
                Some(t) => if partition_tally(old(self)@, key@).len() + clusters_of(t).len()
                    <= u64::MAX {
                    &&& r == Ok::<(), AccountError>(())
                    &&& final(self)@ == with_added(old(self)@, key@, text_tally(t))
                } else {
                    &&& r == Err::<(), AccountError>(AccountError::TotalOverflow)
                    &&& final(self)@ == old(self)@
                },
            },
    {
        broadcast use vstd::multiset::group_multiset_axioms;

        let owned = key.to_owned();
        let ghost before = self.parts@;
        let ghost m = self.model@;
        match self.find(&owned) {
            Some(i) => {
                let (k, mut t) = self.parts.remove(i);
                assert(t == before[i as int].1);
                let r = t.account_bytes(bytes);
                assert(t@.len() >= before[i as int].1@.len());
                self.parts.insert(i, (k, t));
                assert(self.parts@ == before.update(i as int, (k, t)));
                if r.is_ok() {
                    self.model = Ghost(m.insert(k@, t@));
                }
                proof {
                    assert forall|j: int| 0 <= j < self.parts@.len() && j != i implies #[trigger]
                        self.parts@[j] == before[j] by {}
                    assert forall|k2: Seq<char>| #[trigger]
                        self.model@.contains_key(k2) implies exists|j: int|
                        0 <= j < self.parts@.len() && #[trigger] self.parts@[j].0@ == k2 by {
                        let j = choose|j: int| 0 <= j < before.len() && before[j].0@ == k2;
                        assert(self.parts@[j].0@ == k2);
                    }
                }
                r
            },
            None => {
                let mut t = Tally::new();
                let r = t.account_bytes(bytes);
                if r.is_ok() && t.total_chars() > 0 {
                    self.parts.push((owned, t));
                    self.model = Ghost(m.insert(key@, t@));
                    proof {
                        assert forall|j: int| 0 <= j < before.len() implies #[trigger]
                            self.parts@[j] == before[j] by {}
                        assert forall|k2: Seq<char>| #[trigger]
                            self.model@.contains_key(k2) implies exists|j: int|
                            0 <= j < self.parts@.len() && #[trigger] self.parts@[j].0@ == k2 by {
                            if k2 == key@ {
                                assert(self.parts@[before.len() as int].0@ == k2);
                            } else {
                                let j = choose|j: int| 0 <= j < before.len() && before[j].0@ == k2;
                                assert(self.parts@[j].0@ == k2);
                            }
                        }
                    }
                }
                r
            },
        }
    }
}

} // verus!
