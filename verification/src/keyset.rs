//! Sets of keys: the neighbours of a node under one label.

use crate::key::Key;
use std::collections::HashSet;
use vstd::prelude::*;
use vstd::std_specs::iter::IteratorSpec;

verus! {

broadcast use vstd::std_specs::hash::group_hash_axioms;

/// A finite set of keys. Its view is the set of their identifiers.
#[derive(Debug)]
pub struct KeySet {
    ids: HashSet<u64>,
}

impl View for KeySet {
    type V = Set<u64>;

    closed spec fn view(&self) -> Set<u64> {
        self.ids@
    }
}

/// The identifiers of the keys of `keys`.
pub open spec fn ids_of(keys: Seq<Key>) -> Set<u64> {
    Set::new(|id: u64| exists|i: int| 0 <= i < keys.len() && #[trigger] keys[i]@ == id)
}

/// How often the key with identifier `id` comes in `keys`.
pub open spec fn occurrences(keys: Seq<Key>, id: u64) -> nat
    decreases keys.len(),
{
    if keys.len() == 0 {
        0
    } else {
        occurrences(keys.drop_last(), id) + if keys.last()@ == id {
            1nat
        } else {
            0nat
        }
    }
}

/// A key comes in two lists put together as often as in the one and in the
/// other together.
pub proof fn lemma_occurrences_add(front: Seq<Key>, back: Seq<Key>, id: u64)
    ensures
        occurrences(front + back, id) == occurrences(front, id) + occurrences(back, id),
    decreases back.len(),
{
    if back.len() == 0 {
        assert(front + back == front);
    } else {
        lemma_occurrences_add(front, back.drop_last(), id);
        assert((front + back).drop_last() == front + back.drop_last());
        assert((front + back).last() == back.last());
    }
}

/// In a list without a repeated key, a key comes once or not at all.
pub proof fn lemma_occurrences_distinct(keys: Seq<Key>, id: u64)
    requires
        forall|i: int, j: int| 0 <= i < j < keys.len() ==> keys[i]@ != keys[j]@,
    ensures
        occurrences(keys, id) == if ids_of(keys).contains(id) {
            1nat
        } else {
            0nat
        },
    decreases keys.len(),
{
    if keys.len() > 0 {
        let front = keys.drop_last();
        lemma_occurrences_distinct(front, id);
        if ids_of(front).contains(id) {
            let i = choose|i: int| 0 <= i < front.len() && #[trigger] front[i]@ == id;
            assert(keys[i]@ == id);
            assert(keys[i]@ != keys[keys.len() - 1]@);
        }
        if keys.last()@ == id {
            assert(keys[keys.len() - 1]@ == id);
        }
        if ids_of(keys).contains(id) && keys.last()@ != id {
            let i = choose|i: int| 0 <= i < keys.len() && #[trigger] keys[i]@ == id;
            assert(front[i]@ == id);
        }
    }
}

impl KeySet {
    /// The empty set.
    pub fn new() -> (res: KeySet)
        ensures
            res@ == Set::<u64>::empty(),
    {
        KeySet { ids: HashSet::new() }
    }

    /// A set of keys is finite.
    pub proof fn lemma_finite(&self)
        ensures
            self@.finite(),
    {
        let all = vstd::std_specs::hash::spec_hash_keys_iter(&self.ids).remaining().unref();
        vstd::seq_lib::seq_to_set_is_finite(all);
    }

    /// Whether `key` is in the set.
    pub fn contains(&self, key: &Key) -> (res: bool)
        ensures
            res == self@.contains(key@),
    {
        let id = key.id();
        self.ids.contains(&id)
    }

    /// The number of keys in the set.
    pub fn len(&self) -> (res: usize)
        ensures
            self@.finite(),
            res == self@.len(),
    {
        proof {
            self.lemma_finite();
        }
        self.ids.len()
    }

    /// Whether the set has no key.
    pub fn is_empty(&self) -> (res: bool)
        ensures
            res == self@.is_empty(),
    {
        self.ids.is_empty()
    }

    /// Adds `key` to the set, and says whether it was new.
    pub fn insert(&mut self, key: Key) -> (res: bool)
        ensures
            final(self)@ == old(self)@.insert(key@),
            res == !old(self)@.contains(key@),
    {
        self.ids.insert(key.id())
    }

    /// Takes `key` out of the set, and says whether it was there.
    pub fn remove(&mut self, key: &Key) -> (res: bool)
        ensures
            final(self)@ == old(self)@.remove(key@),
            res == old(self)@.contains(key@),
    {
        let id = key.id();
        self.ids.remove(&id)
    }

    /// The keys of the set, each once, in no particular order.
    pub fn to_vec(&self) -> (res: Vec<Key>)
        ensures
            res.len() == self@.len(),
            ids_of(res@) == self@,
            forall|i: int, j: int| 0 <= i < j < res.len() ==> res[i]@ != res[j]@,
    {
        let mut out: Vec<Key> = Vec::new();
        let ghost all = vstd::std_specs::hash::spec_hash_keys_iter(&self.ids).remaining().unref();
        for id in it: self.ids.iter()
            invariant
                it.seq().unref() == all,
                out.len() == it.index(),
                forall|i: int| 0 <= i < out.len() ==> (#[trigger] out[i])@ == all[i],
        {
            out.push(Key::from_id(*id));
        }
        proof {
            assert(all.to_set() == self@);
            assert(all.no_duplicates());
            assert forall|id: u64| ids_of(out@).contains(id) == self@.contains(id) by {
                if ids_of(out@).contains(id) {
                    let i = choose|i: int| 0 <= i < out.len() && #[trigger] out[i]@ == id;
                    assert(all[i] == id);
                    assert(all.contains(id));
                }
                if self@.contains(id) {
                    assert(all.contains(id));
                    let i = choose|i: int| 0 <= i < all.len() && all[i] == id;
                    assert(out[i]@ == id);
                }
            }
            assert(ids_of(out@) =~= self@);
        }
        out
    }
}

impl Clone for KeySet {
    /// A set with the same keys.
    fn clone(&self) -> (res: KeySet)
        ensures
            res@ == self@,
    {
        let mut ids: HashSet<u64> = HashSet::new();
        let ghost all = vstd::std_specs::hash::spec_hash_keys_iter(&self.ids).remaining().unref();
        for id in it: self.ids.iter()
            invariant
                it.seq().unref() == all,
                ids@ == all.take(it.index()).to_set(),
        {
            proof {
                let i = it.index();
                assert(all.take(i + 1) == all.take(i).push(all[i]));
                all.take(i).lemma_push_to_set_commute(all[i]);
            }
            ids.insert(*id);
        }
        assert(all.take(all.len() as int) == all);
        KeySet { ids }
    }
}

} // verus!
