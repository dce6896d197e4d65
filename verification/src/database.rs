//! The engine: the node table and the operations that keep it consistent.

use crate::key::{clock_nanos, timestamp_id, Key};
use crate::keyset::{ids_of, KeySet};
use crate::node::{Node, NodeView};
use crate::storage::Storage;
use crate::table::{
    connected, consistent, created, disconnected, distinct_keys, lemma_connected_consistent,
    lemma_created_consistent, lemma_disconnected_consistent, lemma_removed_consistent,
    lemma_symmetric_integrity, lemma_table_of_keys, linked, lists, neighbors, removed, symmetric,
    table_of,
};
use crate::value::Value;
use std::collections::HashMap;
use std::collections::HashSet;
use std::path::PathBuf;
use vstd::prelude::*;
use vstd::std_specs::iter::IteratorSpec;

verus! {

broadcast use vstd::std_specs::hash::group_hash_axioms;

/// Why a node could not be created.
#[derive(Debug, Clone, Copy, PartialEq, Eq, Structural)]
pub enum CreateError {
    /// The clock reads a time that no key stands for.
    ClockOutOfRange,
    /// The key was issued before, for a node that is stored or was removed.
    KeyCollision,
}

/// Why a listing of nodes could not be loaded.
#[derive(Debug, Clone, Copy, PartialEq, Eq, Structural)]
pub enum LoadError {
    /// Two nodes of the listing have the same key.
    DuplicateKey,
    /// A node has a neighbour that is not listed, or that does not have the
    /// node as a neighbour in turn.
    BrokenLink,
}

/// What a listing of stored nodes says: for each node its key's identifier
/// and its view.
pub open spec fn listing_of(entries: Seq<(Key, &Node)>) -> Seq<(u64, NodeView)> {
    Seq::new(entries.len(), |i: int| (entries[i].0@, entries[i].1@))
}

/// What a listing of nodes to load says: for each node its key's identifier
/// and its view.
pub open spec fn loaded(entries: Seq<(Key, Node)>) -> Seq<(u64, NodeView)> {
    Seq::new(entries.len(), |i: int| (entries[i].0@, entries[i].1@))
}

/// Whether `res`, `after` and `issued_after` are what a create with payload
/// `value` gives when the clock reads `nanos`, on the table `before` of a
/// database that has issued the keys `issued`. Where the reading gives no
/// key, or a key that was issued before, the matching error, and table and
/// issued keys as they were; else the key of the reading, the table with a
/// new node under it, and the key among the issued ones.
pub open spec fn creates_at(
    before: Map<u64, NodeView>,
    issued: Set<u64>,
    nanos: Option<i64>,
    value: Seq<u8>,
    res: Result<Key, CreateError>,
    after: Map<u64, NodeView>,
    issued_after: Set<u64>,
) -> bool {
    match timestamp_id(nanos) {
        None => res == Err::<Key, CreateError>(CreateError::ClockOutOfRange) && after == before
            && issued_after == issued,
        Some(id) => if issued.contains(id) {
            res == Err::<Key, CreateError>(CreateError::KeyCollision) && after == before
                && issued_after == issued
        } else {
            (res matches Ok(made) && made@ == id) && after == created(before, id, value)
                && issued_after == issued.insert(id)
        },
    }
}

/// The node table together with the place it is saved to, and the keys
/// that were issued so far: a key is issued once and never again, also
/// after its node was removed.
#[derive(Debug)]
pub struct Database {
    inner: HashMap<u64, Node>,
    issued: HashSet<u64>,
    storage: Storage,
}

impl View for Database {
    type V = Map<u64, NodeView>;

    closed spec fn view(&self) -> Map<u64, NodeView> {
        Map::new(|id: u64| self.inner@.contains_key(id), |id: u64| self.inner@[id]@)
    }
}

impl Database {
    /// Every stored node is well formed.
    pub closed spec fn nodes_wf(&self) -> bool {
        forall|id: u64| #[trigger] self.inner@.contains_key(id) ==> self.inner@[id].wf()
    }

    /// The identifiers of the keys that the database has issued: those of
    /// the nodes it was loaded with, and those of the nodes created since,
    /// whether they are still stored or not.
    pub closed spec fn issued(&self) -> Set<u64> {
        self.issued@
    }

    /// The database is well formed: its nodes are, its table is
    /// consistent, so no link dangles, and the key of every node was
    /// issued.
    pub open spec fn wf(&self) -> bool {
        self.nodes_wf() && consistent(self@) && self@.dom().subset_of(self.issued())
    }

    /// Where the database is saved to.
    pub closed spec fn spec_storage(&self) -> Storage {
        self.storage
    }

    /// Where the database is saved to.
    pub fn storage(&self) -> (res: &Storage)
        ensures
            *res == self.spec_storage(),
    {
        &self.storage
    }

    /// An empty table that lives in memory only.
    pub fn in_memory() -> (res: Database)
        ensures
            res.wf(),
            res@ == Map::<u64, NodeView>::empty(),
            res.issued() == Set::<u64>::empty(),
            res.spec_storage() == Storage::Memory,
    {
        let res = Database {
            inner: HashMap::new(),
            issued: HashSet::new(),
            storage: Storage::Memory,
        };
        assert(res@ =~= Map::<u64, NodeView>::empty());
        res
    }

    /// The node under `key`, if there is one.
    pub fn get(&self, key: &Key) -> (res: Option<&Node>)
        requires
            self.wf(),
        ensures
            match res {
                Some(node) => self@.contains_key(key@) && node@ == self@[key@] && node.wf(),
                None => !self@.contains_key(key@),
            },
    {
        let id = key.id();
        self.inner.get(&id)
    }

    /// The neighbours of the node under `key` that it has under the label
    /// `kind`. The set is empty where the key names no node and where the
    /// node has no such neighbour: the two cannot be told apart.
    pub fn select(&self, key: &Key, kind: &str) -> (res: KeySet)
        requires
            self.wf(),
        ensures
            res@ == neighbors(self@, key@, kind@),
    {
        match self.get(key) {
            Some(node) => node.get_connections(kind),
            None => KeySet::new(),
        }
    }

    /// Adds `to` to the neighbours of the node `from` under `label`.
    fn link(&mut self, from: u64, label: String, to: Key)
        requires
            old(self).nodes_wf(),
            old(self)@.contains_key(from),
        ensures
            final(self).nodes_wf(),
            final(self).spec_storage() == old(self).spec_storage(),
            final(self).issued() == old(self).issued(),
            final(self)@ == old(self)@.insert(from, old(self)@[from].connect(label@, to@)),
    {
        let ghost before = *self;
        if let Some(mut node) = self.inner.remove(&from) {
            node.connect(label, to);
            self.inner.insert(from, node);
        }
        assert(self@ =~= before@.insert(from, before@[from].connect(label@, to@)));
    }

    /// Takes `to` out of the neighbours of the node `from` under every
    /// label, where there is such a node.
    fn unlink(&mut self, from: u64, to: &Key)
        requires
            old(self).nodes_wf(),
        ensures
            final(self).nodes_wf(),
            final(self).spec_storage() == old(self).spec_storage(),
            final(self).issued() == old(self).issued(),
            old(self)@.contains_key(from) ==> final(self)@ == old(self)@.insert(
                from,
                old(self)@[from].remove_connection(to@),
            ),
            !old(self)@.contains_key(from) ==> final(self)@ == old(self)@,
    {
        let ghost before = *self;
        match self.inner.remove(&from) {
            Some(mut node) => {
                node.remove_connection(to);
                self.inner.insert(from, node);
                assert(self@ =~= before@.insert(from, before@[from].remove_connection(to@)));
            },
            None => {
                assert(self@ =~= before@);
            },
        }
    }

    /// Stores a new node with payload `value` under `key`, which must not
    /// have been issued before: a key that was, whether its node is still
    /// stored or not, is a collision and leaves the database as it is.
    pub fn create_with_key(&mut self, key: Key, value: Value) -> (res: Result<Key, CreateError>)
        requires
            old(self).wf(),
        ensures
            final(self).wf(),
            final(self).spec_storage() == old(self).spec_storage(),
            match res {
                Ok(made) => made == key && !old(self).issued().contains(key@) && final(self)@
                    == created(old(self)@, key@, value@) && final(self).issued()
                    == old(self).issued().insert(key@),
                Err(error) => error == CreateError::KeyCollision && old(self).issued().contains(
                    key@,
                ) && final(self)@ == old(self)@ && final(self).issued() == old(self).issued(),
            },
    {
        let ghost before = *self;
        let id = key.id();
        if self.issued.contains(&id) {
            return Err(CreateError::KeyCollision);
        }
        let node = Node::new(value);
        self.inner.insert(id, node);
        self.issued.insert(id);
        proof {
            assert(!before@.contains_key(id));
            assert(self@ =~= created(before@, key@, value@));
            lemma_created_consistent(before@, key@, value@);
        }
        Ok(key)
    }

    /// Stores a new node with payload `value` under the key for the clock
    /// reading `nanos`, and returns the key. Where the reading gives no
    /// key, or its key is in use, the table stays as it is.
    pub fn create_at(&mut self, nanos: Option<i64>, value: Value) -> (res: Result<
        Key,
        CreateError,
    >)
        requires
            old(self).wf(),
        ensures
            final(self).wf(),
            final(self).spec_storage() == old(self).spec_storage(),
            creates_at(
                old(self)@,
                old(self).issued(),
                nanos,
                value@,
                res,
                final(self)@,
                final(self).issued(),
            ),
    {
        match Key::from_timestamp(nanos) {
            Some(key) => self.create_with_key(key, value),
            None => Err(CreateError::ClockOutOfRange),
        }
    }

    /// Stores a new node with payload `value` under a key generated from
    /// the current time, and returns the key. The key was never issued
    /// before. Where the clock gives no key, or a key that was issued
    /// before, the database stays as it is. Whatever the clock reads, the
    /// outcome is that of [`Database::create_at`] for the reading.
    pub fn create(&mut self, value: Value) -> (res: Result<Key, CreateError>)
        requires
            old(self).wf(),
        ensures
            final(self).wf(),
            final(self).spec_storage() == old(self).spec_storage(),
            exists|nanos: Option<i64>| #[trigger]
                creates_at(
                    old(self)@,
                    old(self).issued(),
                    nanos,
                    value@,
                    res,
                    final(self)@,
                    final(self).issued(),
                ),
            match res {
                Ok(made) => !old(self).issued().contains(made@) && !old(self)@.contains_key(made@)
                    && final(self)@ == created(old(self)@, made@, value@) && final(self).issued()
                    == old(self).issued().insert(made@),
                Err(_) => final(self)@ == old(self)@ && final(self).issued() == old(self).issued(),
            },
    {
        self.create_at(clock_nanos(), value)
    }

    /// Makes each of two nodes a neighbour of the other: `second_key` of
    /// the first under `first_kind`, `first_key` of the second under
    /// `second_kind`. Returns whether both nodes were found; where one is
    /// missing nothing changes. A node may be connected to itself.
    pub fn connect(
        &mut self,
        first_key: Key,
        first_kind: String,
        second_key: Key,
        second_kind: String,
    ) -> (res: bool)
        requires
            old(self).wf(),
        ensures
            final(self).wf(),
            final(self).spec_storage() == old(self).spec_storage(),
            final(self).issued() == old(self).issued(),
            res == (old(self)@.contains_key(first_key@) && old(self)@.contains_key(second_key@)),
            res ==> final(self)@ == connected(
                old(self)@,
                first_key@,
                first_kind@,
                second_key@,
                second_kind@,
            ),
            !res ==> final(self)@ == old(self)@,
    {
        let first = first_key.id();
        let second = second_key.id();
        if !self.inner.contains_key(&first) || !self.inner.contains_key(&second) {
            return false;
        }
        proof {
            lemma_connected_consistent(self@, first, first_kind@, second, second_kind@);
        }
        self.link(first, first_kind, second_key);
        self.link(second, second_kind, first_key);
        true
    }

    /// Cuts every link between two nodes, in both directions and under
    /// every label. Returns whether both nodes were found; where one is
    /// missing nothing changes.
    pub fn disconnect(&mut self, first_key: &Key, second_key: &Key) -> (res: bool)
        requires
            old(self).wf(),
        ensures
            final(self).wf(),
            final(self).spec_storage() == old(self).spec_storage(),
            final(self).issued() == old(self).issued(),
            res == (old(self)@.contains_key(first_key@) && old(self)@.contains_key(second_key@)),
            res ==> final(self)@ == disconnected(old(self)@, first_key@, second_key@),
            !res ==> final(self)@ == old(self)@,
    {
        let first = first_key.id();
        let second = second_key.id();
        if !self.inner.contains_key(&first) || !self.inner.contains_key(&second) {
            return false;
        }
        proof {
            lemma_disconnected_consistent(self@, first, second);
        }
        self.unlink(first, second_key);
        self.unlink(second, first_key);
        true
    }

    /// Removes the node under `key` and returns its payload, or nothing
    /// where the key names no node. The key also leaves the neighbours of
    /// every other node, so that no link dangles.
    pub fn remove(&mut self, key: Key) -> (res: Option<Value>)
        requires
            old(self).wf(),
        ensures
            final(self).wf(),
            final(self).spec_storage() == old(self).spec_storage(),
            final(self).issued() == old(self).issued(),
            match res {
                Some(value) => old(self)@.contains_key(key@) && value@ == old(self)@[key@].value
                    && final(self)@ == removed(old(self)@, key@),
                None => !old(self)@.contains_key(key@) && final(self)@ == old(self)@,
            },
    {
        let ghost before = *self;
        let id = key.id();
        let node = match self.inner.remove(&id) {
            Some(node) => node,
            None => {
                assert(self@ =~= before@);
                return None;
            },
        };
        let (targets, value) = node.destruct();
        let ghost start = self@;
        assert(start =~= before@.remove(id));
        let mut i: usize = 0;
        while i < targets.len()
            invariant
                i <= targets.len(),
                self.nodes_wf(),
                self.spec_storage() == before.spec_storage(),
                self.issued() == before.issued(),
                self@.dom() == start.dom(),
                forall|other: u64| #[trigger]
                    start.contains_key(other) ==> self@[other] == start[other] || self@[other]
                        == start[other].remove_connection(id),
                forall|j: int|
                    0 <= j < i && start.contains_key((#[trigger] targets[j])@)
                        ==> self@[targets[j]@] == start[targets[j]@].remove_connection(id),
                id == key@,
            decreases targets.len() - i,
        {
            let target = targets[i].id();
            self.unlink(target, &key);
            proof {
                if start.contains_key(target) {
                    start[target].lemma_remove_connection(id);
                    start[target].remove_connection(id).lemma_remove_absent(id);
                }
                assert(self@.dom() =~= start.dom());
            }
            i = i + 1;
        }
        proof {
            let after = removed(before@, id);
            assert forall|other: u64| #[trigger] after.contains_key(other) implies self@[other]
                == after[other] by {
                assert(start.contains_key(other) && start[other] == before@[other]);
                if before@[other].points_to(id) {
                    assert(linked(before@, other, id));
                    assert(linked(before@, id, other));
                    assert(ids_of(targets@).contains(other));
                    let j = choose|j: int|
                        0 <= j < targets.len() && #[trigger] targets[j]@ == other;
                    assert(self@[targets[j]@] == start[targets[j]@].remove_connection(id));
                } else {
                    before@[other].lemma_remove_absent(id);
                }
            }
            assert(self@.dom() =~= after.dom());
            assert(self@ =~= after);
            lemma_removed_consistent(before@, id);
        }
        Some(value)
    }

    /// Every node of the table with its key, each once, in no particular
    /// order.
    pub fn iter(&self) -> (res: Vec<(Key, &Node)>)
        requires
            self.wf(),
        ensures
            res.len() == self@.dom().len(),
            lists(listing_of(res@), self@),
            forall|i: int| 0 <= i < res.len() ==> (#[trigger] res[i]).1.wf(),
    {
        self.entries()
    }

    /// The nodes of the table, each once and with its key, whether the
    /// table is consistent or not.
    fn entries(&self) -> (res: Vec<(Key, &Node)>)
        requires
            self.nodes_wf(),
        ensures
            res.len() == self@.dom().len(),
            lists(listing_of(res@), self@),
            forall|i: int| 0 <= i < res.len() ==> (#[trigger] res[i]).1.wf(),
    {
        let mut out: Vec<(Key, &Node)> = Vec::new();
        let ghost all = vstd::std_specs::hash::spec_hash_map_iter(&self.inner).remaining();
        for pair in it: self.inner.iter()
            invariant
                it.seq() == all,
                all.no_duplicates(),
                out.len() == it.index(),
                forall|i: int|
                    0 <= i < out.len() ==> (#[trigger] out[i]).0@ == *all[i].0 && *out[i].1
                        == *all[i].1,
        {
            let (id, node) = pair;
            out.push((Key::from_id(*id), node));
        }
        proof {
            let entries = listing_of(out@);
            assert(self@.dom() =~= self.inner@.dom());
            assert forall|i: int, j: int| 0 <= i < j < entries.len() implies (
            #[trigger] entries[i]).0 != (#[trigger] entries[j]).0 by {
                assert(self.inner@.contains_key(*all[i].0) && self.inner@[*all[i].0] == *all[i].1);
                assert(self.inner@.contains_key(*all[j].0) && self.inner@[*all[j].0] == *all[j].1);
                if entries[i].0 == entries[j].0 {
                    assert(all[i] == all[j]);
                }
            }
            assert forall|i: int| 0 <= i < entries.len() implies self@.contains_key(
                (#[trigger] entries[i]).0,
            ) && self@[entries[i].0] == entries[i].1 by {
                assert(self.inner@.contains_key(*all[i].0) && self.inner@[*all[i].0] == *all[i].1);
            }
            assert forall|id: u64| #[trigger] self@.contains_key(id) implies exists|i: int|
                0 <= i < entries.len() && (#[trigger] entries[i]).0 == id by {
                assert(all.contains((&id, &self.inner@[id])));
                let i = choose|i: int| 0 <= i < all.len() && all[i] == (&id, &self.inner@[id]);
                assert(entries[i].0 == id);
            }
            assert forall|i: int| 0 <= i < out.len() implies (#[trigger] out[i]).1.wf() by {
                assert(self.inner@.contains_key(*all[i].0) && self.inner@[*all[i].0] == *all[i].1);
            }
        }
        out
    }

    /// What a save has to write, and where: the whole table, and the path
    /// of the snapshot file. Nothing for a table that lives in memory only.
    pub fn save(&self) -> (res: Option<(&PathBuf, Vec<(Key, &Node)>)>)
        requires
            self.wf(),
        ensures
            match self.spec_storage() {
                Storage::Memory => res is None,
                Storage::File(path) => (res matches Some(request) && *request.0 == path
                    && request.1.len() == self@.dom().len() && lists(listing_of(request.1@), self@)
                    && forall|i: int|
                    0 <= i < request.1.len() ==> (#[trigger] request.1[i]).1.wf()),
            },
    {
        match self.storage.save() {
            Some(path) => Some((path, self.iter())),
            None => None,
        }
    }

    /// The database that is saved to the file at `path` and holds the
    /// nodes of `entries`: what the file held, or nothing where the file is
    /// new. A listing that names a key twice, or in which a link leads
    /// nowhere or is not answered, is refused.
    pub fn load(path: PathBuf, entries: Vec<(Key, Node)>) -> (res: Result<Database, LoadError>)
        requires
            forall|i: int| 0 <= i < entries.len() ==> (#[trigger] entries[i]).1.wf(),
        ensures
            match res {
                Ok(db) => distinct_keys(loaded(entries@)) && consistent(table_of(loaded(entries@)))
                    && db.wf() && db@ == table_of(loaded(entries@)) && db.issued() == db@.dom()
                    && db.spec_storage() == Storage::File(path),
                Err(LoadError::DuplicateKey) => !distinct_keys(loaded(entries@)),
                Err(LoadError::BrokenLink) => distinct_keys(loaded(entries@)) && !consistent(
                    table_of(loaded(entries@)),
                ),
            },
    {
        let mut db = Database {
            inner: HashMap::new(),
            issued: HashSet::new(),
            storage: Storage::File(path),
        };
        let ghost whole = entries@;
        let ghost given = loaded(entries@);
        assert(db@ =~= table_of(given.take(0)));
        for entry in it: entries.into_iter()
            invariant
                it.seq() == whole,
                given == loaded(whole),
                forall|i: int| 0 <= i < whole.len() ==> (#[trigger] whole[i]).1.wf(),
                db.nodes_wf(),
                db.spec_storage() == Storage::File(path),
                db.issued() == db@.dom(),
                distinct_keys(given.take(it.index())),
                db@ == table_of(given.take(it.index())),
        {
            let ghost n = it.index();
            let (key, node) = entry;
            let id = key.id();
            proof {
                assert(given[n] == (id, node@));
                assert(given.take(n + 1).drop_last() == given.take(n));
                lemma_table_of_keys(given.take(n), id);
            }
            if db.inner.contains_key(&id) {
                proof {
                    let j = choose|j: int| 0 <= j < n && (#[trigger] given.take(n)[j]).0 == id;
                    assert(given[j].0 == given[n].0);
                }
                return Err(LoadError::DuplicateKey);
            }
            db.inner.insert(id, node);
            db.issued.insert(id);
            proof {
                assert(db@ =~= table_of(given.take(n + 1)));
                assert(db.issued() =~= db@.dom());
                assert forall|a: int, b: int| 0 <= a < b < n + 1 implies (#[trigger] given.take(
                    n + 1,
                )[a]).0 != (#[trigger] given.take(n + 1)[b]).0 by {
                    if b < n {
                        assert(given.take(n)[a].0 != given.take(n)[b].0);
                    } else {
                        assert(given.take(n)[a].0 == given[a].0);
                    }
                }
            }
        }
        assert(given.take(given.len() as int) == given);
        proof {
            assert forall|id: u64| #[trigger] db@.contains_key(id) implies db@[id].normal() by {
                db.inner@[id].lemma_normal();
            }
        }
        if db.links_answered() {
            proof {
                lemma_symmetric_integrity(db@);
            }
            Ok(db)
        } else {
            Err(LoadError::BrokenLink)
        }
    }

    /// Whether every neighbour of a node is a node that has it as a
    /// neighbour in turn.
    fn links_answered(&self) -> (res: bool)
        requires
            self.nodes_wf(),
        ensures
            res == symmetric(self@),
    {
        let ghost table = self@;
        let nodes = self.entries();
        let mut a: usize = 0;
        while a < nodes.len()
            invariant
                a <= nodes.len(),
                self.nodes_wf(),
                table == self@,
                lists(listing_of(nodes@), table),
                forall|i: int| 0 <= i < nodes.len() ==> (#[trigger] nodes[i]).1.wf(),
                forall|x: int, to: u64|
                    0 <= x < a && #[trigger] linked(table, nodes[x].0@, to) ==> linked(
                        table,
                        to,
                        nodes[x].0@,
                    ),
            decreases nodes.len() - a,
        {
            let from = nodes[a].0;
            let node = nodes[a].1;
            assert(listing_of(nodes@)[a as int] == (from@, node@));
            let targets = node.linked_keys();
            let mut b: usize = 0;
            while b < targets.len()
                invariant
                    b <= targets.len(),
                    self.nodes_wf(),
                    table == self@,
                    table.contains_key(from@),
                    node@ == table[from@],
                    forall|id: u64| ids_of(targets@).contains(id) ==> node@.points_to(id),
                    forall|y: int| 0 <= y < b ==> linked(table, (#[trigger] targets[y])@, from@),
                decreases targets.len() - b,
            {
                let to = targets[b];
                assert(ids_of(targets@).contains(to@));
                assert(linked(table, from@, to@));
                let answered = match self.inner.get(&to.id()) {
                    Some(other) => other.points_to(&from),
                    None => false,
                };
                if !answered {
                    assert(!linked(table, to@, from@));
                    return false;
                }
                b = b + 1;
            }
            proof {
                assert forall|to: u64| #[trigger] linked(table, from@, to) implies linked(
                    table,
                    to,
                    from@,
                ) by {
                    assert(ids_of(targets@).contains(to));
                    let y = choose|y: int| 0 <= y < targets.len() && #[trigger] targets[y]@ == to;
                    assert(linked(table, targets[y]@, from@));
                }
            }
            a = a + 1;
        }
        proof {
            assert forall|from: u64, to: u64| #[trigger] linked(table, from, to) implies linked(
                table,
                to,
                from,
            ) by {
                let x = choose|x: int|
                    0 <= x < nodes.len() && (#[trigger] listing_of(nodes@)[x]).0 == from;
                assert(linked(table, nodes[x].0@, to));
            }
        }
        true
    }
}

} // verus!
