//! A stored entity: one payload and, per label, the set of its neighbours.

use crate::key::Key;
use crate::keyset::{
    ids_of, lemma_occurrences_add, lemma_occurrences_distinct, occurrences, KeySet,
};
use crate::value::Value;
use vstd::prelude::*;

verus! {

/// What a node is, apart from how it is stored: its payload, and for each
/// label that has neighbours the set of their identifiers. A label without
/// neighbours is no entry of `links`.
pub struct NodeView {
    pub value: Seq<u8>,
    pub links: Map<Seq<char>, Set<u64>>,
}

impl NodeView {
    /// A node with the given payload and no neighbour.
    pub open spec fn fresh(value: Seq<u8>) -> NodeView {
        NodeView { value, links: Map::empty() }
    }

    /// No label of the node stands for an empty set.
    pub open spec fn normal(self) -> bool {
        forall|label: Seq<char>| #[trigger]
            self.links.contains_key(label) ==> !self.links[label].is_empty()
    }

    /// The neighbours under `label`; none where the label is not in use.
    pub open spec fn neighbors(self, label: Seq<char>) -> Set<u64> {
        if self.links.contains_key(label) {
            self.links[label]
        } else {
            Set::empty()
        }
    }

    /// Whether `id` is a neighbour under some label.
    pub open spec fn points_to(self, id: u64) -> bool {
        exists|label: Seq<char>| #[trigger]
            self.links.contains_key(label) && self.links[label].contains(id)
    }

    /// The labels under which `id` is a neighbour.
    pub open spec fn labels_with(self, id: u64) -> Set<Seq<char>> {
        Set::new(
            |label: Seq<char>| self.links.contains_key(label) && self.links[label].contains(id),
        )
    }

    /// The node with `id` added to the neighbours under `label`.
    pub open spec fn connect(self, label: Seq<char>, id: u64) -> NodeView {
        NodeView {
            value: self.value,
            links: self.links.insert(label, self.neighbors(label).insert(id)),
        }
    }

    /// The node with `id` taken out of the neighbours under every label.
    pub open spec fn remove_connection(self, id: u64) -> NodeView {
        NodeView {
            value: self.value,
            links: Map::new(
                |label: Seq<char>|
                    self.links.contains_key(label) && !self.links[label].remove(id).is_empty(),
                |label: Seq<char>| self.links[label].remove(id),
            ),
        }
    }

    /// Connecting keeps the view normal and adds one neighbour.
    pub proof fn lemma_connect(self, label: Seq<char>, id: u64)
        requires
            self.normal(),
        ensures
            self.connect(label, id).normal(),
            self.connect(label, id).neighbors(label) == self.neighbors(label).insert(id),
            forall|other: Seq<char>|
                other != label ==> #[trigger] self.connect(label, id).neighbors(other)
                    == self.neighbors(other),
            forall|x: u64| #[trigger]
                self.connect(label, id).points_to(x) <==> self.points_to(x) || x == id,
    {
        let after = self.connect(label, id);
        assert(after.links.contains_key(label) && after.links[label].contains(id));
        assert forall|l: Seq<char>| #[trigger]
            after.links.contains_key(l) implies !after.links[l].is_empty() by {
            if l == label {
                assert(after.links[l].contains(id));
            } else {
                assert(self.links.contains_key(l));
            }
        }
        assert forall|x: u64| #[trigger] after.points_to(x) <==> self.points_to(x) || x == id by {
            if after.points_to(x) && x != id {
                let l = choose|l: Seq<char>| #[trigger]
                    after.links.contains_key(l) && after.links[l].contains(x);
                assert(self.links.contains_key(l) && self.links[l].contains(x));
            }
            if self.points_to(x) {
                let l = choose|l: Seq<char>| #[trigger]
                    self.links.contains_key(l) && self.links[l].contains(x);
                assert(after.links.contains_key(l) && after.links[l].contains(x));
            }
        }
    }

    /// Removing a connection keeps the view normal and takes exactly that
    /// neighbour out, under every label.
    pub proof fn lemma_remove_connection(self, id: u64)
        ensures
            self.remove_connection(id).normal(),
            forall|label: Seq<char>| #[trigger]
                self.remove_connection(id).neighbors(label) == self.neighbors(label).remove(id),
            forall|x: u64| #[trigger]
                self.remove_connection(id).points_to(x) <==> self.points_to(x) && x != id,
    {
        let after = self.remove_connection(id);
        assert forall|label: Seq<char>| #[trigger]
            after.neighbors(label) == self.neighbors(label).remove(id) by {
            assert(after.neighbors(label) =~= self.neighbors(label).remove(id));
        }
        assert forall|x: u64| #[trigger] after.points_to(x) <==> self.points_to(x) && x != id by {
            if after.points_to(x) {
                let l = choose|l: Seq<char>| #[trigger]
                    after.links.contains_key(l) && after.links[l].contains(x);
                assert(self.links.contains_key(l) && self.links[l].contains(x));
            }
            if self.points_to(x) && x != id {
                let l = choose|l: Seq<char>| #[trigger]
                    self.links.contains_key(l) && self.links[l].contains(x);
                assert(self.links[l].remove(id).contains(x));
                assert(after.links.contains_key(l) && after.links[l].contains(x));
            }
        }
    }

    /// Removing a key that is no neighbour changes nothing.
    pub proof fn lemma_remove_absent(self, id: u64)
        requires
            self.normal(),
            !self.points_to(id),
        ensures
            self.remove_connection(id) == self,
    {
        let after = self.remove_connection(id);
        assert forall|l: Seq<char>| #[trigger]
            self.links.contains_key(l) implies self.links[l].remove(id) == self.links[l] by {
            assert(!self.links[l].contains(id));
            assert(self.links[l].remove(id) =~= self.links[l]);
        }
        assert(after.links =~= self.links);
    }
}

/// The neighbours recorded under one label.
#[derive(Debug)]
struct Link {
    label: String,
    keys: KeySet,
}

/// A stored entity.
#[derive(Debug)]
pub struct Node {
    value: Value,
    connections: Vec<Link>,
}

impl View for Node {
    type V = NodeView;

    closed spec fn view(&self) -> NodeView {
        NodeView {
            value: self.value@,
            links: Map::new(
                |label: Seq<char>| !self.stored(label).is_empty(),
                |label: Seq<char>| self.stored(label),
            ),
        }
    }
}

impl Node {
    /// Whether some record carries `label`.
    spec fn has_label(&self, label: Seq<char>) -> bool {
        exists|i: int|
            0 <= i < self.connections.len() && #[trigger] self.connections[i].label@ == label
    }

    /// The keys recorded under `label`, where a record carries it.
    spec fn stored(&self, label: Seq<char>) -> Set<u64> {
        if self.has_label(label) {
            let i = choose|i: int|
                0 <= i < self.connections.len() && #[trigger] self.connections[i].label@ == label;
            self.connections[i].keys@
        } else {
            Set::empty()
        }
    }

    /// The node is well formed: no label is recorded twice.
    pub closed spec fn wf(&self) -> bool {
        forall|i: int, j: int|
            0 <= i < j < self.connections.len() ==> #[trigger] self.connections[i].label@
                != #[trigger] self.connections[j].label@
    }

    /// In a well-formed node the record with a label holds what is stored
    /// under it.
    proof fn lemma_stored_at(&self, i: int)
        requires
            self.wf(),
            0 <= i < self.connections.len(),
        ensures
            self.has_label(self.connections[i].label@),
            self.stored(self.connections[i].label@) == self.connections[i].keys@,
    {
    }

    /// The view of a node has no label with an empty set, and `neighbors`
    /// reads what is stored.
    proof fn lemma_view(&self)
        ensures
            self@.normal(),
            forall|label: Seq<char>| #[trigger] self@.neighbors(label) == self.stored(label),
    {
        assert forall|label: Seq<char>| #[trigger] self@.neighbors(label) == self.stored(
            label,
        ) by {
            assert(self@.neighbors(label) =~= self.stored(label));
        }
    }

    /// The view of a node has no label with an empty set.
    pub proof fn lemma_normal(&self)
        ensures
            self@.normal(),
    {
        self.lemma_view();
    }

    /// Two nodes whose records carry the same labels, place by place, have
    /// the same labels.
    proof fn lemma_same_labels(a: Node, b: Node, label: Seq<char>)
        requires
            a.connections.len() == b.connections.len(),
            forall|j: int|
                0 <= j < a.connections.len() ==> #[trigger] a.connections[j].label@
                    == b.connections[j].label@,
        ensures
            a.has_label(label) == b.has_label(label),
    {
        if a.has_label(label) {
            let j = choose|j: int|
                0 <= j < a.connections.len() && #[trigger] a.connections[j].label@ == label;
            assert(b.connections[j].label@ == label);
        }
        if b.has_label(label) {
            let j = choose|j: int|
                0 <= j < b.connections.len() && #[trigger] b.connections[j].label@ == label;
            assert(a.connections[j].label@ == label);
        }
    }

    /// Among the first `n` records, how many hold `id`.
    spec fn hits(&self, n: int, id: u64) -> nat
        decreases n,
    {
        if n <= 0 {
            0
        } else {
            self.hits(n - 1, id) + if self.connections[n - 1].keys@.contains(id) {
                1nat
            } else {
                0nat
            }
        }
    }

    /// The labels of those among the first `n` records that hold `id`.
    spec fn hit_labels(&self, n: int, id: u64) -> Set<Seq<char>> {
        Set::new(
            |label: Seq<char>|
                exists|j: int|
                    0 <= j < n && #[trigger] self.connections[j].label@ == label
                        && self.connections[j].keys@.contains(id),
        )
    }

    /// As many labels hold `id` as records do.
    proof fn lemma_hits(&self, n: int, id: u64)
        requires
            self.wf(),
            0 <= n <= self.connections.len(),
        ensures
            self.hit_labels(n, id).finite(),
            self.hit_labels(n, id).len() == self.hits(n, id),
        decreases n,
    {
        if n == 0 {
            assert(self.hit_labels(n, id) =~= Set::<Seq<char>>::empty());
        } else {
            self.lemma_hits(n - 1, id);
            let before = self.hit_labels(n - 1, id);
            let label = self.connections[n - 1].label@;
            if self.connections[n - 1].keys@.contains(id) {
                assert(!before.contains(label)) by {
                    if before.contains(label) {
                        let j = choose|j: int|
                            0 <= j < n - 1 && #[trigger] self.connections[j].label@ == label
                                && self.connections[j].keys@.contains(id);
                        assert(self.connections[j].label@ != self.connections[n - 1].label@);
                    }
                }
                assert(self.hit_labels(n, id) =~= before.insert(label)) by {
                    assert forall|l: Seq<char>| self.hit_labels(n, id).contains(l)
                        == before.insert(label).contains(l) by {
                        if self.hit_labels(n, id).contains(l) {
                            let j = choose|j: int|
                                0 <= j < n && #[trigger] self.connections[j].label@ == l
                                    && self.connections[j].keys@.contains(id);
                            if j < n - 1 {
                                assert(before.contains(l));
                            }
                        }
                        if before.contains(l) {
                            let j = choose|j: int|
                                0 <= j < n - 1 && #[trigger] self.connections[j].label@ == l
                                    && self.connections[j].keys@.contains(id);
                            assert(0 <= j < n);
                        }
                        if l == label {
                            assert(self.connections[n - 1].label@ == l);
                        }
                    }
                }
            } else {
                assert(self.hit_labels(n, id) =~= before) by {
                    assert forall|l: Seq<char>| self.hit_labels(n, id).contains(l)
                        == before.contains(l) by {
                        if self.hit_labels(n, id).contains(l) {
                            let j = choose|j: int|
                                0 <= j < n && #[trigger] self.connections[j].label@ == l
                                    && self.connections[j].keys@.contains(id);
                            assert(j < n - 1);
                        }
                        if before.contains(l) {
                            let j = choose|j: int|
                                0 <= j < n - 1 && #[trigger] self.connections[j].label@ == l
                                    && self.connections[j].keys@.contains(id);
                            assert(0 <= j < n);
                        }
                    }
                }
            }
        }
    }

    /// The labels of the records that hold `id` are the labels under which
    /// `id` is a neighbour.
    proof fn lemma_hit_labels(&self, id: u64)
        requires
            self.wf(),
        ensures
            self.hit_labels(self.connections.len() as int, id) == self@.labels_with(id),
    {
        let n = self.connections.len() as int;
        self.lemma_view();
        assert forall|l: Seq<char>| self.hit_labels(n, id).contains(l) == self@.labels_with(
            id,
        ).contains(l) by {
            if self.hit_labels(n, id).contains(l) {
                let j = choose|j: int|
                    0 <= j < n && #[trigger] self.connections[j].label@ == l
                        && self.connections[j].keys@.contains(id);
                self.lemma_stored_at(j);
                assert(self@.links.contains_key(l) && self@.links[l].contains(id));
            }
            if self@.labels_with(id).contains(l) {
                assert(self.has_label(l));
                let j = choose|j: int|
                    0 <= j < self.connections.len() && #[trigger] self.connections[j].label@ == l;
                self.lemma_stored_at(j);
            }
        }
        assert(self.hit_labels(n, id) =~= self@.labels_with(id));
    }

    /// A node with the given payload and no connections.
    pub fn new(value: Value) -> (res: Node)
        ensures
            res.wf(),
            res@ == NodeView::fresh(value@),
    {
        let res = Node { value, connections: Vec::new() };
        assert(res@.links =~= Map::empty());
        res
    }

    /// The payload of the node.
    pub fn value(&self) -> (res: &Value)
        ensures
            res@ == self@.value,
    {
        &self.value
    }

    /// The index of the record that carries `label`, if there is one.
    fn find(&self, label: &String) -> (res: Option<usize>)
        ensures
            match res {
                Some(i) => i < self.connections.len() && self.connections[i as int].label@
                    == label@,
                None => !self.has_label(label@),
            },
    {
        let mut i: usize = 0;
        while i < self.connections.len()
            invariant
                i <= self.connections.len(),
                forall|j: int| 0 <= j < i ==> self.connections[j].label@ != label@,
            decreases self.connections.len() - i,
        {
            if self.connections[i].label == *label {
                return Some(i);
            }
            i = i + 1;
        }
        None
    }

    /// Adds `key` to the neighbours under `kind`. Adding a key that is there
    /// already changes nothing.
    pub fn connect(&mut self, kind: String, key: Key)
        requires
            old(self).wf(),
        ensures
            final(self).wf(),
            final(self)@ == old(self)@.connect(kind@, key@),
    {
        let ghost before = *self;
        let found = self.find(&kind);
        match found {
            Some(i) => {
                self.connections[i].keys.insert(key);
                proof {
                    assert forall|label: Seq<char>| #[trigger]
                        self.stored(label) == (if label == kind@ {
                            before.stored(label).insert(key@)
                        } else {
                            before.stored(label)
                        }) by {
                        Self::lemma_same_labels(before, *self, label);
                        if label == kind@ {
                            before.lemma_stored_at(i as int);
                            self.lemma_stored_at(i as int);
                        } else if before.has_label(label) {
                            let j = choose|j: int|
                                0 <= j < before.connections.len()
                                    && #[trigger] before.connections[j].label@ == label;
                            before.lemma_stored_at(j);
                            self.lemma_stored_at(j);
                        }
                    }
                }
            },
            None => {
                let mut keys = KeySet::new();
                keys.insert(key);
                let ghost label0 = kind@;
                self.connections.push(Link { label: kind, keys });
                proof {
                    let n = before.connections.len() as int;
                    assert(self.connections[n].label@ == label0);
                    assert forall|label: Seq<char>| #[trigger]
                        self.stored(label) == (if label == label0 {
                            before.stored(label).insert(key@)
                        } else {
                            before.stored(label)
                        }) by {
                        if label == label0 {
                            self.lemma_stored_at(n);
                            assert(self.connections[n].keys@ =~= Set::<u64>::empty().insert(key@));
                        } else if before.has_label(label) {
                            let j = choose|j: int|
                                0 <= j < before.connections.len()
                                    && #[trigger] before.connections[j].label@ == label;
                            before.lemma_stored_at(j);
                            assert(self.connections[j] == before.connections[j]);
                            self.lemma_stored_at(j);
                        } else {
                            if self.has_label(label) {
                                let j = choose|j: int|
                                    0 <= j < self.connections.len()
                                        && #[trigger] self.connections[j].label@ == label;
                                assert(j < n);
                                assert(before.connections[j].label@ == label);
                            }
                        }
                    }
                }
            },
        }
        proof {
            before.lemma_view();
            self.lemma_view();
            assert(self@.links =~= before@.connect(kind@, key@).links);
        }
    }

    /// Takes `key` out of the neighbours under every label.
    pub fn remove_connection(&mut self, key: &Key)
        requires
            old(self).wf(),
        ensures
            final(self).wf(),
            final(self)@ == old(self)@.remove_connection(key@),
    {
        let ghost before = *self;
        let mut i: usize = 0;
        while i < self.connections.len()
            invariant
                i <= self.connections.len(),
                self.value == before.value,
                self.connections.len() == before.connections.len(),
                forall|j: int|
                    0 <= j < self.connections.len() ==> #[trigger] self.connections[j].label
                        == before.connections[j].label,
                forall|j: int|
                    0 <= j < i ==> #[trigger] self.connections[j].keys@
                        == before.connections[j].keys@.remove(key@),
                forall|j: int|
                    i <= j < self.connections.len() ==> #[trigger] self.connections[j].keys@
                        == before.connections[j].keys@,
            decreases self.connections.len() - i,
        {
            self.connections[i].keys.remove(key);
            i = i + 1;
        }
        proof {
            assert(self.wf()) by {
                assert forall|a: int, b: int| 0 <= a < b < self.connections.len() implies #[trigger]
                    self.connections[a].label@ != #[trigger] self.connections[b].label@ by {
                    assert(before.connections[a].label@ != before.connections[b].label@);
                }
            }
            assert forall|label: Seq<char>| #[trigger]
                self.stored(label) == before.stored(label).remove(key@) by {
                Self::lemma_same_labels(before, *self, label);
                if before.has_label(label) {
                    let j = choose|j: int|
                        0 <= j < before.connections.len()
                            && #[trigger] before.connections[j].label@ == label;
                    before.lemma_stored_at(j);
                    self.lemma_stored_at(j);
                } else {
                    assert(before.stored(label).remove(key@) =~= Set::<u64>::empty());
                }
            }
            before.lemma_view();
            self.lemma_view();
            assert(self@.links =~= before@.remove_connection(key@).links);
        }
    }

    /// The labels that have neighbours, each once and with the number of its
    /// neighbours, in no particular order.
    pub fn connections(&self) -> (res: Vec<(&str, usize)>)
        requires
            self.wf(),
        ensures
            res.len() == self@.links.dom().len(),
            forall|i: int|
                0 <= i < res.len() ==> self@.links.contains_key((#[trigger] res[i]).0@)
                    && res[i].1 == self@.links[res[i].0@].len(),
            forall|i: int, j: int|
                0 <= i < j < res.len() ==> (#[trigger] res[i]).0@ != (#[trigger] res[j]).0@,
            forall|label: Seq<char>| #[trigger]
                self@.links.contains_key(label) ==> exists|i: int|
                    0 <= i < res.len() && (#[trigger] res[i]).0@ == label,
    {
        let mut out: Vec<(&str, usize)> = Vec::new();
        let ghost mut origin: Seq<int> = Seq::empty();
        let mut i: usize = 0;
        while i < self.connections.len()
            invariant
                i <= self.connections.len(),
                self.wf(),
                origin.len() == out.len(),
                forall|a: int|
                    0 <= a < out.len() ==> 0 <= #[trigger] origin[a] < i && out[a].0@
                        == self.connections[origin[a]].label@ && out[a].1
                        == self.connections[origin[a]].keys@.len()
                        && !self.connections[origin[a]].keys@.is_empty(),
                forall|a: int, b: int|
                    0 <= a < b < out.len() ==> #[trigger] origin[a] < #[trigger] origin[b],
                forall|j: int|
                    0 <= j < i && !(#[trigger] self.connections[j]).keys@.is_empty() ==> exists|
                        a: int,
                    |
                        0 <= a < origin.len() && #[trigger] origin[a] == j,
            decreases self.connections.len() - i,
        {
            let link = &self.connections[i];
            if !link.keys.is_empty() {
                out.push((link.label.as_str(), link.keys.len()));
                proof {
                    let prev = origin;
                    origin = origin.push(i as int);
                    assert forall|j: int|
                        0 <= j < i + 1 && !(#[trigger] self.connections[j]).keys@.is_empty()
                        implies exists|a: int|
                        0 <= a < origin.len() && #[trigger] origin[a] == j by {
                        if j < i {
                            let a = choose|a: int| 0 <= a < prev.len() && #[trigger] prev[a] == j;
                            assert(origin[a] == j);
                        } else {
                            assert(origin[prev.len() as int] == j);
                        }
                    }
                }
            }
            i = i + 1;
        }
        proof {
            self.lemma_view();
            assert forall|a: int| 0 <= a < out.len() implies self@.links.contains_key(
                (#[trigger] out[a]).0@,
            ) && out[a].1 == self@.links[out[a].0@].len() by {
                self.lemma_stored_at(origin[a]);
            }
            assert forall|a: int, b: int| 0 <= a < b < out.len() implies (#[trigger] out[a]).0@ != (
            #[trigger] out[b]).0@ by {
                assert(origin[a] < origin[b]);
            }
            assert forall|label: Seq<char>| #[trigger]
                self@.links.contains_key(label) implies exists|a: int|
                0 <= a < out.len() && (#[trigger] out[a]).0@ == label by {
                assert(self.has_label(label));
                let j = choose|j: int|
                    0 <= j < self.connections.len()
                        && #[trigger] self.connections[j].label@ == label;
                self.lemma_stored_at(j);
                let a = choose|a: int| 0 <= a < origin.len() && #[trigger] origin[a] == j;
                assert(out[a].0@ == label);
            }
            let found = Seq::new(out.len() as nat, |a: int| out[a].0@);
            assert forall|label: Seq<char>| found.to_set().contains(label)
                == self@.links.dom().contains(label) by {
                if found.contains(label) {
                    let a = choose|a: int| 0 <= a < found.len() && found[a] == label;
                    assert(self@.links.contains_key(out[a].0@));
                }
                if self@.links.contains_key(label) {
                    let a = choose|a: int| 0 <= a < out.len() && (#[trigger] out[a]).0@ == label;
                    assert(found[a] == label);
                }
            }
            assert(found.to_set() =~= self@.links.dom());
            assert forall|a: int, b: int|
                0 <= a < found.len() && 0 <= b < found.len() && a != b implies found[a]
                != found[b] by {
                if a < b {
                    assert(out[a].0@ != out[b].0@);
                } else {
                    assert(out[b].0@ != out[a].0@);
                }
            }
            found.unique_seq_to_set();
        }
        out
    }

    /// The neighbours under `kind`: the empty set where the label has none,
    /// whether it was ever in use or not.
    pub fn get_connections(&self, kind: &str) -> (res: KeySet)
        requires
            self.wf(),
        ensures
            res@ == self@.neighbors(kind@),
    {
        let label = kind.to_owned();
        proof {
            self.lemma_view();
        }
        match self.find(&label) {
            Some(i) => {
                proof {
                    self.lemma_stored_at(i as int);
                }
                self.connections[i].keys.clone()
            },
            None => KeySet::new(),
        }
    }

    /// The neighbours of the node under all labels. A key that is a
    /// neighbour under several labels comes once for each.
    pub fn linked_keys(&self) -> (res: Vec<Key>)
        requires
            self.wf(),
        ensures
            forall|id: u64| ids_of(res@).contains(id) <==> self@.points_to(id),
            forall|id: u64| #[trigger] self@.labels_with(id).finite(),
            forall|id: u64| #[trigger] occurrences(res@, id) == self@.labels_with(id).len(),
    {
        let ghost before = *self;
        let connections = &self.connections;
        let mut out: Vec<Key> = Vec::new();
        let mut i: usize = 0;
        while i < connections.len()
            invariant
                i <= connections.len(),
                *connections == before.connections,
                forall|id: u64|
                    ids_of(out@).contains(id) <==> exists|j: int|
                        0 <= j < i && (#[trigger] connections[j]).keys@.contains(id),
                forall|id: u64| #[trigger] occurrences(out@, id) == before.hits(i as int, id),
            decreases connections.len() - i,
        {
            let ghost prev = out@;
            let mut keys = connections[i].keys.to_vec();
            let ghost added = keys@;
            out.append(&mut keys);
            proof {
                assert(out@ == prev + added);
                assert forall|id: u64| #[trigger] occurrences(out@, id) == before.hits(
                    i + 1,
                    id,
                ) by {
                    lemma_occurrences_add(prev, added, id);
                    lemma_occurrences_distinct(added, id);
                    assert(occurrences(prev, id) == before.hits(i as int, id));
                }
                assert forall|id: u64|
                    ids_of(out@).contains(id) <==> exists|j: int|
                        0 <= j < i + 1 && (#[trigger] connections[j]).keys@.contains(id) by {
                    if ids_of(out@).contains(id) {
                        let a = choose|a: int| 0 <= a < out.len() && #[trigger] out[a]@ == id;
                        if a < prev.len() {
                            assert(prev[a]@ == id);
                            assert(ids_of(prev).contains(id));
                        } else {
                            assert(added[a - prev.len()]@ == id);
                            assert(ids_of(added).contains(id));
                            assert(connections[i as int].keys@.contains(id));
                        }
                    }
                    if exists|j: int|
                        0 <= j < i + 1 && (#[trigger] connections[j]).keys@.contains(id) {
                        let j = choose|j: int|
                            0 <= j < i + 1 && (#[trigger] connections[j]).keys@.contains(id);
                        if j < i {
                            assert(ids_of(prev).contains(id));
                            let a = choose|a: int|
                                0 <= a < prev.len() && #[trigger] prev[a]@ == id;
                            assert(out[a]@ == id);
                        } else {
                            assert(ids_of(added).contains(id));
                            let a = choose|a: int|
                                0 <= a < added.len() && #[trigger] added[a]@ == id;
                            assert(out[prev.len() + a]@ == id);
                        }
                    }
                }
            }
            i = i + 1;
        }
        proof {
            before.lemma_view();
            assert forall|id: u64| #[trigger] before@.labels_with(id).finite() by {
                before.lemma_hits(connections.len() as int, id);
                before.lemma_hit_labels(id);
            }
            assert forall|id: u64| #[trigger]
                occurrences(out@, id) == before@.labels_with(id).len() by {
                before.lemma_hits(connections.len() as int, id);
                before.lemma_hit_labels(id);
            }
            assert forall|id: u64| ids_of(out@).contains(id) <==> before@.points_to(id) by {
                if ids_of(out@).contains(id) {
                    let j = choose|j: int|
                        0 <= j < connections.len() && (#[trigger] connections[j]).keys@.contains(
                            id,
                        );
                    before.lemma_stored_at(j);
                    let label = connections[j].label@;
                    assert(before@.links.contains_key(label) && before@.links[label].contains(id));
                }
                if before@.points_to(id) {
                    let label = choose|label: Seq<char>| #[trigger]
                        before@.links.contains_key(label) && before@.links[label].contains(id);
                    assert(before.has_label(label));
                    let j = choose|j: int|
                        0 <= j < before.connections.len()
                            && #[trigger] before.connections[j].label@ == label;
                    before.lemma_stored_at(j);
                    assert(connections[j].keys@.contains(id));
                }
            }
        }
        out
    }

    /// Whether `key` is a neighbour of the node under some label.
    pub fn points_to(&self, key: &Key) -> (res: bool)
        requires
            self.wf(),
        ensures
            res == self@.points_to(key@),
    {
        let mut i: usize = 0;
        while i < self.connections.len()
            invariant
                i <= self.connections.len(),
                self.wf(),
                forall|j: int|
                    0 <= j < i ==> !(#[trigger] self.connections[j]).keys@.contains(key@),
            decreases self.connections.len() - i,
        {
            if self.connections[i].keys.contains(key) {
                proof {
                    self.lemma_view();
                    self.lemma_stored_at(i as int);
                    let label = self.connections[i as int].label@;
                    assert(self@.links.contains_key(label) && self@.links[label].contains(key@));
                }
                return true;
            }
            i = i + 1;
        }
        proof {
            self.lemma_view();
            if self@.points_to(key@) {
                let label = choose|label: Seq<char>| #[trigger]
                    self@.links.contains_key(label) && self@.links[label].contains(key@);
                assert(self.has_label(label));
                let j = choose|j: int|
                    0 <= j < self.connections.len()
                        && #[trigger] self.connections[j].label@ == label;
                self.lemma_stored_at(j);
            }
        }
        false
    }

    /// Takes the node apart: its neighbours under all labels, and its
    /// payload. A key that is a neighbour under several labels comes once
    /// for each.
    pub fn destruct(self) -> (res: (Vec<Key>, Value))
        requires
            self.wf(),
        ensures
            res.1@ == self@.value,
            forall|id: u64| ids_of(res.0@).contains(id) <==> self@.points_to(id),
            forall|id: u64| #[trigger] self@.labels_with(id).finite(),
            forall|id: u64| #[trigger] occurrences(res.0@, id) == self@.labels_with(id).len(),
    {
        let keys = self.linked_keys();
        (keys, self.value)
    }
}

} // verus!
