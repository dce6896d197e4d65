//! The node table as a mathematical map, the operations on it, and the laws
//! that they obey.

use crate::node::NodeView;
use vstd::prelude::*;

verus! {

/// The neighbours of node `id` under `label`: none where the table has no
/// such node, or the node no such label.
pub open spec fn neighbors(table: Map<u64, NodeView>, id: u64, label: Seq<char>) -> Set<u64> {
    if table.contains_key(id) {
        table[id].neighbors(label)
    } else {
        Set::empty()
    }
}

/// Node `from` is in the table and has `to` as a neighbour under some label.
pub open spec fn linked(table: Map<u64, NodeView>, from: u64, to: u64) -> bool {
    table.contains_key(from) && table[from].points_to(to)
}

/// Every neighbour of a node of the table is a node of the table.
pub open spec fn referential_integrity(table: Map<u64, NodeView>) -> bool {
    forall|from: u64, to: u64| #[trigger] linked(table, from, to) ==> table.contains_key(to)
}

/// No node of the table has a label with an empty set.
pub open spec fn normal(table: Map<u64, NodeView>) -> bool {
    forall|id: u64| #[trigger] table.contains_key(id) ==> table[id].normal()
}

/// Links come in pairs: a neighbour of a node has that node as a neighbour.
pub open spec fn symmetric(table: Map<u64, NodeView>) -> bool {
    forall|from: u64, to: u64| #[trigger] linked(table, from, to) ==> linked(table, to, from)
}

/// What holds of the table between operations: no label stands for an
/// empty set, no link dangles, and every link is answered.
pub open spec fn consistent(table: Map<u64, NodeView>) -> bool {
    normal(table) && referential_integrity(table) && symmetric(table)
}

/// The table after a node with payload `value` was created under `id`.
pub open spec fn created(table: Map<u64, NodeView>, id: u64, value: Seq<u8>) -> Map<u64, NodeView> {
    table.insert(id, NodeView::fresh(value))
}

/// The table after `first` got `second` as a neighbour under `first_label`,
/// and then `second` got `first` under `second_label`.
pub open spec fn connected(
    table: Map<u64, NodeView>,
    first: u64,
    first_label: Seq<char>,
    second: u64,
    second_label: Seq<char>,
) -> Map<u64, NodeView> {
    let half = table.insert(first, table[first].connect(first_label, second));
    half.insert(second, half[second].connect(second_label, first))
}

/// The table after every link between `first` and `second` was cut, in both
/// directions and under every label.
pub open spec fn disconnected(table: Map<u64, NodeView>, first: u64, second: u64) -> Map<
    u64,
    NodeView,
> {
    let half = table.insert(first, table[first].remove_connection(second));
    half.insert(second, half[second].remove_connection(first))
}

/// The table after node `id` was removed, and with it `id` from the
/// neighbours of every other node.
pub open spec fn removed(table: Map<u64, NodeView>, id: u64) -> Map<u64, NodeView> {
    Map::new(
        |other: u64| table.contains_key(other) && other != id,
        |other: u64| table[other].remove_connection(id),
    )
}

/// Where every link is answered, no link dangles.
pub proof fn lemma_symmetric_integrity(table: Map<u64, NodeView>)
    requires
        symmetric(table),
    ensures
        referential_integrity(table),
{
    assert forall|from: u64, to: u64| #[trigger] linked(table, from, to) implies table.contains_key(
        to,
    ) by {
        assert(linked(table, to, from));
    }
}

/// Creating a node under an unused key keeps the table consistent.
pub proof fn lemma_created_consistent(table: Map<u64, NodeView>, id: u64, value: Seq<u8>)
    requires
        consistent(table),
        !table.contains_key(id),
    ensures
        consistent(created(table, id, value)),
{
    let after = created(table, id, value);
    assert forall|from: u64, to: u64| #[trigger] linked(after, from, to) implies linked(
        after,
        to,
        from,
    ) by {
        assert(from != id);
        assert(linked(table, from, to));
        assert(linked(table, to, from));
    }
    lemma_symmetric_integrity(after);
}

/// What is linked after a connect: what was linked before, and the two
/// nodes with each other.
pub proof fn lemma_connected_links(
    table: Map<u64, NodeView>,
    first: u64,
    first_label: Seq<char>,
    second: u64,
    second_label: Seq<char>,
)
    requires
        normal(table),
        table.contains_key(first),
        table.contains_key(second),
    ensures
        normal(connected(table, first, first_label, second, second_label)),
        connected(table, first, first_label, second, second_label).dom() == table.dom(),
        forall|from: u64, to: u64| #[trigger]
            linked(connected(table, first, first_label, second, second_label), from, to)
                <==> linked(table, from, to) || (from == first && to == second) || (from == second
                && to == first),
{
    let half = table.insert(first, table[first].connect(first_label, second));
    let after = connected(table, first, first_label, second, second_label);
    table[first].lemma_connect(first_label, second);
    half[second].lemma_connect(second_label, first);
    assert(after.dom() =~= table.dom());
}

/// Connecting two nodes of a consistent table keeps it consistent.
pub proof fn lemma_connected_consistent(
    table: Map<u64, NodeView>,
    first: u64,
    first_label: Seq<char>,
    second: u64,
    second_label: Seq<char>,
)
    requires
        consistent(table),
        table.contains_key(first),
        table.contains_key(second),
    ensures
        consistent(connected(table, first, first_label, second, second_label)),
{
    let after = connected(table, first, first_label, second, second_label);
    lemma_connected_links(table, first, first_label, second, second_label);
    assert forall|from: u64, to: u64| #[trigger] linked(after, from, to) implies linked(
        after,
        to,
        from,
    ) by {
        if linked(table, from, to) {
            assert(linked(table, to, from));
        }
    }
    lemma_symmetric_integrity(after);
}

/// After a connect each of the two nodes is a neighbour of the other, under
/// the label given for its side.
pub proof fn lemma_connected_both_ways(
    table: Map<u64, NodeView>,
    first: u64,
    first_label: Seq<char>,
    second: u64,
    second_label: Seq<char>,
)
    requires
        normal(table),
        table.contains_key(first),
        table.contains_key(second),
    ensures
        neighbors(
            connected(table, first, first_label, second, second_label),
            first,
            first_label,
        ).contains(second),
        neighbors(
            connected(table, first, first_label, second, second_label),
            second,
            second_label,
        ).contains(first),
{
    let half = table.insert(first, table[first].connect(first_label, second));
    table[first].lemma_connect(first_label, second);
    half[second].lemma_connect(second_label, first);
}

/// After a connect, `second` is a neighbour of `first` under the label of
/// the other side, and `first` of `second` likewise, where the two labels
/// are one, or the two nodes are one, or both links were there before.
pub proof fn lemma_connected_crosswise(
    table: Map<u64, NodeView>,
    first: u64,
    first_label: Seq<char>,
    second: u64,
    second_label: Seq<char>,
)
    requires
        normal(table),
        table.contains_key(first),
        table.contains_key(second),
        first_label == second_label || first == second || (neighbors(
            table,
            first,
            second_label,
        ).contains(second) && neighbors(table, second, first_label).contains(first)),
    ensures
        neighbors(
            connected(table, first, first_label, second, second_label),
            first,
            second_label,
        ).contains(second),
        neighbors(
            connected(table, first, first_label, second, second_label),
            second,
            first_label,
        ).contains(first),
{
    let half = table.insert(first, table[first].connect(first_label, second));
    table[first].lemma_connect(first_label, second);
    half[second].lemma_connect(second_label, first);
}

/// In every other case a connect does not make the two nodes neighbours
/// under the label of the other side: one of the two links is missing.
pub proof fn lemma_connected_crosswise_only(
    table: Map<u64, NodeView>,
    first: u64,
    first_label: Seq<char>,
    second: u64,
    second_label: Seq<char>,
)
    requires
        normal(table),
        table.contains_key(first),
        table.contains_key(second),
        first_label != second_label,
        first != second,
        !neighbors(table, first, second_label).contains(second) || !neighbors(
            table,
            second,
            first_label,
        ).contains(first),
    ensures
        !neighbors(
            connected(table, first, first_label, second, second_label),
            first,
            second_label,
        ).contains(second) || !neighbors(
            connected(table, first, first_label, second, second_label),
            second,
            first_label,
        ).contains(first),
{
    let half = table.insert(first, table[first].connect(first_label, second));
    table[first].lemma_connect(first_label, second);
    half[second].lemma_connect(second_label, first);
}

/// What is linked after a disconnect: what was linked before, but for the
/// two nodes with each other.
pub proof fn lemma_disconnected_links(table: Map<u64, NodeView>, first: u64, second: u64)
    requires
        table.contains_key(first),
        table.contains_key(second),
    ensures
        normal(table) ==> normal(disconnected(table, first, second)),
        disconnected(table, first, second).dom() == table.dom(),
        forall|from: u64, to: u64| #[trigger]
            linked(disconnected(table, first, second), from, to) <==> linked(table, from, to) && !(
            from == first && to == second) && !(from == second && to == first),
{
    let half = table.insert(first, table[first].remove_connection(second));
    let after = disconnected(table, first, second);
    table[first].lemma_remove_connection(second);
    half[second].lemma_remove_connection(first);
    assert(after.dom() =~= table.dom());
}

/// Disconnecting two nodes of a consistent table keeps it consistent.
pub proof fn lemma_disconnected_consistent(table: Map<u64, NodeView>, first: u64, second: u64)
    requires
        consistent(table),
        table.contains_key(first),
        table.contains_key(second),
    ensures
        consistent(disconnected(table, first, second)),
{
    let after = disconnected(table, first, second);
    lemma_disconnected_links(table, first, second);
    assert forall|from: u64, to: u64| #[trigger] linked(after, from, to) implies linked(
        after,
        to,
        from,
    ) by {
        assert(linked(table, to, from));
    }
    lemma_symmetric_integrity(after);
}

/// After a disconnect neither of the two nodes is a neighbour of the other,
/// under any label.
pub proof fn lemma_disconnected_clears(
    table: Map<u64, NodeView>,
    first: u64,
    second: u64,
    label: Seq<char>,
)
    requires
        table.contains_key(first),
        table.contains_key(second),
    ensures
        !neighbors(disconnected(table, first, second), first, label).contains(second),
        !neighbors(disconnected(table, first, second), second, label).contains(first),
{
    let half = table.insert(first, table[first].remove_connection(second));
    table[first].lemma_remove_connection(second);
    half[second].lemma_remove_connection(first);
}

/// What is linked after a node was removed: what was linked before, but for
/// the links from and to that node.
pub proof fn lemma_removed_links(table: Map<u64, NodeView>, id: u64)
    ensures
        normal(removed(table, id)),
        forall|from: u64, to: u64| #[trigger]
            linked(removed(table, id), from, to) <==> linked(table, from, to) && from != id && to
                != id,
{
    let after = removed(table, id);
    assert forall|other: u64| #[trigger]
        after.contains_key(other) implies after[other].normal() by {
        table[other].lemma_remove_connection(id);
    }
    assert forall|from: u64, to: u64| #[trigger]
        linked(after, from, to) <==> linked(table, from, to) && from != id && to != id by {
        if table.contains_key(from) {
            table[from].lemma_remove_connection(id);
        }
    }
}

/// Removing a node from a consistent table keeps it consistent.
pub proof fn lemma_removed_consistent(table: Map<u64, NodeView>, id: u64)
    requires
        consistent(table),
    ensures
        consistent(removed(table, id)),
{
    let after = removed(table, id);
    lemma_removed_links(table, id);
    assert forall|from: u64, to: u64| #[trigger] linked(after, from, to) implies linked(
        after,
        to,
        from,
    ) by {
        assert(linked(table, to, from));
    }
    lemma_symmetric_integrity(after);
}

/// After node `id` was removed no node has it as a neighbour under any
/// label, and it has no neighbours itself.
pub proof fn lemma_removed_clears(table: Map<u64, NodeView>, id: u64, other: u64, label: Seq<char>)
    ensures
        !neighbors(removed(table, id), other, label).contains(id),
        neighbors(removed(table, id), id, label) == Set::<u64>::empty(),
{
    if table.contains_key(other) {
        table[other].lemma_remove_connection(id);
    }
}

/// A label has no neighbours exactly where it is not in use: what `select`
/// returns for a label that lost its neighbours and for one that never had
/// any is the same empty set.
pub proof fn lemma_no_neighbors_iff_unused(table: Map<u64, NodeView>, id: u64, label: Seq<char>)
    requires
        normal(table),
        table.contains_key(id),
    ensures
        neighbors(table, id, label) == Set::<u64>::empty() <==> !table[id].links.contains_key(
            label,
        ),
{
    if table[id].links.contains_key(label) {
        assert(!table[id].links[label].is_empty());
    }
}

/// A label whose last neighbour was taken away is like a label that was
/// never in use: the node is what it was before the neighbour came.
pub proof fn lemma_emptied_label_is_unused(node: NodeView, label: Seq<char>, id: u64)
    requires
        node.normal(),
        !node.points_to(id),
    ensures
        node.connect(label, id).remove_connection(id) == node,
{
    let there = node.connect(label, id);
    let back = there.remove_connection(id);
    node.lemma_connect(label, id);
    there.lemma_remove_connection(id);
    assert forall|l: Seq<char>| back.links.contains_key(l) == node.links.contains_key(l) by {
        if node.links.contains_key(l) {
            assert(!node.links[l].contains(id));
            assert(!node.links[l].is_empty());
            let x = choose|x: u64| node.links[l].contains(x);
            if l == label {
                assert(there.links[l].remove(id).contains(x));
            } else {
                assert(there.links[l].remove(id).contains(x));
            }
        }
        if back.links.contains_key(l) && l == label {
            let x = choose|x: u64| there.links[l].remove(id).contains(x);
            assert(node.neighbors(label).contains(x));
        }
    }
    assert forall|l: Seq<char>| #[trigger] back.links.contains_key(l) implies back.links[l]
        == node.links[l] by {
        assert(!node.links[l].contains(id));
        assert(back.links[l] =~= node.links[l]);
    }
    assert(back.links =~= node.links);
}

/// One operation on the database.
pub enum Operation {
    /// A node with payload `value` is created under `id`.
    Create { id: u64, value: Seq<u8> },
    /// Two nodes are connected, each under the label of its side.
    Connect { first: u64, first_label: Seq<char>, second: u64, second_label: Seq<char> },
    /// Every link between two nodes is cut.
    Disconnect { first: u64, second: u64 },
    /// The node under `id` is removed.
    Remove { id: u64 },
}

/// The table after one operation on a database that has issued the keys
/// `issued`. An operation that is refused (a create under a key that was
/// issued before, a connect or disconnect with a missing node, a remove of
/// a missing node) leaves the table as it is.
pub open spec fn applied(table: Map<u64, NodeView>, issued: Set<u64>, operation: Operation) -> Map<
    u64,
    NodeView,
> {
    match operation {
        Operation::Create { id, value } => if issued.contains(id) {
            table
        } else {
            created(table, id, value)
        },
        Operation::Connect { first, first_label, second, second_label } => if table.contains_key(
            first,
        ) && table.contains_key(second) {
            connected(table, first, first_label, second, second_label)
        } else {
            table
        },
        Operation::Disconnect { first, second } => if table.contains_key(first)
            && table.contains_key(second) {
            disconnected(table, first, second)
        } else {
            table
        },
        Operation::Remove { id } => if table.contains_key(id) {
            removed(table, id)
        } else {
            table
        },
    }
}

/// The keys issued after one operation: a create adds its key, and no
/// operation takes one away.
pub open spec fn noted(issued: Set<u64>, operation: Operation) -> Set<u64> {
    match operation {
        Operation::Create { id, value } => issued.insert(id),
        _ => issued,
    }
}

/// The keys issued after a run of operations.
pub open spec fn noted_all(issued: Set<u64>, operations: Seq<Operation>) -> Set<u64>
    decreases operations.len(),
{
    if operations.len() == 0 {
        issued
    } else {
        noted(noted_all(issued, operations.drop_last()), operations.last())
    }
}

/// The table after a run of operations, one after the other.
pub open spec fn applied_all(
    table: Map<u64, NodeView>,
    issued: Set<u64>,
    operations: Seq<Operation>,
) -> Map<u64, NodeView>
    decreases operations.len(),
{
    if operations.len() == 0 {
        table
    } else {
        applied(
            applied_all(table, issued, operations.drop_last()),
            noted_all(issued, operations.drop_last()),
            operations.last(),
        )
    }
}

/// Whatever the operation, it keeps a consistent table consistent, and the
/// key of every node among the issued ones.
pub proof fn lemma_applied_consistent(
    table: Map<u64, NodeView>,
    issued: Set<u64>,
    operation: Operation,
)
    requires
        consistent(table),
        table.dom().subset_of(issued),
    ensures
        consistent(applied(table, issued, operation)),
        applied(table, issued, operation).dom().subset_of(noted(issued, operation)),
{
    match operation {
        Operation::Create { id, value } => {
            if !issued.contains(id) {
                lemma_created_consistent(table, id, value);
            }
        },
        Operation::Connect { first, first_label, second, second_label } => {
            if table.contains_key(first) && table.contains_key(second) {
                lemma_connected_consistent(table, first, first_label, second, second_label);
                lemma_connected_links(table, first, first_label, second, second_label);
            }
        },
        Operation::Disconnect { first, second } => {
            if table.contains_key(first) && table.contains_key(second) {
                lemma_disconnected_consistent(table, first, second);
                lemma_disconnected_links(table, first, second);
            }
        },
        Operation::Remove { id } => {
            lemma_removed_consistent(table, id);
        },
    }
}

/// Whatever operations are run on a consistent table, and however many of
/// them, after each one every neighbour of a node is a node of the table.
pub proof fn lemma_integrity_after_each(
    table: Map<u64, NodeView>,
    issued: Set<u64>,
    operations: Seq<Operation>,
    done: int,
)
    requires
        consistent(table),
        table.dom().subset_of(issued),
        0 <= done <= operations.len(),
    ensures
        consistent(applied_all(table, issued, operations.take(done))),
        referential_integrity(applied_all(table, issued, operations.take(done))),
        applied_all(table, issued, operations.take(done)).dom().subset_of(
            noted_all(issued, operations.take(done)),
        ),
    decreases done,
{
    if done > 0 {
        lemma_integrity_after_each(table, issued, operations, done - 1);
        assert(operations.take(done).drop_last() == operations.take(done - 1));
        lemma_applied_consistent(
            applied_all(table, issued, operations.take(done - 1)),
            noted_all(issued, operations.take(done - 1)),
            operations.take(done).last(),
        );
    }
}

/// The operation at place `at` of a run is a create that is carried out:
/// its key was not issued before the run nor by the operations before it.
pub open spec fn creates(issued: Set<u64>, operations: Seq<Operation>, at: int) -> bool {
    &&& 0 <= at < operations.len()
    &&& operations[at] matches Operation::Create { id, .. }
    &&& !noted_all(issued, operations.take(at)).contains(id)
}

/// The key of the create at place `at` of a run; `0` where that
/// operation is no create.
pub open spec fn created_key(operations: Seq<Operation>, at: int) -> u64 {
    match operations[at] {
        Operation::Create { id, .. } => id,
        _ => 0,
    }
}

/// A key that was issued stays issued, whatever is run afterwards.
pub proof fn lemma_noted_grows(issued: Set<u64>, operations: Seq<Operation>, from: int, to: int)
    requires
        0 <= from <= to <= operations.len(),
    ensures
        issued.subset_of(noted_all(issued, operations.take(from))),
        noted_all(issued, operations.take(from)).subset_of(noted_all(issued, operations.take(to))),
    decreases to,
{
    if from > 0 {
        lemma_noted_grows(issued, operations, from - 1, from - 1);
        assert(operations.take(from).drop_last() == operations.take(from - 1));
    }
    if from < to {
        lemma_noted_grows(issued, operations, from, to - 1);
        assert(operations.take(to).drop_last() == operations.take(to - 1));
    }
}

/// No two creates of a run return the same key, whatever else is run
/// between them, removes too; and none returns a key that was issued
/// before the run.
pub proof fn lemma_created_keys_unique(
    issued: Set<u64>,
    operations: Seq<Operation>,
    first: int,
    second: int,
)
    requires
        creates(issued, operations, first),
        creates(issued, operations, second),
        first < second,
    ensures
        created_key(operations, first) != created_key(operations, second),
        !issued.contains(created_key(operations, first)),
        !issued.contains(created_key(operations, second)),
{
    lemma_noted_grows(issued, operations, first, first);
    lemma_noted_grows(issued, operations, second, second);
    lemma_noted_grows(issued, operations, first + 1, second);
    assert(operations.take(first + 1).drop_last() == operations.take(first));
    assert(operations.take(first + 1).last() == operations[first]);
    assert(noted_all(issued, operations.take(first + 1)).contains(created_key(operations, first)));
}

/// No key comes twice in the listing.
pub open spec fn distinct_keys(entries: Seq<(u64, NodeView)>) -> bool {
    forall|i: int, j: int|
        0 <= i < j < entries.len() ==> (#[trigger] entries[i]).0 != (#[trigger] entries[j]).0
}

/// The table that a listing of nodes, each with its key, stands for.
pub open spec fn table_of(entries: Seq<(u64, NodeView)>) -> Map<u64, NodeView>
    decreases entries.len(),
{
    if entries.len() == 0 {
        Map::empty()
    } else {
        table_of(entries.drop_last()).insert(entries.last().0, entries.last().1)
    }
}

/// `entries` lists the nodes of `table`, each once.
pub open spec fn lists(entries: Seq<(u64, NodeView)>, table: Map<u64, NodeView>) -> bool {
    &&& distinct_keys(entries)
    &&& forall|i: int|
        0 <= i < entries.len() ==> table.contains_key((#[trigger] entries[i]).0)
            && table[entries[i].0] == entries[i].1
    &&& forall|id: u64| #[trigger]
        table.contains_key(id) ==> exists|i: int|
            0 <= i < entries.len() && (#[trigger] entries[i]).0 == id
}

/// The keys of the table of a listing are the keys of the listing.
pub proof fn lemma_table_of_keys(entries: Seq<(u64, NodeView)>, id: u64)
    ensures
        table_of(entries).contains_key(id) <==> exists|i: int|
            0 <= i < entries.len() && (#[trigger] entries[i]).0 == id,
    decreases entries.len(),
{
    if entries.len() > 0 {
        let front = entries.drop_last();
        lemma_table_of_keys(front, id);
        if table_of(entries).contains_key(id) {
            if entries.last().0 == id {
                assert(entries[entries.len() - 1].0 == id);
            } else {
                let i = choose|i: int| 0 <= i < front.len() && (#[trigger] front[i]).0 == id;
                assert(entries[i].0 == id);
            }
        }
        if exists|i: int| 0 <= i < entries.len() && (#[trigger] entries[i]).0 == id {
            let i = choose|i: int| 0 <= i < entries.len() && (#[trigger] entries[i]).0 == id;
            if i < entries.len() - 1 {
                assert(front[i].0 == id);
            }
        }
    }
}

/// A listing without a repeated key lists the table it stands for, and no
/// other table.
pub proof fn lemma_table_of_lists(entries: Seq<(u64, NodeView)>)
    requires
        distinct_keys(entries),
    ensures
        lists(entries, table_of(entries)),
        forall|table: Map<u64, NodeView>| lists(entries, table) ==> table == table_of(entries),
    decreases entries.len(),
{
    let whole = table_of(entries);
    assert forall|id: u64| #[trigger] whole.contains_key(id) implies exists|i: int|
        0 <= i < entries.len() && (#[trigger] entries[i]).0 == id by {
        lemma_table_of_keys(entries, id);
    }
    if entries.len() > 0 {
        let front = entries.drop_last();
        assert forall|i: int, j: int| 0 <= i < j < front.len() implies (#[trigger] front[i]).0 != (
        #[trigger] front[j]).0 by {
            assert(entries[i].0 != entries[j].0);
        }
        lemma_table_of_lists(front);
        assert forall|i: int| 0 <= i < entries.len() implies whole.contains_key(
            (#[trigger] entries[i]).0,
        ) && whole[entries[i].0] == entries[i].1 by {
            if i < entries.len() - 1 {
                assert(front[i] == entries[i]);
                assert(entries[i].0 != entries[entries.len() - 1].0);
            }
        }
    }
    assert forall|table: Map<u64, NodeView>| lists(entries, table) implies table == whole by {
        assert forall|id: u64| table.contains_key(id) == whole.contains_key(id) by {
            lemma_table_of_keys(entries, id);
        }
        assert forall|id: u64| #[trigger] table.contains_key(id) implies table[id] == whole[id] by {
            let i = choose|i: int| 0 <= i < entries.len() && (#[trigger] entries[i]).0 == id;
            assert(whole[entries[i].0] == entries[i].1);
        }
        assert(table =~= whole);
    }
}

/// A listing of a consistent table can be loaded, and gives that table
/// back: what is saved is what is loaded.
pub proof fn lemma_listing_round_trip(table: Map<u64, NodeView>, entries: Seq<(u64, NodeView)>)
    requires
        consistent(table),
        lists(entries, table),
    ensures
        distinct_keys(entries),
        table_of(entries) == table,
        consistent(table_of(entries)),
{
    lemma_table_of_lists(entries);
}

} // verus!
