//! What holds of every reconciliation.
//!
//! The functions here state, over the models of `reconcile`, what a batch
//! and the node map after it are guaranteed to satisfy, and prove it from the
//! definition of the walk. The guarantees of one reconciliation are also in
//! the contract of `reconcile`; those that speak of two reconciliations are
//! here only.

use crate::node::{graph_sorted, NodeView};
use crate::reconcile::{
    holds_equal, is_create, reconcile_batch, reconcile_map, reconcile_stream, root_hashes, select,
    visit_all, visit_order, InstructionView, NodeMapView,
};
use crate::value::{distinct_names, json_eq, keys_sorted, lemma_sorted_keys_distinct};
use crate::walk::{
    distinct_creates, distinct_hashes, distinct_props, holds_sent, lemma_order_covers_children,
    lemma_order_covers_queue, lemma_order_distinct, lemma_order_sorted, lemma_select_distinct,
    lemma_select_holds, lemma_select_prefix, lemma_select_source, lemma_visit_unchanged,
    lemma_visits_create, lemma_visits_create_once, lemma_visits_domain, lemma_visits_give,
    lemma_visits_hold, visits,
};
use vstd::prelude::*;

verus! {

/// Whether `instruction` creates the node with hash `hash`.
pub open spec fn creates(instruction: InstructionView, hash: i32) -> bool {
    instruction matches InstructionView::Create(created, _) && created == hash
}

/// Whether the node with hash `hash` is known where the instruction at `i`
/// of `batch` is applied: `map` holds it, or an instruction before `i`
/// creates it.
pub open spec fn known_at(
    batch: Seq<InstructionView>,
    map: NodeMapView,
    i: int,
    hash: i32,
) -> bool {
    map.contains_key(hash) || exists|j: int|
        0 <= j < i && j < batch.len() && creates(#[trigger] batch[j], hash)
}

/// Whether every node that the instruction at `i` of `batch` names is known
/// where it is applied.
pub open spec fn names_known(batch: Seq<InstructionView>, map: NodeMapView, i: int) -> bool {
    match batch[i] {
        InstructionView::Create(_, _) => true,
        InstructionView::AppendChild(parent, child, _) => known_at(batch, map, i, parent)
            && known_at(batch, map, i, child),
        InstructionView::SetProperty(hash, _, _) => known_at(batch, map, i, hash),
        InstructionView::ActivateRoots(roots) => forall|r: int|
            0 <= r < roots.len() ==> known_at(batch, map, i, #[trigger] roots[r]),
        InstructionView::Commit => true,
    }
}

/// Whether `batch` can be applied in one pass to a runtime that holds the
/// nodes of `map`: no instruction names a node that the runtime does not
/// hold and that no earlier instruction has created.
pub open spec fn created_before_use(batch: Seq<InstructionView>, map: NodeMapView) -> bool {
    forall|i: int| 0 <= i < batch.len() ==> #[trigger] names_known(batch, map, i)
}

/// Whether `batch` creates no node that `map` holds, and no node twice.
pub open spec fn creates_once(batch: Seq<InstructionView>, map: NodeMapView) -> bool {
    &&& distinct_creates(batch)
    &&& forall|i: int|
        0 <= i < batch.len() && is_create(#[trigger] batch[i]) ==> !map.contains_key(
            batch[i]->Create_0,
        )
}

/// Whether `instruction`, if it sets a property, sets one for which `map`
/// holds no equal value.
pub open spec fn changes(instruction: InstructionView, map: NodeMapView) -> bool {
    instruction matches InstructionView::SetProperty(hash, name, value) ==> !(map.contains_key(hash)
        && holds_equal(map[hash].props, name, value))
}

/// Whether `batch` sets no property for which `map` holds an equal value.
pub open spec fn sends_changes_only(batch: Seq<InstructionView>, map: NodeMapView) -> bool {
    forall|i: int| 0 <= i < batch.len() ==> changes(#[trigger] batch[i], map)
}

/// Whether `instruction` ends a batch: it activates roots or commits.
pub open spec fn is_closing(instruction: InstructionView) -> bool {
    instruction is ActivateRoots || instruction is Commit
}

/// Whether `batch` is in order: the creations come first, and the batch ends
/// with the activation of `roots`, in their order, and then the commit,
/// which occur nowhere else.
pub open spec fn in_order(batch: Seq<InstructionView>, roots: Seq<i32>) -> bool {
    &&& batch.len() >= 2
    &&& batch[batch.len() - 1] == InstructionView::Commit
    &&& batch[batch.len() - 2] == InstructionView::ActivateRoots(roots)
    &&& forall|i: int| 0 <= i < batch.len() - 2 ==> !is_closing(#[trigger] batch[i])
    &&& forall|i: int, j: int|
        0 <= i < j < batch.len() && is_create(#[trigger] batch[j]) ==> is_create(
            #[trigger] batch[i],
        )
}

/// Whether the properties of every node that a walk from `roots` visits are
/// in the order of their names.
pub open spec fn walk_sorted(roots: Seq<NodeView>) -> bool {
    forall|t: int|
        0 <= t < visit_order(roots, Set::empty()).len() ==> keys_sorted(
            (#[trigger] visit_order(roots, Set::empty())[t]).props,
        )
}

/// In a graph whose properties are in order, so are the properties of every
/// node that a walk from its roots visits.
pub proof fn lemma_walk_sorted(roots: Seq<NodeView>)
    requires
        graph_sorted(roots),
    ensures
        walk_sorted(roots),
{
    assert forall|t: int| 0 <= t < visit_order(roots, Set::empty()).len() implies keys_sorted(
        (#[trigger] visit_order(roots, Set::empty())[t]).props,
    ) by {
        lemma_order_sorted(roots, Set::empty(), t);
    }
}

/// The nodes that a walk from `roots` visits have distinct hashes, and none
/// has two properties of the same name.
pub proof fn lemma_walk_distinct(roots: Seq<NodeView>)
    requires
        walk_sorted(roots),
    ensures
        distinct_hashes(visit_order(roots, Set::empty())),
        distinct_props(visit_order(roots, Set::empty())),
{
    let order = visit_order(roots, Set::empty());
    assert forall|s: int, t: int|
        0 <= s < order.len() && 0 <= t < order.len() && (#[trigger] order[s]).hash == (
        #[trigger] order[t]).hash implies s == t by {
        if s < t {
            lemma_order_distinct(roots, Set::empty(), s, t);
        } else if t < s {
            lemma_order_distinct(roots, Set::empty(), t, s);
        }
    }
    assert forall|t: int| 0 <= t < order.len() implies distinct_names(
        (#[trigger] order[t]).props,
    ) by {
        lemma_sorted_keys_distinct(order[t].props);
    }
}

/// The instructions of the visits of a walk from `roots`, in the order in
/// which they are given.
pub open spec fn walk_stream(map: NodeMapView, roots: Seq<NodeView>) -> Seq<InstructionView> {
    let order = visit_order(roots, Set::empty());
    visit_all(map, order, order.len()).1
}

/// A batch is made of the creations of the walk, then its other
/// instructions, then the activation of the roots and the commit.
pub proof fn lemma_batch_parts(map: NodeMapView, roots: Seq<NodeView>)
    ensures
        reconcile_batch(map, roots) == select(
            walk_stream(map, roots),
            true,
            walk_stream(map, roots).len(),
        ) + select(walk_stream(map, roots), false, walk_stream(map, roots).len()) + seq![
            InstructionView::ActivateRoots(root_hashes(roots)),
            InstructionView::Commit,
        ],
{
    let given = walk_stream(map, roots);
    let stream = reconcile_stream(map, roots);
    let n = given.len();
    let k = n as int;
    lemma_select_prefix(stream, given, true, n);
    lemma_select_prefix(stream, given, false, n);
    assert(select(stream, true, n + 2) == select(stream, true, n + 1));
    assert(select(stream, false, n + 2) == select(stream, false, n + 1).push(stream[k + 1]));
}

/// Every instruction of a batch but the last two is an instruction of the
/// walk, and it is a creation if and only if it stands among the first
/// ones, as many as the walk has creations. Returns its place in the walk.
pub proof fn lemma_batch_source(map: NodeMapView, roots: Seq<NodeView>, i: int) -> (x: int)
    requires
        0 <= i < reconcile_batch(map, roots).len() - 2,
    ensures
        0 <= x < walk_stream(map, roots).len(),
        reconcile_batch(map, roots)[i] == walk_stream(map, roots)[x],
        is_create(walk_stream(map, roots)[x]) <==> i < select(
            walk_stream(map, roots),
            true,
            walk_stream(map, roots).len(),
        ).len(),
{
    let given = walk_stream(map, roots);
    let first = select(given, true, given.len());
    lemma_batch_parts(map, roots);
    if i < first.len() {
        lemma_select_source(given, true, given.len(), i)
    } else {
        lemma_select_source(given, false, given.len(), i - first.len())
    }
}

/// A node that the walk visits is known wherever an instruction that is no
/// creation is applied.
proof fn lemma_visited_known(map: NodeMapView, roots: Seq<NodeView>, t: int, i: int)
    requires
        walk_sorted(roots),
        0 <= t < visit_order(roots, Set::empty()).len(),
        select(walk_stream(map, roots), true, walk_stream(map, roots).len()).len() <= i,
    ensures
        known_at(reconcile_batch(map, roots), map, i, visit_order(roots, Set::empty())[t].hash),
{
    let order = visit_order(roots, Set::empty());
    let given = walk_stream(map, roots);
    let batch = reconcile_batch(map, roots);
    if !map.contains_key(order[t].hash) {
        lemma_walk_distinct(roots);
        let x = lemma_visits_create(map, order, order.len(), t);
        let y = lemma_select_holds(given, true, given.len(), x);
        lemma_batch_parts(map, roots);
        assert(creates(batch[y], order[t].hash));
    }
}

/// A hash that the walk visits is known wherever an instruction that is no
/// creation is applied.
proof fn lemma_hash_known(map: NodeMapView, roots: Seq<NodeView>, hash: i32, i: int)
    requires
        walk_sorted(roots),
        visits(visit_order(roots, Set::empty()), visit_order(roots, Set::empty()).len(), hash),
        select(walk_stream(map, roots), true, walk_stream(map, roots).len()).len() <= i,
    ensures
        known_at(reconcile_batch(map, roots), map, i, hash),
{
    let order = visit_order(roots, Set::empty());
    let t = choose|t: int| 0 <= t < order.len() && (#[trigger] order[t]).hash == hash;
    lemma_visited_known(map, roots, t, i);
}

/// Before the creations are moved to the front, too, the instructions end
/// with the activation of the roots and then the commit.
pub proof fn lemma_stream_closes(map: NodeMapView, roots: Seq<NodeView>)
    ensures
        reconcile_stream(map, roots).len() >= 2,
        reconcile_stream(map, roots)[reconcile_stream(map, roots).len() - 2]
            == InstructionView::ActivateRoots(root_hashes(roots)),
        reconcile_stream(map, roots)[reconcile_stream(map, roots).len() - 1]
            == InstructionView::Commit,
{
}

/// A batch is in order: creations first, then the other instructions of the
/// walk, then the activation of the roots in the order given, then the
/// commit.
pub proof fn lemma_batch_in_order(map: NodeMapView, roots: Seq<NodeView>)
    requires
        walk_sorted(roots),
    ensures
        in_order(reconcile_batch(map, roots), root_hashes(roots)),
{
    let order = visit_order(roots, Set::empty());
    let batch = reconcile_batch(map, roots);
    lemma_batch_parts(map, roots);
    lemma_walk_distinct(roots);
    assert forall|i: int| 0 <= i < batch.len() - 2 implies !is_closing(#[trigger] batch[i]) by {
        let x = lemma_batch_source(map, roots, i);
        lemma_visits_give(map, order, order.len(), x);
    }
    assert forall|i: int, j: int|
        0 <= i < j < batch.len() && is_create(#[trigger] batch[j]) implies is_create(
        #[trigger] batch[i],
    ) by {
        lemma_batch_source(map, roots, j);
        lemma_batch_source(map, roots, i);
    }
}

/// No instruction of a batch names a node that the map does not hold and
/// that no earlier instruction of the batch has created.
pub proof fn lemma_batch_created_before_use(map: NodeMapView, roots: Seq<NodeView>)
    requires
        walk_sorted(roots),
    ensures
        created_before_use(reconcile_batch(map, roots), map),
{
    let order = visit_order(roots, Set::empty());
    let batch = reconcile_batch(map, roots);
    lemma_batch_parts(map, roots);
    lemma_walk_distinct(roots);
    assert forall|i: int| 0 <= i < batch.len() implies #[trigger] names_known(batch, map, i) by {
        if i == batch.len() - 2 {
            let hashes = root_hashes(roots);
            assert forall|r: int| 0 <= r < hashes.len() implies known_at(
                batch,
                map,
                i,
                #[trigger] hashes[r],
            ) by {
                lemma_order_covers_queue(roots, Set::empty(), r);
                lemma_hash_known(map, roots, roots[r].hash, i);
            }
        } else if i < batch.len() - 2 {
            let x = lemma_batch_source(map, roots, i);
            let t = lemma_visits_give(map, order, order.len(), x);
            match batch[i] {
                InstructionView::AppendChild(parent, child, channel) => {
                    lemma_visited_known(map, roots, t, i);
                    let c = choose|c: int|
                        0 <= c < order[t].children.len() && (#[trigger] order[t].children[c]).hash
                            == child && order[t].children[c].output_channel == channel;
                    lemma_order_covers_children(roots, Set::empty(), t, c);
                    lemma_hash_known(map, roots, child, i);
                },
                InstructionView::SetProperty(hash, name, value) => {
                    lemma_visited_known(map, roots, t, i);
                },
                _ => {},
            }
        }
    }
}

/// A batch creates no node that the map holds, and no node twice.
pub proof fn lemma_batch_creates_once(map: NodeMapView, roots: Seq<NodeView>)
    requires
        walk_sorted(roots),
    ensures
        creates_once(reconcile_batch(map, roots), map),
{
    let order = visit_order(roots, Set::empty());
    let given = walk_stream(map, roots);
    let batch = reconcile_batch(map, roots);
    lemma_batch_parts(map, roots);
    lemma_walk_distinct(roots);
    assert(distinct_creates(given)) by {
        assert forall|x: int, y: int|
            0 <= x < y < given.len() && is_create(#[trigger] given[x]) && is_create(
                #[trigger] given[y],
            ) implies given[x]->Create_0 != given[y]->Create_0 by {
            lemma_visits_create_once(map, order, order.len(), x, y);
        }
    }
    assert forall|i: int, j: int|
        0 <= i < j < batch.len() && is_create(#[trigger] batch[i]) && is_create(
            #[trigger] batch[j],
        ) implies batch[i]->Create_0 != batch[j]->Create_0 by {
        lemma_batch_source(map, roots, j);
        lemma_batch_source(map, roots, i);
        lemma_select_distinct(given, given.len(), i, j);
    }
    assert forall|i: int| 0 <= i < batch.len() && is_create(#[trigger] batch[i]) implies
        !map.contains_key(batch[i]->Create_0) by {
        let x = lemma_batch_source(map, roots, i);
        lemma_visits_give(map, order, order.len(), x);
    }
}

/// A batch sets no property for which the map holds an equal value.
pub proof fn lemma_batch_sends_changes_only(map: NodeMapView, roots: Seq<NodeView>)
    requires
        walk_sorted(roots),
    ensures
        sends_changes_only(reconcile_batch(map, roots), map),
{
    let order = visit_order(roots, Set::empty());
    let batch = reconcile_batch(map, roots);
    lemma_batch_parts(map, roots);
    lemma_walk_distinct(roots);
    assert forall|i: int| 0 <= i < batch.len() implies changes(#[trigger] batch[i], map) by {
        if i < batch.len() - 2 {
            let x = lemma_batch_source(map, roots, i);
            lemma_visits_give(map, order, order.len(), x);
        }
    }
}

/// A node that is appended to several parents is still created once: where
/// a batch that creates before use, and creates once, appends a child that
/// the map does not hold, exactly one instruction of the batch creates that
/// child, and it stands before the append. Returns its place.
pub proof fn lemma_child_created_exactly_once(
    batch: Seq<InstructionView>,
    map: NodeMapView,
    i: int,
) -> (j: int)
    requires
        created_before_use(batch, map),
        creates_once(batch, map),
        0 <= i < batch.len(),
        batch[i] is AppendChild,
        !map.contains_key(batch[i]->AppendChild_1),
    ensures
        0 <= j < i,
        creates(batch[j], batch[i]->AppendChild_1),
        forall|k: int|
            0 <= k < batch.len() && creates(#[trigger] batch[k], batch[i]->AppendChild_1) ==> k
                == j,
{
    let child = batch[i]->AppendChild_1;
    assert(names_known(batch, map, i));
    let j = choose|j: int| 0 <= j < i && j < batch.len() && creates(#[trigger] batch[j], child);
    assert forall|k: int| 0 <= k < batch.len() && creates(#[trigger] batch[k], child) implies k
        == j by {
        assert(is_create(batch[k]) && is_create(batch[j]));
    }
    j
}

/// Whether `after` holds every node that `before` holds, with the same kind
/// and the same edges: nothing is forgotten, and what a node is does not
/// change.
pub open spec fn map_grows(before: NodeMapView, after: NodeMapView) -> bool {
    forall|hash: i32| #[trigger]
        before.contains_key(hash) ==> {
            &&& after.contains_key(hash)
            &&& after[hash].kind == before[hash].kind
            &&& after[hash].children == before[hash].children
        }
}

/// Visits forget no node and change neither the kind nor the edges of one.
proof fn lemma_visits_grow(map: NodeMapView, order: Seq<NodeView>, n: nat, hash: i32)
    requires
        n <= order.len(),
        map.contains_key(hash),
    ensures
        visit_all(map, order, n).0.contains_key(hash),
        visit_all(map, order, n).0[hash].kind == map[hash].kind,
        visit_all(map, order, n).0[hash].children == map[hash].children,
    decreases n,
{
    if n > 0 {
        lemma_visits_grow(map, order, (n - 1) as nat, hash);
    }
}

/// Whether some instruction of `batch` creates the node with hash `hash`.
pub open spec fn creates_some(batch: Seq<InstructionView>, hash: i32) -> bool {
    exists|j: int| 0 <= j < batch.len() && creates(#[trigger] batch[j], hash)
}

/// Whether `after` holds the nodes that `before` holds and those that
/// `batch` creates, and no others. So a map that was empty when the runtime
/// was holds, after any number of batches, the nodes that have been created.
pub open spec fn holds_created(
    before: NodeMapView,
    after: NodeMapView,
    batch: Seq<InstructionView>,
) -> bool {
    forall|hash: i32| #[trigger]
        after.contains_key(hash) <==> before.contains_key(hash) || creates_some(batch, hash)
}

/// After a reconciliation the map holds the nodes that it held and those
/// that the batch creates, and no others.
pub proof fn lemma_map_holds_created(map: NodeMapView, roots: Seq<NodeView>)
    requires
        walk_sorted(roots),
    ensures
        holds_created(map, reconcile_map(map, roots), reconcile_batch(map, roots)),
{
    let order = visit_order(roots, Set::empty());
    let given = walk_stream(map, roots);
    let batch = reconcile_batch(map, roots);
    let after = reconcile_map(map, roots);
    lemma_batch_parts(map, roots);
    lemma_walk_distinct(roots);
    assert forall|hash: i32| #[trigger]
        after.contains_key(hash) <==> map.contains_key(hash) || creates_some(batch, hash) by {
        lemma_visits_domain(map, order, order.len(), hash);
        if visits(order, order.len(), hash) && !map.contains_key(hash) {
            let t = choose|t: int| 0 <= t < order.len() && (#[trigger] order[t]).hash == hash;
            let x = lemma_visits_create(map, order, order.len(), t);
            let y = lemma_select_holds(given, true, given.len(), x);
            assert(creates(batch[y], hash));
        }
        if creates_some(batch, hash) {
            let j = choose|j: int| 0 <= j < batch.len() && creates(#[trigger] batch[j], hash);
            let x = lemma_batch_source(map, roots, j);
            let t = lemma_visits_give(map, order, order.len(), x);
            assert(order[t].hash == hash);
        }
    }
}

/// A reconciliation forgets no node that the map holds, and changes neither
/// the kind nor the edges of one.
pub proof fn lemma_map_grows(map: NodeMapView, roots: Seq<NodeView>)
    ensures
        map_grows(map, reconcile_map(map, roots)),
{
    let order = visit_order(roots, Set::empty());
    assert forall|hash: i32| #[trigger] map.contains_key(hash) implies {
        &&& reconcile_map(map, roots).contains_key(hash)
        &&& reconcile_map(map, roots)[hash].kind == map[hash].kind
        &&& reconcile_map(map, roots)[hash].children == map[hash].children
    } by {
        lemma_visits_grow(map, order, order.len(), hash);
    }
}

/// When a graph has been reconciled, the visits of a second walk over it
/// give no instruction and leave the map as it is.
proof fn lemma_second_walk_quiet(map: NodeMapView, roots: Seq<NodeView>, n: nat)
    requires
        walk_sorted(roots),
        n <= visit_order(roots, Set::empty()).len(),
    ensures
        visit_all(reconcile_map(map, roots), visit_order(roots, Set::empty()), n) == (
            reconcile_map(map, roots),
            Seq::<InstructionView>::empty(),
        ),
    decreases n,
{
    if n > 0 {
        let order = visit_order(roots, Set::empty());
        let after = reconcile_map(map, roots);
        let node = order[n - 1];
        lemma_second_walk_quiet(map, roots, (n - 1) as nat);
        lemma_walk_distinct(roots);
        lemma_visits_domain(map, order, order.len(), node.hash);
        assert forall|i: int| 0 <= i < node.props.len() implies holds_equal(
            after[node.hash].props,
            (#[trigger] node.props[i]).0,
            node.props[i].1,
        ) by {
            lemma_visits_hold(map, order, order.len(), n - 1, i);
        }
        lemma_visit_unchanged(after, node);
    }
}

/// Reconciling is idempotent: when a graph has been reconciled, a second
/// reconciliation of the same graph leaves the node map as it is, and its
/// batch creates nothing, appends nothing and sets nothing. It holds the
/// activation of the roots and the commit only.
pub proof fn lemma_reconcile_idempotent(map: NodeMapView, roots: Seq<NodeView>)
    requires
        walk_sorted(roots),
    ensures
        reconcile_map(reconcile_map(map, roots), roots) == reconcile_map(map, roots),
        reconcile_batch(reconcile_map(map, roots), roots) == seq![
            InstructionView::ActivateRoots(root_hashes(roots)),
            InstructionView::Commit,
        ],
{
    let order = visit_order(roots, Set::empty());
    let after = reconcile_map(map, roots);
    lemma_second_walk_quiet(map, roots, order.len());
    lemma_batch_parts(after, roots);
}

/// A property is set again only if its value has changed: where a batch has
/// set a property of a node to a value, the batch of the next
/// reconciliation, of whatever graph, sets the same property of the same
/// node only to a value that does not equal the first.
pub proof fn lemma_property_set_again_differs(
    map: NodeMapView,
    first: Seq<NodeView>,
    second: Seq<NodeView>,
    i: int,
    j: int,
)
    requires
        walk_sorted(first),
        walk_sorted(second),
        0 <= i < reconcile_batch(map, first).len(),
        0 <= j < reconcile_batch(reconcile_map(map, first), second).len(),
        reconcile_batch(map, first)[i] is SetProperty,
        reconcile_batch(reconcile_map(map, first), second)[j] is SetProperty,
        reconcile_batch(map, first)[i]->SetProperty_0 == reconcile_batch(
            reconcile_map(map, first),
            second,
        )[j]->SetProperty_0,
        reconcile_batch(map, first)[i]->SetProperty_1 == reconcile_batch(
            reconcile_map(map, first),
            second,
        )[j]->SetProperty_1,
    ensures
        !json_eq(
            reconcile_batch(map, first)[i]->SetProperty_2,
            reconcile_batch(reconcile_map(map, first), second)[j]->SetProperty_2,
        ),
{
    let order = visit_order(first, Set::empty());
    let after = reconcile_map(map, first);
    lemma_batch_parts(map, first);
    lemma_walk_distinct(first);
    let x = lemma_batch_source(map, first, i);
    lemma_visits_give(map, order, order.len(), x);
    assert(holds_sent(after, reconcile_batch(map, first)[i]));
    lemma_batch_sends_changes_only(after, second);
    assert(changes(reconcile_batch(after, second)[j], after));
}

} // verus!
