//! What holds of the steps of a reconciliation: of the comparison of the
//! properties of one node, of one visit, of a run of visits, of the order in
//! which a walk visits the nodes, and of moving the creations to the front.
//!
//! The proofs in `guarantees` rest on these.

use crate::node::{graph_sorted, tree_sorted, NodeView};
use crate::reconcile::{
    diff_props, holds_equal, is_create, lemma_queue_size_concat, lemma_queue_size_first, mount,
    queue_size, select, visit, visit_all, visit_order, InstructionView, NodeMapView,
};
use crate::value::{distinct_names, keys_sorted, lemma_json_eq_reflexive, Json};
use vstd::prelude::*;

verus! {

/// Whether one of the first `n` properties of `props` is named `name`.
pub open spec fn names(props: Seq<(Seq<char>, Json)>, n: nat, name: Seq<char>) -> bool {
    exists|i: int| 0 <= i < n && i < props.len() && (#[trigger] props[i]).0 == name
}

/// A name that is not among the properties compared is stored as before.
pub proof fn lemma_diff_keeps(
    stored: Map<Seq<char>, Json>,
    hash: i32,
    props: Seq<(Seq<char>, Json)>,
    n: nat,
    name: Seq<char>,
)
    requires
        n <= props.len(),
        !names(props, n, name),
    ensures
        diff_props(stored, hash, props, n).0.contains_key(name) == stored.contains_key(name),
        diff_props(stored, hash, props, n).0[name] == stored[name],
    decreases n,
{
    if n > 0 {
        let m = (n - 1) as nat;
        assert(props[n - 1].0 != name);
        assert(!names(props, m, name)) by {
            if names(props, m, name) {
                let i = choose|i: int|
                    0 <= i < m && i < props.len() && (#[trigger] props[i]).0 == name;
                assert(props[i].0 == name);
            }
        }
        lemma_diff_keeps(stored, hash, props, m, name);
    }
}

/// For a property that was compared an equal value is stored afterwards:
/// the value stored before if that was equal, and else the value given.
pub proof fn lemma_diff_holds(
    stored: Map<Seq<char>, Json>,
    hash: i32,
    props: Seq<(Seq<char>, Json)>,
    n: nat,
    i: int,
)
    requires
        n <= props.len(),
        distinct_names(props),
        0 <= i < n,
    ensures
        holds_equal(diff_props(stored, hash, props, n).0, props[i].0, props[i].1),
        diff_props(stored, hash, props, n).0[props[i].0] == if holds_equal(
            stored,
            props[i].0,
            props[i].1,
        ) {
            stored[props[i].0]
        } else {
            props[i].1
        },
    decreases n,
{
    let m = (n - 1) as nat;
    if i < m {
        lemma_diff_holds(stored, hash, props, m, i);
        assert(props[n - 1].0 != props[i].0);
    } else {
        assert(!names(props, m, props[i].0)) by {
            if names(props, m, props[i].0) {
                let j = choose|j: int|
                    0 <= j < m && j < props.len() && (#[trigger] props[j]).0 == props[i].0;
                assert(props[j].0 == props[i].0);
            }
        }
        lemma_diff_keeps(stored, hash, props, m, props[i].0);
        lemma_json_eq_reflexive(props[i].1);
    }
}

/// Every instruction of a comparison sets one of the properties compared,
/// one for which no equal value was stored. Returns the place of that
/// property.
pub proof fn lemma_diff_sent(
    stored: Map<Seq<char>, Json>,
    hash: i32,
    props: Seq<(Seq<char>, Json)>,
    n: nat,
    x: int,
) -> (i: int)
    requires
        n <= props.len(),
        distinct_names(props),
        0 <= x < diff_props(stored, hash, props, n).1.len(),
    ensures
        0 <= i < n,
        diff_props(stored, hash, props, n).1[x] == InstructionView::SetProperty(
            hash,
            props[i].0,
            props[i].1,
        ),
        !holds_equal(stored, props[i].0, props[i].1),
    decreases n,
{
    let m = (n - 1) as nat;
    let given = diff_props(stored, hash, props, m).1;
    if x < given.len() {
        lemma_diff_sent(stored, hash, props, m, x)
    } else {
        assert(!names(props, m, props[n - 1].0)) by {
            if names(props, m, props[n - 1].0) {
                let j = choose|j: int|
                    0 <= j < m && j < props.len() && (#[trigger] props[j]).0 == props[n - 1].0;
                assert(props[j].0 == props[n - 1].0);
            }
        }
        lemma_diff_keeps(stored, hash, props, m, props[n - 1].0);
        n - 1
    }
}

/// Where an equal value is stored for every property compared, the
/// comparison sends nothing and leaves what is stored as it is.
pub proof fn lemma_diff_unchanged(
    stored: Map<Seq<char>, Json>,
    hash: i32,
    props: Seq<(Seq<char>, Json)>,
    n: nat,
)
    requires
        n <= props.len(),
        forall|i: int| 0 <= i < n ==> holds_equal(stored, (#[trigger] props[i]).0, props[i].1),
    ensures
        diff_props(stored, hash, props, n) == (stored, Seq::<InstructionView>::empty()),
    decreases n,
{
    if n > 0 {
        lemma_diff_unchanged(stored, hash, props, (n - 1) as nat);
    }
}

/// Whether `instruction` can stem from a visit of `node` where `map` is held:
/// it creates the node or appends one of its children, and the map does not
/// hold the node; or it sets one of its properties, and the map does not
/// hold an equal value for it.
pub open spec fn stems_from(
    instruction: InstructionView,
    map: NodeMapView,
    node: NodeView,
) -> bool {
    match instruction {
        InstructionView::Create(hash, kind) => {
            &&& hash == node.hash
            &&& kind == node.kind
            &&& !map.contains_key(hash)
        },
        InstructionView::AppendChild(parent, child, channel) => {
            &&& parent == node.hash
            &&& !map.contains_key(parent)
            &&& exists|i: int|
                0 <= i < node.children.len() && (#[trigger] node.children[i]).hash == child
                    && node.children[i].output_channel == channel
        },
        InstructionView::SetProperty(hash, name, value) => {
            &&& hash == node.hash
            &&& !(map.contains_key(hash) && holds_equal(map[hash].props, name, value))
            &&& exists|i: int|
                0 <= i < node.props.len() && #[trigger] node.props[i] == (name, value)
        },
        _ => false,
    }
}

/// Whether `map` holds, for the node with hash `hash`, the property that
/// `instruction` sets, if it sets one.
pub open spec fn holds_sent(map: NodeMapView, instruction: InstructionView) -> bool {
    instruction matches InstructionView::SetProperty(hash, name, value) ==> {
        &&& map.contains_key(hash)
        &&& map[hash].props.contains_key(name)
        &&& map[hash].props[name] == value
    }
}

/// Every instruction of a visit stems from it, only the first can be a
/// creation, and what an instruction sets is held afterwards.
pub proof fn lemma_visit_gives(map: NodeMapView, node: NodeView, x: int)
    requires
        distinct_names(node.props),
        0 <= x < visit(map, node).1.len(),
    ensures
        stems_from(visit(map, node).1[x], map, node),
        holds_sent(visit(map, node).0, visit(map, node).1[x]),
        is_create(visit(map, node).1[x]) ==> x == 0,
{
    let known = map.contains_key(node.hash);
    let mounted = if known {
        Seq::<InstructionView>::empty()
    } else {
        mount(node)
    };
    let stored = if known {
        map[node.hash].props
    } else {
        Map::<Seq<char>, Json>::empty()
    };
    let n = node.props.len();
    if x < mounted.len() {
        if x > 0 {
            let child = node.children[x - 1];
            assert(mount(node)[x] == InstructionView::AppendChild(
                node.hash,
                child.hash,
                child.output_channel,
            ));
        }
    } else {
        let i = lemma_diff_sent(stored, node.hash, node.props, n, x - mounted.len());
        lemma_diff_holds(stored, node.hash, node.props, n, i);
        assert(node.props[i] == (node.props[i].0, node.props[i].1));
    }
}

/// After a visit an equal value is held for every property of the node.
pub proof fn lemma_visit_holds(map: NodeMapView, node: NodeView, i: int)
    requires
        distinct_names(node.props),
        0 <= i < node.props.len(),
    ensures
        visit(map, node).0.contains_key(node.hash),
        holds_equal(visit(map, node).0[node.hash].props, node.props[i].0, node.props[i].1),
{
    let stored = if map.contains_key(node.hash) {
        map[node.hash].props
    } else {
        Map::<Seq<char>, Json>::empty()
    };
    lemma_diff_holds(stored, node.hash, node.props, node.props.len(), i);
}

/// A visit of a node that the map holds, with an equal value for each of its
/// properties, gives no instruction and leaves the map as it is.
pub proof fn lemma_visit_unchanged(map: NodeMapView, node: NodeView)
    requires
        map.contains_key(node.hash),
        forall|i: int|
            0 <= i < node.props.len() ==> holds_equal(
                map[node.hash].props,
                (#[trigger] node.props[i]).0,
                node.props[i].1,
            ),
    ensures
        visit(map, node) == (map, Seq::<InstructionView>::empty()),
{
    lemma_diff_unchanged(map[node.hash].props, node.hash, node.props, node.props.len());
}

/// Whether one of the first `n` nodes of `order` has the hash `hash`.
pub open spec fn visits(order: Seq<NodeView>, n: nat, hash: i32) -> bool {
    exists|t: int| 0 <= t < n && t < order.len() && (#[trigger] order[t]).hash == hash
}

/// Whether no two nodes of `order` have the same hash.
pub open spec fn distinct_hashes(order: Seq<NodeView>) -> bool {
    forall|s: int, t: int|
        0 <= s < order.len() && 0 <= t < order.len() && (#[trigger] order[s]).hash == (
        #[trigger] order[t]).hash ==> s == t
}

/// Whether no node of `order` has two properties of the same name.
pub open spec fn distinct_props(order: Seq<NodeView>) -> bool {
    forall|t: int| 0 <= t < order.len() ==> distinct_names((#[trigger] order[t]).props)
}

/// A visit touches nothing but what is held for the node visited.
pub proof fn lemma_visits_keep(map: NodeMapView, order: Seq<NodeView>, n: nat, hash: i32)
    requires
        n <= order.len(),
        !visits(order, n, hash),
    ensures
        visit_all(map, order, n).0.contains_key(hash) == map.contains_key(hash),
        visit_all(map, order, n).0[hash] == map[hash],
    decreases n,
{
    if n > 0 {
        let m = (n - 1) as nat;
        assert(order[n - 1].hash != hash);
        assert(!visits(order, m, hash)) by {
            if visits(order, m, hash) {
                let t = choose|t: int|
                    0 <= t < m && t < order.len() && (#[trigger] order[t]).hash == hash;
                assert(order[t].hash == hash);
            }
        }
        lemma_visits_keep(map, order, m, hash);
    }
}

/// The hashes that the map holds after the first `n` visits are those that
/// it held before and those of the nodes visited.
pub proof fn lemma_visits_domain(map: NodeMapView, order: Seq<NodeView>, n: nat, hash: i32)
    requires
        n <= order.len(),
    ensures
        visit_all(map, order, n).0.contains_key(hash) <==> map.contains_key(hash) || visits(
            order,
            n,
            hash,
        ),
    decreases n,
{
    if n > 0 {
        let m = (n - 1) as nat;
        lemma_visits_domain(map, order, m, hash);
        if visits(order, m, hash) {
            let t = choose|t: int|
                0 <= t < m && t < order.len() && (#[trigger] order[t]).hash == hash;
            assert(order[t].hash == hash);
        }
        if order[n - 1].hash == hash {
            assert(visits(order, n, hash));
        }
        if visits(order, n, hash) {
            let t = choose|t: int|
                0 <= t < n && t < order.len() && (#[trigger] order[t]).hash == hash;
            if t < m {
                assert(order[t].hash == hash);
                assert(visits(order, m, hash));
            }
        }
    }
}

/// A node is not among those visited before it.
proof fn lemma_not_visited_before(order: Seq<NodeView>, t: int)
    requires
        distinct_hashes(order),
        0 <= t < order.len(),
    ensures
        !visits(order, t as nat, order[t].hash),
{
    if visits(order, t as nat, order[t].hash) {
        let s = choose|s: int|
            0 <= s < t && s < order.len() && (#[trigger] order[s]).hash == order[t].hash;
        assert(order[s].hash == order[t].hash);
    }
}

/// After the first `n` visits an equal value is held for every property of
/// every node visited.
pub proof fn lemma_visits_hold(map: NodeMapView, order: Seq<NodeView>, n: nat, t: int, i: int)
    requires
        n <= order.len(),
        distinct_hashes(order),
        distinct_props(order),
        0 <= t < n,
        0 <= i < order[t].props.len(),
    ensures
        visit_all(map, order, n).0.contains_key(order[t].hash),
        holds_equal(
            visit_all(map, order, n).0[order[t].hash].props,
            order[t].props[i].0,
            order[t].props[i].1,
        ),
    decreases n,
{
    let m = (n - 1) as nat;
    let before = visit_all(map, order, m).0;
    if t < m {
        lemma_visits_hold(map, order, m, t, i);
    } else {
        lemma_visit_holds(before, order[t], i);
    }
}

/// Every instruction of the first `n` visits stems from the visit of one of
/// these nodes to the map as it was at the start, and what it sets is held
/// at the end. Returns the place of that node.
pub proof fn lemma_visits_give(map: NodeMapView, order: Seq<NodeView>, n: nat, x: int) -> (t: int)
    requires
        n <= order.len(),
        distinct_hashes(order),
        distinct_props(order),
        0 <= x < visit_all(map, order, n).1.len(),
    ensures
        0 <= t < n,
        stems_from(visit_all(map, order, n).1[x], map, order[t]),
        holds_sent(visit_all(map, order, n).0, visit_all(map, order, n).1[x]),
    decreases n,
{
    let m = (n - 1) as nat;
    let (before, given) = visit_all(map, order, m);
    let node = order[n - 1];
    if x < given.len() {
        let t = lemma_visits_give(map, order, m, x);
        t
    } else {
        lemma_visit_gives(before, node, x - given.len());
        lemma_not_visited_before(order, n - 1);
        lemma_visits_keep(map, order, m, node.hash);
        n - 1
    }
}

/// A node visited is held by the map from the start, or its creation is
/// among the instructions. Returns the place of the creation.
pub proof fn lemma_visits_create(map: NodeMapView, order: Seq<NodeView>, n: nat, t: int) -> (x:
    int)
    requires
        n <= order.len(),
        distinct_hashes(order),
        0 <= t < n,
        !map.contains_key(order[t].hash),
    ensures
        0 <= x < visit_all(map, order, n).1.len(),
        visit_all(map, order, n).1[x] == InstructionView::Create(order[t].hash, order[t].kind),
    decreases n,
{
    let m = (n - 1) as nat;
    let (before, given) = visit_all(map, order, m);
    if t < m {
        lemma_visits_create(map, order, m, t)
    } else {
        lemma_not_visited_before(order, t);
        lemma_visits_keep(map, order, m, order[t].hash);
        given.len() as int
    }
}

/// No two creations among the instructions of the first `n` visits name the
/// same hash.
pub proof fn lemma_visits_create_once(
    map: NodeMapView,
    order: Seq<NodeView>,
    n: nat,
    x: int,
    y: int,
)
    requires
        n <= order.len(),
        distinct_hashes(order),
        distinct_props(order),
        0 <= x < y < visit_all(map, order, n).1.len(),
        visit_all(map, order, n).1[x] is Create,
        visit_all(map, order, n).1[y] is Create,
    ensures
        visit_all(map, order, n).1[x]->Create_0 != visit_all(map, order, n).1[y]->Create_0,
    decreases n,
{
    let m = (n - 1) as nat;
    let (before, given) = visit_all(map, order, m);
    let node = order[n - 1];
    if y < given.len() {
        lemma_visits_create_once(map, order, m, x, y);
    } else {
        lemma_visit_gives(before, node, y - given.len());
        if x < given.len() {
            lemma_visits_give(map, order, m, x);
        } else {
            lemma_visit_gives(before, node, x - given.len());
        }
    }
}

/// A walk visits no node whose hash was visited before the walk.
pub proof fn lemma_order_fresh(queue: Seq<NodeView>, visited: Set<i32>, t: int)
    requires
        0 <= t < visit_order(queue, visited).len(),
    ensures
        !visited.contains(visit_order(queue, visited)[t].hash),
    decreases queue_size(queue),
{
    let node = queue[0];
    let rest = queue.drop_first();
    lemma_queue_size_first(queue);
    lemma_queue_size_concat(rest, node.children);
    if visited.contains(node.hash) {
        lemma_order_fresh(rest, visited, t);
    } else if t > 0 {
        lemma_order_fresh(rest + node.children, visited.insert(node.hash), t - 1);
    }
}

/// A walk visits no hash twice.
pub proof fn lemma_order_distinct(queue: Seq<NodeView>, visited: Set<i32>, s: int, t: int)
    requires
        0 <= s < t < visit_order(queue, visited).len(),
    ensures
        visit_order(queue, visited)[s].hash != visit_order(queue, visited)[t].hash,
    decreases queue_size(queue),
{
    let node = queue[0];
    let rest = queue.drop_first();
    lemma_queue_size_first(queue);
    lemma_queue_size_concat(rest, node.children);
    if visited.contains(node.hash) {
        lemma_order_distinct(rest, visited, s, t);
    } else if s > 0 {
        lemma_order_distinct(rest + node.children, visited.insert(node.hash), s - 1, t - 1);
    } else {
        lemma_order_fresh(rest + node.children, visited.insert(node.hash), t - 1);
    }
}

/// The hash of every node of the queue was visited before the walk or is
/// visited by it.
pub proof fn lemma_order_covers_queue(queue: Seq<NodeView>, visited: Set<i32>, i: int)
    requires
        0 <= i < queue.len(),
    ensures
        visited.contains(queue[i].hash) || visits(
            visit_order(queue, visited),
            visit_order(queue, visited).len(),
            queue[i].hash,
        ),
    decreases queue_size(queue),
{
    let node = queue[0];
    let rest = queue.drop_first();
    let order = visit_order(queue, visited);
    lemma_queue_size_first(queue);
    lemma_queue_size_concat(rest, node.children);
    if visited.contains(node.hash) {
        if i > 0 {
            lemma_order_covers_queue(rest, visited, i - 1);
        }
    } else {
        let later = visit_order(rest + node.children, visited.insert(node.hash));
        assert(order[0].hash == node.hash);
        if i > 0 {
            lemma_order_covers_queue(rest + node.children, visited.insert(node.hash), i - 1);
            if visits(later, later.len(), queue[i].hash) {
                let t = choose|t: int|
                    0 <= t < later.len() && (#[trigger] later[t]).hash == queue[i].hash;
                assert(order[t + 1].hash == queue[i].hash);
            }
        }
    }
}

/// The hash of every child of a node that a walk visits was visited before
/// the walk or is visited by it.
pub proof fn lemma_order_covers_children(
    queue: Seq<NodeView>,
    visited: Set<i32>,
    t: int,
    c: int,
)
    requires
        0 <= t < visit_order(queue, visited).len(),
        0 <= c < visit_order(queue, visited)[t].children.len(),
    ensures
        visited.contains(visit_order(queue, visited)[t].children[c].hash) || visits(
            visit_order(queue, visited),
            visit_order(queue, visited).len(),
            visit_order(queue, visited)[t].children[c].hash,
        ),
    decreases queue_size(queue),
{
    let node = queue[0];
    let rest = queue.drop_first();
    let order = visit_order(queue, visited);
    lemma_queue_size_first(queue);
    lemma_queue_size_concat(rest, node.children);
    if visited.contains(node.hash) {
        lemma_order_covers_children(rest, visited, t, c);
    } else {
        let longer = rest + node.children;
        let later = visit_order(longer, visited.insert(node.hash));
        let hash = order[t].children[c].hash;
        assert(order[0].hash == node.hash);
        if t > 0 {
            lemma_order_covers_children(longer, visited.insert(node.hash), t - 1, c);
        } else {
            lemma_order_covers_queue(longer, visited.insert(node.hash), rest.len() + c);
        }
        if visits(later, later.len(), hash) {
            let u = choose|u: int| 0 <= u < later.len() && (#[trigger] later[u]).hash == hash;
            assert(order[u + 1].hash == hash);
        }
    }
}

/// In a graph whose properties are in order, so are the properties of every
/// node that a walk visits.
pub proof fn lemma_order_sorted(queue: Seq<NodeView>, visited: Set<i32>, t: int)
    requires
        graph_sorted(queue),
        0 <= t < visit_order(queue, visited).len(),
    ensures
        keys_sorted(visit_order(queue, visited)[t].props),
    decreases queue_size(queue),
{
    let node = queue[0];
    let rest = queue.drop_first();
    lemma_queue_size_first(queue);
    lemma_queue_size_concat(rest, node.children);
    assert(tree_sorted(queue[0]));
    assert forall|i: int| 0 <= i < rest.len() implies tree_sorted(#[trigger] rest[i]) by {
        assert(tree_sorted(queue[i + 1]));
    }
    if visited.contains(node.hash) {
        lemma_order_sorted(rest, visited, t);
    } else if t > 0 {
        let longer = rest + node.children;
        assert forall|i: int| 0 <= i < longer.len() implies tree_sorted(#[trigger] longer[i]) by {
            if i < rest.len() {
                assert(longer[i] == rest[i]);
            } else {
                assert(longer[i] == node.children[i - rest.len()]);
            }
        }
        lemma_order_sorted(longer, visited.insert(node.hash), t - 1);
    }
}

/// Every instruction selected is one of those selected from, of the kind
/// asked for. Returns its place in the stream.
pub proof fn lemma_select_source(stream: Seq<InstructionView>, creates: bool, n: nat, y: int) -> (x:
    int)
    requires
        n <= stream.len(),
        0 <= y < select(stream, creates, n).len(),
    ensures
        0 <= x < n,
        select(stream, creates, n)[y] == stream[x],
        is_create(stream[x]) == creates,
    decreases n,
{
    let before = select(stream, creates, (n - 1) as nat);
    if y < before.len() {
        lemma_select_source(stream, creates, (n - 1) as nat, y)
    } else {
        n - 1
    }
}

/// Every instruction of the kind asked for is selected. Returns its place
/// among those selected.
pub proof fn lemma_select_holds(stream: Seq<InstructionView>, creates: bool, n: nat, x: int) -> (y:
    int)
    requires
        n <= stream.len(),
        0 <= x < n,
        is_create(stream[x]) == creates,
    ensures
        0 <= y < select(stream, creates, n).len(),
        select(stream, creates, n)[y] == stream[x],
    decreases n,
{
    let before = select(stream, creates, (n - 1) as nat);
    if x < n - 1 {
        lemma_select_holds(stream, creates, (n - 1) as nat, x)
    } else {
        before.len() as int
    }
}

/// What is selected from a prefix depends on that prefix only.
pub proof fn lemma_select_prefix(
    a: Seq<InstructionView>,
    b: Seq<InstructionView>,
    creates: bool,
    n: nat,
)
    requires
        n <= a.len(),
        n <= b.len(),
        forall|i: int| 0 <= i < n ==> a[i] == b[i],
    ensures
        select(a, creates, n) == select(b, creates, n),
    decreases n,
{
    if n > 0 {
        lemma_select_prefix(a, b, creates, (n - 1) as nat);
    }
}

/// Whether no two creations of `stream` name the same hash.
pub open spec fn distinct_creates(stream: Seq<InstructionView>) -> bool {
    forall|x: int, y: int|
        0 <= x < y < stream.len() && is_create(#[trigger] stream[x]) && is_create(
            #[trigger] stream[y],
        ) ==> stream[x]->Create_0 != stream[y]->Create_0
}

/// Where no two creations of a stream name the same hash, neither do two of
/// the creations selected from it.
pub proof fn lemma_select_distinct(stream: Seq<InstructionView>, n: nat, i: int, j: int)
    requires
        n <= stream.len(),
        distinct_creates(stream),
        0 <= i < j < select(stream, true, n).len(),
    ensures
        select(stream, true, n)[i]->Create_0 != select(stream, true, n)[j]->Create_0,
    decreases n,
{
    let before = select(stream, true, (n - 1) as nat);
    if j < before.len() {
        lemma_select_distinct(stream, (n - 1) as nat, i, j);
    } else {
        lemma_select_source(stream, true, (n - 1) as nat, i);
    }
}

} // verus!
