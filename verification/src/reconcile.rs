//! Reconciliation: the edits that bring the runtime's graph into agreement
//! with a newly submitted one.
//!
//! The node map holds what the runtime is known to hold. `reconcile` walks
//! the submitted graph breadth first from its roots, visiting each hash once.
//! A node whose hash the map does not hold is mounted: it is created and its
//! children are appended. Then each of its properties is compared with what
//! the map holds, and sent where it is new or has changed. At the end the
//! roots are activated and the batch is committed, and all creations are
//! moved to the front of the batch, so that no instruction names a node that
//! has not been created.
//!
//! What `reconcile` computes is stated by `reconcile_map` and
//! `reconcile_batch`; the spec functions before them describe the walk step
//! by step. What follows from that for every batch is in `guarantees`.

use crate::node::{
    lemma_children_view, nodes_view, shallow_of, NodeRepr, NodeView, ShallowNodeRepr, ShallowView,
};
use crate::guarantees::{
    created_before_use, creates_once, holds_created, in_order, lemma_batch_created_before_use,
    lemma_batch_creates_once, lemma_batch_in_order, lemma_batch_sends_changes_only,
    lemma_map_grows, lemma_map_holds_created, map_grows, sends_changes_only, walk_sorted,
};
use crate::value::{json_eq, keys_sorted, Json, Value};
use std::collections::{BTreeMap, HashSet, VecDeque};
use vstd::prelude::*;

verus! {

/// One edit of the runtime's graph.
#[derive(Debug, PartialEq, Eq)]
pub enum Instruction {
    /// Create a node with this hash and kind.
    Create(i32, String),
    /// Append the node with the second hash to the children of the node with
    /// the first, taking the given output channel of the child.
    AppendChild(i32, i32, u32),
    /// Set the named property of the node with this hash to the value.
    SetProperty(i32, String, Value),
    /// Make the nodes with these hashes the roots of the graph.
    ActivateRoots(Vec<i32>),
    /// Apply the batch.
    Commit,
}

/// The mathematical model of an `Instruction`.
pub enum InstructionView {
    Create(i32, Seq<char>),
    AppendChild(i32, i32, u32),
    SetProperty(i32, Seq<char>, Json),
    ActivateRoots(Seq<i32>),
    Commit,
}

impl View for Instruction {
    type V = InstructionView;

    open spec fn view(&self) -> InstructionView {
        match self {
            Instruction::Create(hash, kind) => InstructionView::Create(*hash, kind@),
            Instruction::AppendChild(parent, child, channel) => InstructionView::AppendChild(
                *parent,
                *child,
                *channel,
            ),
            Instruction::SetProperty(hash, name, value) => InstructionView::SetProperty(
                *hash,
                name@,
                value@,
            ),
            Instruction::ActivateRoots(roots) => InstructionView::ActivateRoots(roots@),
            Instruction::Commit => InstructionView::Commit,
        }
    }
}

/// The models of the instructions of `batch`, in order.
pub open spec fn batch_view(batch: Seq<Instruction>) -> Seq<InstructionView> {
    Seq::new(batch.len(), |i: int| batch[i]@)
}

/// The model of a node map: for each hash, what is remembered of its node.
pub type NodeMapView = Map<i32, ShallowView>;

/// The number of nodes of the tree below and with `node`.
pub open spec fn tree_size(node: NodeView) -> nat
    decreases node, 0nat,
{
    1 + forest_size(node.children, node.children.len())
}

/// The number of nodes of the first `n` trees of `nodes`.
pub open spec fn forest_size(nodes: Seq<NodeView>, n: nat) -> nat
    decreases nodes, n,
{
    if n == 0 || n > nodes.len() {
        0
    } else {
        forest_size(nodes, (n - 1) as nat) + tree_size(nodes[n - 1])
    }
}

/// The number of nodes of all trees of `nodes`.
pub open spec fn queue_size(nodes: Seq<NodeView>) -> nat {
    forest_size(nodes, nodes.len())
}

/// The size of a prefix depends on that prefix only.
proof fn lemma_forest_size_prefix(a: Seq<NodeView>, b: Seq<NodeView>, n: nat)
    requires
        n <= a.len(),
        n <= b.len(),
        forall|i: int| 0 <= i < n ==> a[i] == b[i],
    ensures
        forest_size(a, n) == forest_size(b, n),
    decreases n,
{
    if n > 0 {
        lemma_forest_size_prefix(a, b, (n - 1) as nat);
    }
}

/// The size of two queues joined is the sum of their sizes.
pub proof fn lemma_queue_size_concat(a: Seq<NodeView>, b: Seq<NodeView>)
    ensures
        queue_size(a + b) == queue_size(a) + queue_size(b),
{
    lemma_forest_size_concat(a, b, b.len());
}

proof fn lemma_forest_size_concat(a: Seq<NodeView>, b: Seq<NodeView>, n: nat)
    requires
        n <= b.len(),
    ensures
        forest_size(a + b, a.len() + n) == queue_size(a) + forest_size(b, n),
    decreases n,
{
    if n == 0 {
        lemma_forest_size_prefix(a + b, a, a.len());
    } else {
        lemma_forest_size_concat(a, b, (n - 1) as nat);
    }
}

/// The size of a queue is the size of its first tree and of the rest.
pub proof fn lemma_queue_size_first(queue: Seq<NodeView>)
    requires
        queue.len() > 0,
    ensures
        queue_size(queue) == tree_size(queue[0]) + queue_size(queue.drop_first()),
{
    let head = seq![queue[0]];
    assert(head + queue.drop_first() =~= queue);
    lemma_queue_size_concat(head, queue.drop_first());
    assert(forest_size(head, 1) == forest_size(head, 0) + tree_size(head[0]));
}

/// The nodes that a walk visits, in the order of the visits.
///
/// The walk takes the node at the front of `queue`. If its hash is in
/// `visited`, the node is passed over. Else it is visited: its children join
/// the back of the queue and its hash joins `visited`.
pub open spec fn visit_order(queue: Seq<NodeView>, visited: Set<i32>) -> Seq<NodeView>
    decreases queue_size(queue),
{
    if queue.len() == 0 {
        Seq::empty()
    } else {
        let node = queue[0];
        let rest = queue.drop_first();
        proof {
            lemma_queue_size_first(queue);
            lemma_queue_size_concat(rest, node.children);
        }
        if visited.contains(node.hash) {
            visit_order(rest, visited)
        } else {
            seq![node] + visit_order(rest + node.children, visited.insert(node.hash))
        }
    }
}

/// The instructions that append the children of `node` to it, one for each
/// child, in order.
pub open spec fn append_children(node: NodeView) -> Seq<InstructionView> {
    Seq::new(
        node.children.len(),
        |i: int|
            InstructionView::AppendChild(
                node.hash,
                node.children[i].hash,
                node.children[i].output_channel,
            ),
    )
}

/// The instructions that mount `node`: its creation, then its children.
pub open spec fn mount(node: NodeView) -> Seq<InstructionView> {
    seq![InstructionView::Create(node.hash, node.kind)] + append_children(node)
}

/// Whether `stored` holds a value for `name` that equals `value`.
pub open spec fn holds_equal(stored: Map<Seq<char>, Json>, name: Seq<char>, value: Json) -> bool {
    stored.contains_key(name) && json_eq(stored[name], value)
}

/// The properties that are stored for the node with hash `hash` after the
/// first `n` properties of `props` have been compared with `stored`, and the
/// instructions that this gave: each property, in order, is sent and stored
/// unless an equal value is stored for its name.
pub open spec fn diff_props(
    stored: Map<Seq<char>, Json>,
    hash: i32,
    props: Seq<(Seq<char>, Json)>,
    n: nat,
) -> (Map<Seq<char>, Json>, Seq<InstructionView>)
    decreases n,
{
    if n == 0 || n > props.len() {
        (stored, Seq::empty())
    } else {
        let (before, sent) = diff_props(stored, hash, props, (n - 1) as nat);
        let (name, value) = props[n - 1];
        if holds_equal(before, name, value) {
            (before, sent)
        } else {
            (before.insert(name, value), sent.push(InstructionView::SetProperty(hash, name, value)))
        }
    }
}

/// The node map after a visit of `node`, and the instructions of the visit.
///
/// A node that the map does not hold is mounted, and remembered without
/// properties. Then the properties of the node are compared with those
/// remembered.
pub open spec fn visit(map: NodeMapView, node: NodeView) -> (NodeMapView, Seq<InstructionView>) {
    let known = map.contains_key(node.hash);
    let record = if known {
        map[node.hash]
    } else {
        shallow_of(node)
    };
    let mounted = if known {
        Seq::empty()
    } else {
        mount(node)
    };
    let (props, sent) = diff_props(record.props, node.hash, node.props, node.props.len());
    (
        map.insert(node.hash, ShallowView { kind: record.kind, props, children: record.children }),
        mounted + sent,
    )
}

/// The node map after visits of the first `n` nodes of `order`, one after
/// the other, and the instructions of these visits in the order in which
/// they were given.
pub open spec fn visit_all(map: NodeMapView, order: Seq<NodeView>, n: nat) -> (
    NodeMapView,
    Seq<InstructionView>,
)
    decreases n,
{
    if n == 0 || n > order.len() {
        (map, Seq::empty())
    } else {
        let (before, given) = visit_all(map, order, (n - 1) as nat);
        let (after, more) = visit(before, order[n - 1]);
        (after, given + more)
    }
}

/// Whether `instruction` creates a node.
pub open spec fn is_create(instruction: InstructionView) -> bool {
    instruction is Create
}

/// Those of the first `n` instructions of `stream` that create a node (if
/// `creates` is true) or that do not (if it is false), in their order.
pub open spec fn select(stream: Seq<InstructionView>, creates: bool, n: nat) -> Seq<
    InstructionView,
>
    decreases n,
{
    if n == 0 || n > stream.len() {
        Seq::empty()
    } else {
        let before = select(stream, creates, (n - 1) as nat);
        if is_create(stream[n - 1]) == creates {
            before.push(stream[n - 1])
        } else {
            before
        }
    }
}

/// The instructions of `stream` with the creations moved to the front. The
/// creations keep their order among themselves, and so do the others.
pub open spec fn hoist_creates(stream: Seq<InstructionView>) -> Seq<InstructionView> {
    select(stream, true, stream.len()) + select(stream, false, stream.len())
}

/// The hashes of `roots`, in order.
pub open spec fn root_hashes(roots: Seq<NodeView>) -> Seq<i32> {
    Seq::new(roots.len(), |i: int| roots[i].hash)
}

/// The instructions of a reconciliation in the order in which they are
/// given: those of the visits, then the activation of the roots and the
/// commit.
pub open spec fn reconcile_stream(map: NodeMapView, roots: Seq<NodeView>) -> Seq<InstructionView> {
    let order = visit_order(roots, Set::empty());
    visit_all(map, order, order.len()).1 + seq![
        InstructionView::ActivateRoots(root_hashes(roots)),
        InstructionView::Commit,
    ]
}

/// The node map after the graph with the given roots has been reconciled
/// with `map`.
pub open spec fn reconcile_map(map: NodeMapView, roots: Seq<NodeView>) -> NodeMapView {
    let order = visit_order(roots, Set::empty());
    visit_all(map, order, order.len()).0
}

/// The batch of instructions that reconciles the graph with the given roots
/// with `map`: the instructions as they are given, with the creations moved
/// to the front.
pub open spec fn reconcile_batch(map: NodeMapView, roots: Seq<NodeView>) -> Seq<InstructionView> {
    hoist_creates(reconcile_stream(map, roots))
}

/// The model of the node map that `map` stands for.
pub open spec fn node_map_view(map: Map<i32, ShallowNodeRepr>) -> NodeMapView {
    Map::new(|hash: i32| map.contains_key(hash), |hash: i32| map[hash]@)
}

/// The models of the nodes that `queue` refers to, in order.
pub open spec fn refs_view(queue: Seq<&NodeRepr>) -> Seq<NodeView> {
    Seq::new(queue.len(), |i: int| (*queue[i]).view())
}

/// The models of a batch with one more instruction.
proof fn lemma_batch_view_push(batch: Seq<Instruction>, instruction: Instruction)
    ensures
        batch_view(batch.push(instruction)) == batch_view(batch).push(instruction@),
{
    assert(batch_view(batch.push(instruction)) =~= batch_view(batch).push(instruction@));
}

/// The models of a queue with one more node.
proof fn lemma_refs_view_push(queue: Seq<&NodeRepr>, node: &NodeRepr)
    ensures
        refs_view(queue.push(node)) == refs_view(queue).push(node@),
{
    assert(refs_view(queue.push(node)) =~= refs_view(queue).push(node@));
}

/// The visits of a prefix depend on that prefix only.
proof fn lemma_visit_all_prefix(map: NodeMapView, a: Seq<NodeView>, b: Seq<NodeView>, n: nat)
    requires
        n <= a.len(),
        n <= b.len(),
        forall|i: int| 0 <= i < n ==> a[i] == b[i],
    ensures
        visit_all(map, a, n) == visit_all(map, b, n),
    decreases n,
{
    if n > 0 {
        lemma_visit_all_prefix(map, a, b, (n - 1) as nat);
    }
}

/// Moves the creations of `stream` to the front. The creations keep their
/// order among themselves, and so do the other instructions.
pub fn sort_instructions(stream: Vec<Instruction>) -> (batch: Vec<Instruction>)
    ensures
        batch_view(batch@) == hoist_creates(batch_view(stream@)),
{
    let ghost models = batch_view(stream@);
    let mut creates: Vec<Instruction> = Vec::new();
    let mut others: Vec<Instruction> = Vec::new();
    for instruction in it: stream.into_iter()
        invariant
            it.seq() == stream@,
            models == batch_view(stream@),
            batch_view(creates@) == select(models, true, it.index() as nat),
            batch_view(others@) == select(models, false, it.index() as nat),
    {
        let is_creation = match &instruction {
            Instruction::Create(_, _) => true,
            _ => false,
        };
        if is_creation {
            creates.push(instruction);
        } else {
            others.push(instruction);
        }
    }
    creates.append(&mut others);
    creates
}

/// Gives the instructions that mount `node`, and returns what is to be
/// remembered of it.
fn mount_node(node: &NodeRepr, instructions: &mut Vec<Instruction>) -> (record: ShallowNodeRepr)
    ensures
        record@ == shallow_of(node@),
        batch_view(final(instructions)@) == batch_view(old(instructions)@) + mount(node@),
{
    let ghost given = batch_view(instructions@);
    proof {
        lemma_children_view(node);
    }
    instructions.push(Instruction::Create(node.hash, node.kind.clone()));
    let mut i: usize = 0;
    while i < node.children.len()
        invariant
            i <= node.children.len(),
            node@.children.len() == node.children@.len(),
            forall|k: int|
                0 <= k < node.children@.len() ==> #[trigger] node@.children[k]
                    == node.children@[k]@,
            batch_view(instructions@) == given + mount(node@).take(i + 1),
        decreases node.children.len() - i,
    {
        let child = &node.children[i];
        proof {
            lemma_batch_view_push(
                instructions@,
                Instruction::AppendChild(node.hash, child.hash, child.output_channel),
            );
        }
        instructions.push(Instruction::AppendChild(node.hash, child.hash, child.output_channel));
        i += 1;
    }
    ShallowNodeRepr::from_node(node)
}

/// Compares the properties of `node` with those of `record`, which is what
/// is remembered of it. A property for which no equal value is remembered is
/// sent and remembered.
fn diff_node_props(
    record: &mut ShallowNodeRepr,
    node: &NodeRepr,
    instructions: &mut Vec<Instruction>,
)
    ensures
        final(record)@.kind == old(record)@.kind,
        final(record)@.children == old(record)@.children,
        final(record)@.props == diff_props(
            old(record)@.props,
            node.hash,
            node@.props,
            node@.props.len(),
        ).0,
        batch_view(final(instructions)@) == batch_view(old(instructions)@) + diff_props(
            old(record)@.props,
            node.hash,
            node@.props,
            node@.props.len(),
        ).1,
{
    let ghost given = batch_view(instructions@);
    let ghost stored = record@.props;
    let n = node.props.len();
    let mut i: usize = 0;
    while i < n
        invariant
            i <= n,
            n == node@.props.len(),
            record@.kind == old(record)@.kind,
            record@.children == old(record)@.children,
            stored == old(record)@.props,
            given == batch_view(old(instructions)@),
            record@.props == diff_props(stored, node.hash, node@.props, i as nat).0,
            batch_view(instructions@) == given + diff_props(
                stored,
                node.hash,
                node@.props,
                i as nat,
            ).1,
        decreases n - i,
    {
        let name = node.props.key(i);
        let value = node.props.value(i);
        let write = match record.props.get(name.as_str()) {
            Some(held) => !(*held == *value),
            None => true,
        };
        let ghost sent = batch_view(instructions@);
        if write {
            record.props.insert(name.clone(), value.clone());
            instructions.push(Instruction::SetProperty(node.hash, name.clone(), value.clone()));
            assert(batch_view(instructions@) =~= sent.push(
                InstructionView::SetProperty(node.hash, name@, value@),
            ));
        }
        i += 1;
    }
}

/// Visits `node`: mounts it unless the node map holds its hash, and compares
/// its properties with those that the map holds.
fn visit_node(
    node_map: &mut BTreeMap<i32, ShallowNodeRepr>,
    node: &NodeRepr,
    instructions: &mut Vec<Instruction>,
)
    ensures
        node_map_view(final(node_map)@) == visit(node_map_view(old(node_map)@), node@).0,
        batch_view(final(instructions)@) == batch_view(old(instructions)@) + visit(
            node_map_view(old(node_map)@),
            node@,
        ).1,
{
    let mut record = match node_map.remove(&node.hash) {
        Some(record) => record,
        None => mount_node(node, instructions),
    };
    diff_node_props(&mut record, node, instructions);
    node_map.insert(node.hash, record);
}

/// Reconciles the graph with the given roots with `node_map`, which holds
/// what the runtime holds: returns the batch of instructions that brings the
/// runtime into agreement with the graph, and remembers in `node_map` what
/// the runtime holds once the batch is applied.
///
/// The first two clauses say what the batch and the node map are. The others
/// say what follows from that for every graph and every node map; the last
/// one holds of the graph itself, and is what the proofs in `guarantees` ask
/// of a graph.
pub fn reconcile(node_map: &mut BTreeMap<i32, ShallowNodeRepr>, roots: &Vec<NodeRepr>) -> (batch:
    Vec<Instruction>)
    ensures
        node_map_view(final(node_map)@) == reconcile_map(
            node_map_view(old(node_map)@),
            nodes_view(roots@),
        ),
        batch_view(batch@) == reconcile_batch(node_map_view(old(node_map)@), nodes_view(roots@)),
        // Creations first; the activation of the roots, in the order given, and
        // the commit last.
        in_order(batch_view(batch@), root_hashes(nodes_view(roots@))),
        // No instruction names a node before it is created.
        created_before_use(batch_view(batch@), node_map_view(old(node_map)@)),
        // No node is created twice, and none that the map held.
        creates_once(batch_view(batch@), node_map_view(old(node_map)@)),
        // No property is set to a value equal to the one that the map held.
        sends_changes_only(batch_view(batch@), node_map_view(old(node_map)@)),
        // The map forgets nothing, and holds what the batch creates.
        map_grows(node_map_view(old(node_map)@), node_map_view(final(node_map)@)),
        holds_created(
            node_map_view(old(node_map)@),
            node_map_view(final(node_map)@),
            batch_view(batch@),
        ),
        walk_sorted(nodes_view(roots@)),
{
    let ghost start = node_map_view(node_map@);
    let ghost graph = nodes_view(roots@);
    let ghost order = visit_order(graph, Set::empty());
    let mut visited: HashSet<i32> = HashSet::new();
    let mut queue: VecDeque<&NodeRepr> = VecDeque::new();
    let mut instructions: Vec<Instruction> = Vec::new();
    let mut hashes: Vec<i32> = Vec::new();
    let mut i: usize = 0;
    while i < roots.len()
        invariant
            i <= roots.len(),
            graph == nodes_view(roots@),
            refs_view(queue@) == graph.take(i as int),
            hashes@ == root_hashes(graph).take(i as int),
        decreases roots.len() - i,
    {
        proof {
            lemma_refs_view_push(queue@, &roots[i as int]);
        }
        queue.push_back(&roots[i]);
        hashes.push(roots[i].hash);
        i += 1;
    }
    assert(graph.take(i as int) =~= graph);
    assert(root_hashes(graph).take(i as int) =~= root_hashes(graph));
    let ghost mut done: Seq<NodeView> = Seq::empty();
    while queue.len() > 0
        invariant
            order == done + visit_order(refs_view(queue@), visited@),
            node_map_view(node_map@) == visit_all(start, done, done.len()).0,
            batch_view(instructions@) == visit_all(start, done, done.len()).1,
            forall|t: int| 0 <= t < done.len() ==> keys_sorted((#[trigger] done[t]).props),
        decreases queue_size(refs_view(queue@)),
    {
        let ghost waiting = refs_view(queue@);
        let next = queue.pop_front().unwrap();
        let ghost rest = refs_view(queue@);
        proof {
            assert(rest =~= waiting.drop_first());
            lemma_queue_size_first(waiting);
            lemma_queue_size_concat(rest, next@.children);
        }
        if !visited.contains(&next.hash) {
            visit_node(node_map, next, &mut instructions);
            proof {
                lemma_children_view(next);
            }
            let mut j: usize = 0;
            while j < next.children.len()
                invariant
                    j <= next.children.len(),
                    next@.children.len() == next.children@.len(),
                    forall|k: int|
                        0 <= k < next.children@.len() ==> #[trigger] next@.children[k]
                            == next.children@[k]@,
                    refs_view(queue@) == rest + next@.children.take(j as int),
                decreases next.children.len() - j,
            {
                proof {
                    lemma_refs_view_push(queue@, &next.children[j as int]);
                }
                queue.push_back(&next.children[j]);
                j += 1;
            }
            assert(next@.children.take(j as int) =~= next@.children);
            visited.insert(next.hash);
            proof {
                use_type_invariant(&next.props);
                let longer = done.push(next@);
                lemma_visit_all_prefix(start, done, longer, done.len());
                done = longer;
            }
        }
    }
    proof {
        lemma_batch_in_order(start, graph);
        lemma_batch_created_before_use(start, graph);
        lemma_batch_creates_once(start, graph);
        lemma_batch_sends_changes_only(start, graph);
        lemma_map_grows(start, graph);
        lemma_map_holds_created(start, graph);
    }
    instructions.push(Instruction::ActivateRoots(hashes));
    instructions.push(Instruction::Commit);
    assert(batch_view(instructions@) =~= reconcile_stream(start, graph));
    sort_instructions(instructions)
}

} // verus!
