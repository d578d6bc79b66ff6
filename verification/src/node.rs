//! Nodes of a signal graph.
//!
//! A `NodeRepr` describes one node in full: its kind, its properties, its
//! children in the order of the slots they feed, the output channel of the
//! edge to its parent, and its hash. The hash is the identity of the node:
//! `create_node` computes it from the rest, so that two nodes built from the
//! same parts carry the same hash. Every property takes part in the hash,
//! `key` like any other; a node whose value changes is a new node.
//!
//! A `ShallowNodeRepr` is what is remembered of a node between two
//! reconciliations: its kind, the properties last sent for it, and the edges
//! to its children.

use crate::hash::{
    digest, edges_bytes_to, entries_bytes, lemma_digest_concat, node_hash, string_bytes,
    u32_bytes, u64_bytes, Hasher,
};
use crate::value::{entries_map, keys_sorted, Json, Props};
use vstd::prelude::*;

verus! {

/// A node with everything below it.
#[derive(Debug)]
pub struct NodeRepr {
    pub kind: String,
    pub props: Props,
    pub children: Vec<NodeRepr>,
    pub output_channel: u32,
    pub hash: i32,
}

/// The mathematical model of a `NodeRepr`.
pub struct NodeView {
    pub kind: Seq<char>,
    /// The properties, in the order of their names.
    pub props: Seq<(Seq<char>, Json)>,
    pub children: Seq<NodeView>,
    pub output_channel: u32,
    pub hash: i32,
}

/// What is remembered of a node that the runtime holds.
#[derive(Debug)]
pub struct ShallowNodeRepr {
    pub kind: String,
    pub props: Props,
    /// For each child, in order, its hash and the output channel of its edge.
    pub children: Vec<(i32, u32)>,
}

/// The mathematical model of a `ShallowNodeRepr`.
pub struct ShallowView {
    pub kind: Seq<char>,
    pub props: Map<Seq<char>, Json>,
    pub children: Seq<(i32, u32)>,
}

/// The models of the nodes of `nodes`, in order.
pub open spec fn nodes_view(nodes: Seq<NodeRepr>) -> Seq<NodeView>
    decreases nodes,
{
    Seq::new(
        nodes.len(),
        |i: int|
            if 0 <= i < nodes.len() {
                nodes[i].view()
            } else {
                arbitrary()
            },
    )
}

impl View for NodeRepr {
    type V = NodeView;

    open spec fn view(&self) -> NodeView
        decreases self,
    {
        NodeView {
            kind: self.kind@,
            props: self.props@,
            children: nodes_view(self.children@),
            output_channel: self.output_channel,
            hash: self.hash,
        }
    }
}

impl View for ShallowNodeRepr {
    type V = ShallowView;

    open spec fn view(&self) -> ShallowView {
        ShallowView { kind: self.kind@, props: self.props.map(), children: self.children@ }
    }
}

/// The model of a node holds the models of its children, in order.
pub proof fn lemma_children_view(node: &NodeRepr)
    ensures
        node@.children.len() == node.children@.len(),
        forall|i: int|
            0 <= i < node.children@.len() ==> #[trigger] node@.children[i] == node.children@[i]@,
{
    assert(node@.children == nodes_view(node.children@));
}

/// The edges from a node to its children: for each child, in order, its hash
/// and the output channel of its edge.
pub open spec fn edges_of(children: Seq<NodeView>) -> Seq<(i32, u32)> {
    Seq::new(children.len(), |i: int| (children[i].hash, children[i].output_channel))
}

/// What is remembered of a node when it is first seen: its kind and edges,
/// and no properties yet.
pub open spec fn shallow_of(node: NodeView) -> ShallowView {
    ShallowView { kind: node.kind, props: Map::empty(), children: edges_of(node.children) }
}

/// Whether `node` carries the hash of its parts.
pub open spec fn hash_fits(node: NodeView) -> bool {
    node.hash == node_hash(node.kind, node.props, edges_of(node.children))
}

/// The hash is a function of the kind, the properties, and the hashes and
/// output channels of the children: two nodes that agree in these and carry
/// the hash of their parts have the same hash.
pub proof fn lemma_hash_determined_by_parts(a: NodeView, b: NodeView)
    requires
        hash_fits(a),
        hash_fits(b),
        a.kind == b.kind,
        a.props == b.props,
        edges_of(a.children) == edges_of(b.children),
    ensures
        a.hash == b.hash,
{
}

/// Whether `node` and every node below it carry the hash of their parts.
pub open spec fn well_hashed(node: NodeView) -> bool
    decreases node,
{
    &&& hash_fits(node)
    &&& forall|i: int| 0 <= i < node.children.len() ==> well_hashed(#[trigger] node.children[i])
}

/// Whether `a` and `b` have the same structure: the same kind, properties
/// and output channel, and as many children, with the same structure one by
/// one. The hashes have no part in this.
pub open spec fn same_structure(a: NodeView, b: NodeView) -> bool
    decreases a,
{
    &&& a.kind == b.kind
    &&& a.props == b.props
    &&& a.output_channel == b.output_channel
    &&& a.children.len() == b.children.len()
    &&& forall|i: int|
        0 <= i < a.children.len() ==> same_structure(#[trigger] a.children[i], b.children[i])
}

/// Two trees with the same structure, each built so that every node carries
/// the hash of its parts, have the same hash at the root.
pub proof fn lemma_hash_determined_by_structure(a: NodeView, b: NodeView)
    requires
        well_hashed(a),
        well_hashed(b),
        same_structure(a, b),
    ensures
        a.hash == b.hash,
    decreases a,
{
    assert forall|i: int| 0 <= i < a.children.len() implies edges_of(a.children)[i] == edges_of(
        b.children,
    )[i] by {
        lemma_hash_determined_by_structure(a.children[i], b.children[i]);
    }
    assert(edges_of(a.children) =~= edges_of(b.children));
}

/// Whether `node` is the node of the given kind, with the given mapping of
/// properties and the given children: its properties are in the order of
/// their names, its output channel is 0 and its hash is the hash of its
/// parts.
pub open spec fn is_node(
    node: NodeView,
    kind: Seq<char>,
    props: Map<Seq<char>, Json>,
    children: Seq<NodeView>,
) -> bool {
    &&& node.kind == kind
    &&& keys_sorted(node.props)
    &&& entries_map(node.props) == props
    &&& node.children == children
    &&& node.output_channel == 0
    &&& hash_fits(node)
}

/// Whether every node of `nodes`, and every node below one, carries the hash
/// of its parts.
pub open spec fn all_well_hashed(nodes: Seq<NodeView>) -> bool {
    forall|i: int| 0 <= i < nodes.len() ==> well_hashed(#[trigger] nodes[i])
}

/// A node of the given kind, with the given properties and children. Its
/// output channel is 0 and its hash is the hash of its parts.
pub fn create_node(kind: &str, props: Props, children: Vec<NodeRepr>) -> (node: NodeRepr)
    ensures
        node@.props == props@,
        is_node(node@, kind@, props.map(), nodes_view(children@)),
        all_well_hashed(nodes_view(children@)) ==> well_hashed(node@),
{
    proof {
        use_type_invariant(&props);
    }
    let ghost edges = edges_of(nodes_view(children@));
    let mut hasher = Hasher::new();
    let ghost h0 = hasher@;
    hasher.write_str(kind);
    hasher.write_props(&props);
    hasher.write_u64(children.len() as u64);
    let ghost head = string_bytes(kind@) + entries_bytes(props@) + u64_bytes(
        children.len() as u64,
    );
    proof {
        lemma_digest_concat(h0, string_bytes(kind@), entries_bytes(props@));
        lemma_digest_concat(
            h0,
            string_bytes(kind@) + entries_bytes(props@),
            u64_bytes(children.len() as u64),
        );
    }
    let mut i: usize = 0;
    while i < children.len()
        invariant
            i <= children.len(),
            edges == edges_of(nodes_view(children@)),
            hasher@ == digest(h0, head + edges_bytes_to(edges, i as nat)),
        decreases children.len() - i,
    {
        let ghost so_far = head + edges_bytes_to(edges, i as nat);
        let child = &children[i];
        hasher.write_u32(#[verifier::truncate] (child.hash as u32));
        hasher.write_u32(child.output_channel);
        proof {
            lemma_digest_concat(h0, so_far, u32_bytes(edges[i as int].0 as u32));
            lemma_digest_concat(
                h0,
                so_far + u32_bytes(edges[i as int].0 as u32),
                u32_bytes(edges[i as int].1),
            );
            assert(so_far + u32_bytes(edges[i as int].0 as u32) + u32_bytes(edges[i as int].1)
                =~= head + edges_bytes_to(edges, (i + 1) as nat));
        }
        i += 1;
    }
    let hash = #[verifier::truncate] (hasher.finish() as i32);
    let node = NodeRepr { kind: kind.to_owned(), props, children, output_channel: 0, hash };
    node
}

/// A node that came in from outside, where its hash may have been left out.
///
/// The hash is computed from the parts. Where a hash came with the node it
/// has to be that hash: a node with another hash is refused.
pub fn received_node(
    kind: &str,
    props: Props,
    children: Vec<NodeRepr>,
    output_channel: u32,
    hash: Option<i32>,
) -> (r: Option<NodeRepr>)
    ensures
        r is None <==> hash is Some && hash->0 != node_hash(
            kind@,
            props@,
            edges_of(nodes_view(children@)),
        ),
        r matches Some(node) ==> {
            &&& node@.props == props@
            &&& node@.output_channel == output_channel
            &&& is_node(
                NodeView { output_channel: 0, ..node@ },
                kind@,
                props.map(),
                nodes_view(children@),
            )
            &&& all_well_hashed(nodes_view(children@)) ==> well_hashed(node@)
        },
{
    let mut node = create_node(kind, props, children);
    let agrees = match hash {
        Some(given) => given == node.hash,
        None => true,
    };
    if agrees {
        node.output_channel = output_channel;
        Some(node)
    } else {
        None
    }
}

/// A copy of `nodes`.
fn nodes_clone(nodes: &Vec<NodeRepr>) -> (r: Vec<NodeRepr>)
    ensures
        nodes_view(r@) == nodes_view(nodes@),
    decreases nodes,
{
    let mut copy: Vec<NodeRepr> = Vec::new();
    let mut i: usize = 0;
    while i < nodes.len()
        invariant
            i <= nodes.len(),
            copy.len() == i,
            forall|j: int| 0 <= j < i ==> (#[trigger] copy@[j])@ == nodes@[j]@,
        decreases nodes.len() - i,
    {
        copy.push(node_clone(&nodes[i]));
        i += 1;
    }
    copy
}

/// A copy of `node`.
fn node_clone(node: &NodeRepr) -> (r: NodeRepr)
    ensures
        r@ == node@,
    decreases node,
{
    NodeRepr {
        kind: node.kind.clone(),
        props: node.props.clone(),
        children: nodes_clone(&node.children),
        output_channel: node.output_channel,
        hash: node.hash,
    }
}

impl Clone for NodeRepr {
    fn clone(&self) -> (r: NodeRepr)
        ensures
            r@ == self@,
    {
        node_clone(self)
    }
}

impl ShallowNodeRepr {
    /// What is remembered of `node` when it is first seen: its kind and the
    /// edges to its children, and no properties yet.
    pub fn from_node(node: &NodeRepr) -> (record: ShallowNodeRepr)
        ensures
            record@ == shallow_of(node@),
    {
        proof {
            lemma_children_view(node);
        }
        let mut edges: Vec<(i32, u32)> = Vec::new();
        let mut i: usize = 0;
        while i < node.children.len()
            invariant
                i <= node.children.len(),
                node@.children.len() == node.children@.len(),
                forall|k: int|
                    0 <= k < node.children@.len() ==> #[trigger] node@.children[k]
                        == node.children@[k]@,
                edges@ == edges_of(node@.children).take(i as int),
            decreases node.children.len() - i,
        {
            let child = &node.children[i];
            edges.push((child.hash, child.output_channel));
            i += 1;
        }
        assert(edges_of(node@.children).take(i as int) =~= edges_of(node@.children));
        let record = ShallowNodeRepr {
            kind: node.kind.clone(),
            props: Props::new(),
            children: edges,
        };
        record
    }
}

/// Whether the properties of `node` and of every node below it are in the
/// order of their names.
pub open spec fn tree_sorted(node: NodeView) -> bool
    decreases node,
{
    &&& keys_sorted(node.props)
    &&& forall|i: int| 0 <= i < node.children.len() ==> tree_sorted(#[trigger] node.children[i])
}

/// Whether the properties of every node of the graph with the given roots
/// are in the order of their names. This holds of the model of every graph.
pub open spec fn graph_sorted(roots: Seq<NodeView>) -> bool {
    forall|i: int| 0 <= i < roots.len() ==> tree_sorted(#[trigger] roots[i])
}

} // verus!
