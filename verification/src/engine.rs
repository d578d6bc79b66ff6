//! The control side of an engine: what it keeps between two graphs, and what
//! it hands to the runtime.
//!
//! A `MainHandle` owns the node map. `render` reconciles a graph with it and
//! returns the batch in its wire form; to apply the batch is the caller's
//! part. An `AudioBuffer` holds the samples of a shared resource.

use crate::encode::{encode_batch, serialize_batch};
use crate::node::{is_node, nodes_view, well_hashed, NodeRepr, NodeView, ShallowNodeRepr};
use crate::primitives::{const_props, cv, mul2, phasor, root, root_props, sin};
use crate::reconcile::{
    node_map_view, reconcile, reconcile_batch, reconcile_map, NodeMapView,
};
use crate::value::{Json, Number, Value};
use std::collections::BTreeMap;
use vstd::prelude::*;

verus! {

/// The types of samples.
pub trait FloatType: 'static {

}

/// Samples of some channels, frame by frame.
pub struct AudioBuffer<T> {
    pub data: Vec<T>,
    pub channels: usize,
    pub frames: usize,
}

impl<T> Default for AudioBuffer<T> {
    /// The buffer without channels, frames and samples.
    fn default() -> (buffer: Self)
        ensures
            buffer.data@ == Seq::<T>::empty(),
            buffer.channels == 0,
            buffer.frames == 0,
    {
        Self { data: Vec::new(), channels: 0, frames: 0 }
    }
}

impl<T> AudioBuffer<T> where T: FloatType + Clone + Default {
    /// A buffer of `channels` channels and `frames` frames, in which every
    /// sample is a copy of the default sample.
    pub fn new(channels: usize, frames: usize) -> (buffer: Self)
        requires
            channels * frames <= usize::MAX,
        ensures
            buffer.channels == channels,
            buffer.frames == frames,
            buffer.data.len() == channels * frames,
            exists|sample: T|
                call_ensures(T::default, (), sample) && forall|i: int|
                    0 <= i < buffer.data.len() ==> cloned(sample, #[trigger] buffer.data[i]),
    {
        let sample = T::default();
        let data = vec![sample; channels * frames];
        Self { data, channels, frames }
    }
}

/// The bits of the double nearest to twice pi.
pub const TWO_PI: u64 = 0x4019_21fb_5444_2d18;

/// The bits of the double 110.
pub const A2_HERTZ: u64 = 0x405b_8000_0000_0000;

/// Whether `roots` is the graph that an engine starts with: one root, which
/// plays a sine at 110 hertz.
pub open spec fn is_initial_graph(roots: Seq<NodeView>) -> bool {
    &&& roots.len() == 1
    &&& well_hashed(roots[0])
    &&& roots[0].children.len() == 1
    &&& is_node(roots[0], "root"@, root_props(), roots[0].children)
    &&& is_sine(roots[0].children[0])
}

/// Whether `node` is the sine of twice pi times a phasor at 110 hertz.
pub open spec fn is_sine(node: NodeView) -> bool {
    &&& node.children.len() == 1
    &&& is_node(node, "sin"@, Map::empty(), node.children)
    &&& {
        let product = node.children[0];
        &&& product.children.len() == 2
        &&& is_node(product, "mul"@, Map::empty(), product.children)
        &&& is_node(
            product.children[0],
            "const"@,
            const_props(Json::Null, Number::Float(TWO_PI)),
            Seq::empty(),
        )
        &&& {
            let ramp = product.children[1];
            &&& ramp.children.len() == 1
            &&& is_node(ramp, "phasor"@, Map::empty(), ramp.children)
            &&& is_node(
                ramp.children[0],
                "const"@,
                const_props(Json::Null, Number::Float(A2_HERTZ)),
                Seq::empty(),
            )
        }
    }
}

/// The graph that an engine starts with.
pub fn initial_graph() -> (roots: Vec<NodeRepr>)
    ensures
        is_initial_graph(nodes_view(roots@)),
{
    let cycle = root(sin(mul2(cv(Number::Float(TWO_PI)), phasor(cv(Number::Float(A2_HERTZ))))));
    let roots = vec![cycle];
    roots
}

/// The control side of an engine.
pub struct MainHandle {
    node_map: BTreeMap<i32, ShallowNodeRepr>,
}

impl View for MainHandle {
    type V = NodeMapView;

    /// What the runtime is known to hold.
    closed spec fn view(&self) -> NodeMapView {
        node_map_view(self.node_map@)
    }
}

impl MainHandle {
    /// A handle for a runtime that holds no node.
    pub fn new() -> (handle: MainHandle)
        ensures
            handle@ == Map::<i32, crate::node::ShallowView>::empty(),
    {
        let handle = MainHandle { node_map: BTreeMap::new() };
        handle
    }

    /// What is remembered of the nodes that the runtime holds.
    pub fn node_map(&self) -> (map: &BTreeMap<i32, ShallowNodeRepr>)
        ensures
            node_map_view(map@) == self@,
    {
        &self.node_map
    }

    /// Reconciles `graph`, if there is one, with what the runtime holds, and
    /// returns the batch for the runtime in its wire form. Without a graph
    /// there is nothing to send, and nothing changes.
    pub fn render(&mut self, graph: &Option<Vec<NodeRepr>>) -> (wire: Option<Value>)
        ensures
            match *graph {
                Some(roots) => {
                    &&& wire is Some
                    &&& wire->0@ == encode_batch(reconcile_batch(old(self)@, nodes_view(roots@)))
                    &&& final(self)@ == reconcile_map(old(self)@, nodes_view(roots@))
                },
                None => wire is None && final(self)@ == old(self)@,
            },
    {
        match graph {
            Some(roots) => {
                let batch = reconcile(&mut self.node_map, roots);
                Some(serialize_batch(&batch))
            },
            None => None,
        }
    }
}

} // verus!
