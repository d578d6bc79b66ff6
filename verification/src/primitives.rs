//! The nodes that graphs are built of.
//!
//! Each function here builds one node of a fixed kind from its children and,
//! for some kinds, from properties. None has an effect; what a function
//! returns is a tree that `reconcile` can walk.

use crate::node::{create_node, is_node, nodes_view, well_hashed, NodeRepr};
use crate::value::{Json, Number, Props, Value};
use vstd::prelude::*;

verus! {

/// The bits of the double 0.5.
pub const HALF: u64 = 0x3fe0_0000_0000_0000;

/// The properties of a `const` node.
pub struct ConstNodeProps {
    pub key: Option<String>,
    pub value: Number,
}

/// The properties of a `sample` node.
pub struct SampleNodeProps {
    pub key: Option<String>,
    pub path: String,
}

/// The model of an optional key: the key as a string, or null.
pub open spec fn key_json(key: Option<String>) -> Json {
    match key {
        Some(k) => Json::String(k@),
        None => Json::Null,
    }
}

/// The properties of a root: the channel 0.
pub open spec fn root_props() -> Map<Seq<char>, Json> {
    Map::empty().insert("channel"@, Json::Number(Number::Float(0)))
}

/// The properties of a constant: its key, which may be null, and its value.
pub open spec fn const_props(key: Json, value: Number) -> Map<Seq<char>, Json> {
    Map::empty().insert("key"@, key).insert("value"@, Json::Number(value))
}

/// The properties of a sample: its key, which may be null, and its path.
pub open spec fn sample_props(key: Json, path: Seq<char>) -> Map<Seq<char>, Json> {
    Map::empty().insert("key"@, key).insert("path"@, Json::String(path))
}

/// The value of an optional key.
fn key_value(key: &Option<String>) -> (r: Value)
    ensures
        r@ == key_json(*key),
{
    match key {
        Some(k) => Value::String(k.clone()),
        None => Value::Null,
    }
}

/// A root of the graph: the node that sends `x` to channel 0.
pub fn root(x: NodeRepr) -> (r: NodeRepr)
    ensures
        is_node(r@, "root"@, root_props(), seq![x@]),
        well_hashed(x@) ==> well_hashed(r@),
{
    let mut props = Props::new();
    props.insert("channel".to_owned(), Value::Number(Number::Float(0)));
    let children = vec![x];
    assert(nodes_view(children@) =~= seq![x@]);
    create_node("root", props, children)
}

/// The sine of `x`.
pub fn sin(x: NodeRepr) -> (r: NodeRepr)
    ensures
        is_node(r@, "sin"@, Map::empty(), seq![x@]),
        well_hashed(x@) ==> well_hashed(r@),
{
    let children = vec![x];
    assert(nodes_view(children@) =~= seq![x@]);
    create_node("sin", Props::new(), children)
}

/// The product of `x` and `y`.
pub fn mul2(x: NodeRepr, y: NodeRepr) -> (r: NodeRepr)
    ensures
        is_node(r@, "mul"@, Map::empty(), seq![x@, y@]),
        well_hashed(x@) && well_hashed(y@) ==> well_hashed(r@),
{
    let children = vec![x, y];
    assert(nodes_view(children@) =~= seq![x@, y@]);
    create_node("mul", Props::new(), children)
}

/// The sum of `x` and `y`.
pub fn add2(x: NodeRepr, y: NodeRepr) -> (r: NodeRepr)
    ensures
        is_node(r@, "add"@, Map::empty(), seq![x@, y@]),
        well_hashed(x@) && well_hashed(y@) ==> well_hashed(r@),
{
    let children = vec![x, y];
    assert(nodes_view(children@) =~= seq![x@, y@]);
    create_node("add", Props::new(), children)
}

/// A ramp from 0 to 1 that repeats at the rate `rate`.
pub fn phasor(rate: NodeRepr) -> (r: NodeRepr)
    ensures
        is_node(r@, "phasor"@, Map::empty(), seq![rate@]),
        well_hashed(rate@) ==> well_hashed(r@),
{
    let children = vec![rate];
    assert(nodes_view(children@) =~= seq![rate@]);
    create_node("phasor", Props::new(), children)
}

/// A constant with the given key and value. The key is a property like the
/// value: it is null where none is given.
pub fn constant(props: &ConstNodeProps) -> (r: NodeRepr)
    ensures
        is_node(r@, "const"@, const_props(key_json(props.key), props.value), Seq::empty()),
        well_hashed(r@),
{
    let mut map = Props::new();
    map.insert("key".to_owned(), key_value(&props.key));
    map.insert("value".to_owned(), Value::Number(props.value));
    let children: Vec<NodeRepr> = Vec::new();
    assert(nodes_view(children@) =~= Seq::empty());
    create_node("const", map, children)
}

/// The constant `x`, without a key.
pub fn cv(x: Number) -> (r: NodeRepr)
    ensures
        is_node(r@, "const"@, const_props(Json::Null, x), Seq::empty()),
        well_hashed(r@),
{
    constant(&ConstNodeProps { key: None, value: x })
}

/// Whether `x` is at most `y`.
pub fn le(x: NodeRepr, y: NodeRepr) -> (r: NodeRepr)
    ensures
        is_node(r@, "le"@, Map::empty(), seq![x@, y@]),
        well_hashed(x@) && well_hashed(y@) ==> well_hashed(r@),
{
    let children = vec![x, y];
    assert(nodes_view(children@) =~= seq![x@, y@]);
    create_node("le", Props::new(), children)
}

/// A pulse train at the rate `x`: whether a phasor at that rate is at most
/// one half.
pub fn train(x: NodeRepr) -> (r: NodeRepr)
    ensures
        r@.children.len() == 2,
        is_node(r@, "le"@, Map::empty(), r@.children),
        is_node(r@.children[0], "phasor"@, Map::empty(), seq![x@]),
        is_node(
            r@.children[1],
            "const"@,
            const_props(Json::Null, Number::Float(HALF)),
            Seq::empty(),
        ),
        well_hashed(x@) ==> well_hashed(r@),
{
    le(phasor(x), cv(Number::Float(HALF)))
}

/// A sample that plays the file at the given path when `gate` rises.
pub fn sample(props: &SampleNodeProps, gate: NodeRepr) -> (r: NodeRepr)
    ensures
        is_node(r@, "sample"@, sample_props(key_json(props.key), props.path@), seq![gate@]),
        well_hashed(gate@) ==> well_hashed(r@),
{
    let mut map = Props::new();
    map.insert("key".to_owned(), key_value(&props.key));
    map.insert("path".to_owned(), Value::String(props.path.clone()));
    let children = vec![gate];
    assert(nodes_view(children@) =~= seq![gate@]);
    create_node("sample", map, children)
}

} // verus!
