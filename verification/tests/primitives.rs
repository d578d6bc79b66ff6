use elem::node::{create_node, NodeRepr, ShallowNodeRepr};
use elem::primitives::{
    add2, constant, cv, le, mul2, phasor, root, sample, sin, ConstNodeProps, SampleNodeProps,
};
use elem::value::{Number, Props, Value};

fn float(x: f64) -> Number {
    Number::from_f64_bits(x.to_bits()).unwrap()
}

fn leaf(x: f64) -> NodeRepr {
    cv(float(x))
}

fn names(props: &Props) -> Vec<String> {
    (0..props.len()).map(|i| props.key(i).clone()).collect()
}

fn kinds(nodes: &Vec<NodeRepr>) -> Vec<String> {
    nodes.iter().map(|node| node.kind.clone()).collect()
}

#[test]
fn a_root_sends_to_channel_zero() {
    let node = root(leaf(1.0));
    assert_eq!(node.kind, "root");
    assert_eq!(names(&node.props), vec!["channel"]);
    assert_eq!(node.props.get("channel"), Some(&Value::Number(float(0.0))));
    assert_eq!(node.children.len(), 1);
    assert_eq!(node.children[0].hash, leaf(1.0).hash);
    assert_eq!(node.output_channel, 0);
}

#[test]
fn nodes_of_one_child_have_no_properties() {
    for (node, kind) in [(sin(leaf(1.0)), "sin"), (phasor(leaf(1.0)), "phasor")] {
        assert_eq!(node.kind, kind);
        assert_eq!(node.props.len(), 0);
        assert_eq!(kinds(&node.children), vec!["const"]);
        assert_eq!(node.children[0].hash, leaf(1.0).hash);
        assert_eq!(node.output_channel, 0);
        assert_eq!(node.hash, create_node(kind, Props::new(), vec![leaf(1.0)]).hash);
    }
}

#[test]
fn nodes_of_two_children_keep_their_order() {
    let made = [
        (mul2(leaf(1.0), leaf(2.0)), "mul"),
        (add2(leaf(1.0), leaf(2.0)), "add"),
        (le(leaf(1.0), leaf(2.0)), "le"),
    ];
    for (node, kind) in made {
        assert_eq!(node.kind, kind);
        assert_eq!(node.props.len(), 0);
        assert_eq!(node.children.len(), 2);
        assert_eq!(node.children[0].hash, leaf(1.0).hash);
        assert_eq!(node.children[1].hash, leaf(2.0).hash);
        assert_eq!(node.hash, create_node(kind, Props::new(), vec![leaf(1.0), leaf(2.0)]).hash);
    }
}

#[test]
fn a_constant_holds_its_key_and_value() {
    let plain = constant(&ConstNodeProps { key: None, value: float(110.0) });
    assert_eq!(plain.kind, "const");
    assert_eq!(names(&plain.props), vec!["key", "value"]);
    assert_eq!(plain.props.get("key"), Some(&Value::Null));
    assert_eq!(plain.props.get("value"), Some(&Value::Number(float(110.0))));
    assert!(plain.children.is_empty());
    assert_eq!(plain.hash, cv(float(110.0)).hash);

    let keyed = constant(&ConstNodeProps { key: Some(String::from("v1")), value: float(110.0) });
    assert_eq!(keyed.props.get("key"), Some(&Value::String(String::from("v1"))));
    assert_eq!(keyed.props.get("value"), Some(&Value::Number(float(110.0))));
    assert_ne!(keyed.hash, plain.hash);
}

#[test]
fn a_constant_can_hold_an_integer() {
    let node = cv(Number::from_i64(-3));
    assert_eq!(node.props.get("value"), Some(&Value::Number(Number::NegInt(-3))));
    assert_ne!(node.hash, cv(float(-3.0)).hash);
}

#[test]
fn a_sample_holds_its_key_and_path() {
    let props = SampleNodeProps { key: Some(String::from("s")), path: String::from("test.wav") };
    let node = sample(&props, leaf(1.0));
    assert_eq!(node.kind, "sample");
    assert_eq!(names(&node.props), vec!["key", "path"]);
    assert_eq!(node.props.get("key"), Some(&Value::String(String::from("s"))));
    assert_eq!(node.props.get("path"), Some(&Value::String(String::from("test.wav"))));
    assert_eq!(kinds(&node.children), vec!["const"]);

    let other = sample(&SampleNodeProps { key: None, path: String::from("test.wav") }, leaf(1.0));
    assert_eq!(other.props.get("key"), Some(&Value::Null));
    assert_ne!(other.hash, node.hash);
}

#[test]
fn a_record_of_a_new_node_holds_its_edges_and_no_properties() {
    let mut second = leaf(2.0);
    second.output_channel = 1;
    let node = create_node("mul", Props::new(), vec![leaf(1.0), second]);
    let record = ShallowNodeRepr::from_node(&node);
    assert_eq!(record.kind, "mul");
    assert_eq!(record.props.len(), 0);
    assert_eq!(record.children, vec![(leaf(1.0).hash, 0), (leaf(2.0).hash, 1)]);
    let constant = ShallowNodeRepr::from_node(&leaf(1.0));
    assert_eq!(constant.kind, "const");
    assert_eq!(constant.props.len(), 0);
    assert!(constant.children.is_empty());
}

#[test]
fn a_copy_of_a_tree_is_the_same_tree() {
    let mut inner = leaf(1.0);
    inner.output_channel = 2;
    let tree = root(mul2(sin(inner), leaf(3.0)));
    let copy = tree.clone();
    assert_eq!(format!("{:?}", copy), format!("{:?}", tree));
    assert_eq!(copy.children[0].children[0].children[0].output_channel, 2);
}
