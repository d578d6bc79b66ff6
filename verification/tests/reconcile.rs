use elem::node::{create_node, NodeRepr, ShallowNodeRepr};
use elem::primitives::{
    add2, constant, cv, mul2, phasor, root, sample, sin, train, ConstNodeProps, SampleNodeProps,
};
use elem::reconcile::{reconcile, sort_instructions, Instruction};
use elem::value::{Number, Props, Value};
use std::collections::BTreeMap;

fn float(x: f64) -> Number {
    Number::from_f64_bits(x.to_bits()).unwrap()
}

fn number(x: f64) -> Value {
    Value::Number(float(x))
}

fn text(s: &str) -> Value {
    Value::String(String::from(s))
}

fn keyed(key: Option<&str>, value: f64) -> NodeRepr {
    constant(&ConstNodeProps { key: key.map(String::from), value: float(value) })
}

fn create(node: &NodeRepr) -> Instruction {
    Instruction::Create(node.hash, node.kind.clone())
}

fn append(parent: &NodeRepr, child: &NodeRepr) -> Instruction {
    Instruction::AppendChild(parent.hash, child.hash, child.output_channel)
}

fn set(node: &NodeRepr, name: &str, value: Value) -> Instruction {
    Instruction::SetProperty(node.hash, String::from(name), value)
}

fn count_creates(batch: &Vec<Instruction>, hash: i32) -> usize {
    batch.iter().filter(|i| matches!(i, Instruction::Create(h, _) if *h == hash)).count()
}

fn is_quiet(batch: &Vec<Instruction>) -> bool {
    batch.len() == 2
        && matches!(batch[0], Instruction::ActivateRoots(_))
        && matches!(batch[1], Instruction::Commit)
}

#[test]
fn basic() {
    let mut node_map = BTreeMap::new();
    let graph = vec![root(phasor(keyed(None, 110.0)))];
    let instructions = reconcile(&mut node_map, &graph);

    let top = &graph[0];
    let ramp = &top.children[0];
    let rate = &ramp.children[0];
    assert_eq!(
        instructions,
        vec![
            create(top),
            create(ramp),
            create(rate),
            append(top, ramp),
            set(top, "channel", number(0.0)),
            append(ramp, rate),
            set(rate, "key", Value::Null),
            set(rate, "value", number(110.0)),
            Instruction::ActivateRoots(vec![top.hash]),
            Instruction::Commit,
        ]
    );
    assert_eq!(top.kind, "root");
    assert_eq!(ramp.kind, "phasor");
    assert_eq!(rate.kind, "const");
    assert_eq!(node_map.len(), 3);
}

#[test]
fn distinguish_by_props() {
    let voice = |path: String| {
        sample(&SampleNodeProps { key: None, path }, train(keyed(None, 1.0)))
    };
    let mut node_map = BTreeMap::new();
    let graph = vec![voice(String::from("test.wav")), voice(String::from("test2.wav"))];
    let instructions = reconcile(&mut node_map, &graph);

    let first = &graph[0];
    let second = &graph[1];
    let gate = &first.children[0];
    let ramp = &gate.children[0];
    let half = &gate.children[1];
    let rate = &ramp.children[0];
    assert_ne!(first.hash, second.hash);
    assert_eq!(gate.hash, second.children[0].hash);
    assert_eq!(
        instructions,
        vec![
            create(first),
            create(second),
            create(gate),
            create(ramp),
            create(half),
            create(rate),
            append(first, gate),
            set(first, "key", Value::Null),
            set(first, "path", text("test.wav")),
            append(second, gate),
            set(second, "key", Value::Null),
            set(second, "path", text("test2.wav")),
            append(gate, ramp),
            append(gate, half),
            append(ramp, rate),
            set(half, "key", Value::Null),
            set(half, "value", number(0.5)),
            set(rate, "key", Value::Null),
            set(rate, "value", number(1.0)),
            Instruction::ActivateRoots(vec![first.hash, second.hash]),
            Instruction::Commit,
        ]
    );
}

#[test]
fn structural_equality_with_value_change() {
    let mut node_map = BTreeMap::new();

    let voice = |key: &str, freq: f64| {
        sin(mul2(cv(float(2.0 * std::f64::consts::PI)), phasor(keyed(Some(key), freq))))
    };

    let graph = vec![add2(voice("v1", 110.0), voice("v2", 111.0))];

    // What the first pass gives is of no interest here.
    let _ = reconcile(&mut node_map, &graph);

    // The value of one constant changes. Its key is a property like any
    // other, so the constant and all that stands above it are new nodes;
    // the other voice and the shared factor are known and give nothing.
    let graph2 = vec![add2(voice("v1", 112.0), voice("v2", 111.0))];

    let instructions = reconcile(&mut node_map, &graph2);

    let sum = &graph2[0];
    let sine = &sum.children[0];
    let other = &sum.children[1];
    let product = &sine.children[0];
    let factor = &product.children[0];
    let ramp = &product.children[1];
    let rate = &ramp.children[0];
    assert_eq!(other.hash, graph[0].children[1].hash);
    assert_ne!(sum.hash, graph[0].hash);
    assert_eq!(
        instructions,
        vec![
            create(sum),
            create(sine),
            create(product),
            create(ramp),
            create(rate),
            append(sum, sine),
            append(sum, other),
            append(sine, product),
            append(product, factor),
            append(product, ramp),
            append(ramp, rate),
            set(rate, "key", text("v1")),
            set(rate, "value", number(112.0)),
            Instruction::ActivateRoots(vec![sum.hash]),
            Instruction::Commit,
        ]
    );
}

#[test]
fn empty_graph_activates_nothing_and_commits() {
    let mut node_map: BTreeMap<i32, ShallowNodeRepr> = BTreeMap::new();
    let instructions = reconcile(&mut node_map, &Vec::new());
    assert_eq!(instructions, vec![Instruction::ActivateRoots(vec![]), Instruction::Commit]);
    assert!(node_map.is_empty());
}

#[test]
fn second_identical_reconciliation_is_quiet() {
    let mut node_map = BTreeMap::new();
    let graph = vec![root(phasor(keyed(None, 110.0)))];
    let _ = reconcile(&mut node_map, &graph);
    let again = reconcile(&mut node_map, &graph);
    assert_eq!(
        again,
        vec![Instruction::ActivateRoots(vec![graph[0].hash]), Instruction::Commit]
    );
}

#[test]
fn second_reconciliation_of_an_equal_graph_is_quiet() {
    let build = || vec![root(add2(sin(keyed(Some("a"), 1.0)), sin(keyed(Some("b"), 2.0))))];
    let mut node_map = BTreeMap::new();
    let first = reconcile(&mut node_map, &build());
    assert!(!is_quiet(&first));
    let held = node_map.len();
    let second = reconcile(&mut node_map, &build());
    assert!(is_quiet(&second));
    assert_eq!(node_map.len(), held);
}

#[test]
fn common_subexpression_is_created_once() {
    let x = || phasor(keyed(None, 1.0));
    let graph = vec![add2(sin(x()), sin(x()))];
    let mut node_map = BTreeMap::new();
    let instructions = reconcile(&mut node_map, &graph);

    let sum = &graph[0];
    let sine = &sum.children[0];
    let ramp = &sine.children[0];
    let rate = &ramp.children[0];
    assert_eq!(sine.hash, sum.children[1].hash);
    assert_eq!(
        instructions,
        vec![
            create(sum),
            create(sine),
            create(ramp),
            create(rate),
            append(sum, sine),
            append(sum, sine),
            append(sine, ramp),
            append(ramp, rate),
            set(rate, "key", Value::Null),
            set(rate, "value", number(1.0)),
            Instruction::ActivateRoots(vec![sum.hash]),
            Instruction::Commit,
        ]
    );
    assert_eq!(count_creates(&instructions, sine.hash), 1);
}

#[test]
fn every_node_is_created_before_it_is_named() {
    let shared = || train(keyed(Some("gate"), 2.0));
    let graph = vec![
        root(mul2(sin(shared()), shared())),
        root(sample(&SampleNodeProps { key: None, path: String::from("a.wav") }, shared())),
    ];
    let mut node_map = BTreeMap::new();
    let batch = reconcile(&mut node_map, &graph);
    let mut created: Vec<i32> = Vec::new();
    for instruction in &batch {
        match instruction {
            Instruction::Create(hash, _) => {
                assert!(!created.contains(hash));
                created.push(*hash);
            }
            Instruction::AppendChild(parent, child, _) => {
                assert!(created.contains(parent));
                assert!(created.contains(child));
            }
            Instruction::SetProperty(hash, _, _) => assert!(created.contains(hash)),
            Instruction::ActivateRoots(roots) => {
                assert!(roots.iter().all(|hash| created.contains(hash)))
            }
            Instruction::Commit => {}
        }
    }
    assert_eq!(created.len(), node_map.len());
}

#[test]
fn known_nodes_are_not_created_again() {
    let mut node_map = BTreeMap::new();
    let _ = reconcile(&mut node_map, &vec![root(phasor(keyed(None, 110.0)))]);
    // The ramp is known; the sine above it is new.
    let graph = vec![root(sin(phasor(keyed(None, 110.0))))];
    let batch = reconcile(&mut node_map, &graph);
    let top = &graph[0];
    let sine = &top.children[0];
    let ramp = &sine.children[0];
    assert_eq!(
        batch,
        vec![
            create(top),
            create(sine),
            append(top, sine),
            set(top, "channel", number(0.0)),
            append(sine, ramp),
            Instruction::ActivateRoots(vec![top.hash]),
            Instruction::Commit,
        ]
    );
}

#[test]
fn roots_are_activated_in_the_order_given() {
    let a = root(keyed(None, 1.0));
    let b = root(keyed(None, 2.0));
    let c = root(keyed(None, 3.0));
    let hashes = vec![c.hash, a.hash, b.hash, a.hash];
    let graph = vec![c, a.clone(), b, a];
    let mut node_map = BTreeMap::new();
    let batch = reconcile(&mut node_map, &graph);
    assert_eq!(batch[batch.len() - 2], Instruction::ActivateRoots(hashes));
    assert_eq!(batch[batch.len() - 1], Instruction::Commit);
}

#[test]
fn creations_come_first_and_the_commit_last() {
    let graph = vec![root(add2(sin(keyed(None, 1.0)), phasor(keyed(None, 2.0))))];
    let mut node_map = BTreeMap::new();
    let batch = reconcile(&mut node_map, &graph);
    let creates = batch.iter().take_while(|i| matches!(i, Instruction::Create(_, _))).count();
    assert_eq!(creates, 6);
    assert!(batch[creates..].iter().all(|i| !matches!(i, Instruction::Create(_, _))));
    let closing = batch
        .iter()
        .filter(|i| matches!(i, Instruction::ActivateRoots(_) | Instruction::Commit))
        .count();
    assert_eq!(closing, 2);
    assert!(matches!(batch[batch.len() - 2], Instruction::ActivateRoots(_)));
    assert!(matches!(batch[batch.len() - 1], Instruction::Commit));
}

/// A node with a hash that is given, not computed: a node that keeps its
/// identity when a property changes.
fn slider(hash: i32, value: f64, step: f64) -> NodeRepr {
    let mut props = Props::new();
    props.insert(String::from("value"), number(value));
    props.insert(String::from("step"), number(step));
    let mut node = create_node("const", props, Vec::new());
    node.hash = hash;
    node
}

#[test]
fn a_property_is_sent_again_only_when_it_changes() {
    let mut node_map = BTreeMap::new();
    let first = reconcile(&mut node_map, &vec![slider(7, 110.0, 1.0)]);
    assert_eq!(
        first,
        vec![
            Instruction::Create(7, String::from("const")),
            Instruction::SetProperty(7, String::from("step"), number(1.0)),
            Instruction::SetProperty(7, String::from("value"), number(110.0)),
            Instruction::ActivateRoots(vec![7]),
            Instruction::Commit,
        ]
    );
    let second = reconcile(&mut node_map, &vec![slider(7, 112.0, 1.0)]);
    assert_eq!(
        second,
        vec![
            Instruction::SetProperty(7, String::from("value"), number(112.0)),
            Instruction::ActivateRoots(vec![7]),
            Instruction::Commit,
        ]
    );
    assert_eq!(node_map[&7].props.get("value"), Some(&number(112.0)));
    let third = reconcile(&mut node_map, &vec![slider(7, 112.0, 1.0)]);
    assert!(is_quiet(&third));
}

#[test]
fn a_zero_of_the_other_sign_is_no_change() {
    let mut node_map = BTreeMap::new();
    let _ = reconcile(&mut node_map, &vec![slider(9, 0.0, 1.0)]);
    let second = reconcile(&mut node_map, &vec![slider(9, -0.0, 1.0)]);
    assert!(is_quiet(&second));
    assert_eq!(node_map[&9].props.get("value"), Some(&number(0.0)));
}

#[test]
fn the_output_channel_of_a_child_goes_into_the_edge() {
    let mut child = keyed(None, 1.0);
    child.output_channel = 3;
    let parent = create_node("sin", Props::new(), vec![child]);
    let mut node_map = BTreeMap::new();
    let batch = reconcile(&mut node_map, &vec![parent.clone()]);
    assert_eq!(batch[2], Instruction::AppendChild(parent.hash, parent.children[0].hash, 3));
    assert_eq!(node_map[&parent.hash].children, vec![(parent.children[0].hash, 3)]);
    assert_eq!(node_map[&parent.hash].kind, "sin");
}

#[test]
fn sorting_keeps_the_order_within_creations_and_within_the_rest() {
    let stream = vec![
        Instruction::AppendChild(1, 2, 0),
        Instruction::Create(2, String::from("b")),
        Instruction::Commit,
        Instruction::Create(1, String::from("a")),
        Instruction::SetProperty(1, String::from("x"), Value::Bool(true)),
        Instruction::Create(3, String::from("c")),
    ];
    assert_eq!(
        sort_instructions(stream),
        vec![
            Instruction::Create(2, String::from("b")),
            Instruction::Create(1, String::from("a")),
            Instruction::Create(3, String::from("c")),
            Instruction::AppendChild(1, 2, 0),
            Instruction::Commit,
            Instruction::SetProperty(1, String::from("x"), Value::Bool(true)),
        ]
    );
    assert_eq!(sort_instructions(Vec::new()), Vec::new());
}
