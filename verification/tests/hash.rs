use elem::hash::{Hasher, FNV_OFFSET};
use elem::node::{create_node, received_node, NodeRepr};
use elem::primitives::{constant, cv, mul2, phasor, root, sin, ConstNodeProps};
use elem::value::{Number, Props, Value};

fn float(x: f64) -> Number {
    Number::from_f64_bits(x.to_bits()).unwrap()
}

fn hash_of(write: impl Fn(&mut Hasher)) -> u32 {
    let mut hasher = Hasher::new();
    write(&mut hasher);
    hasher.finish()
}

fn object(entries: Vec<(&str, Value)>) -> Props {
    let mut props = Props::new();
    for (name, value) in entries {
        props.insert(String::from(name), value);
    }
    props
}

#[test]
fn a_fresh_hasher_holds_the_offset() {
    assert_eq!(Hasher::new().finish(), FNV_OFFSET);
    assert_eq!(FNV_OFFSET, 0x811c9dc5);
    assert_eq!(hash_of(|h| h.write_bytes(b"")), 0x811c9dc5);
}

#[test]
fn bytes_are_hashed_as_by_fnv_1a() {
    assert_eq!(hash_of(|h| h.write_u8(b'a')), 0xe40c292c);
    assert_eq!(hash_of(|h| h.write_bytes(b"a")), 0xe40c292c);
    assert_eq!(hash_of(|h| h.write_bytes(b"foobar")), 0xbf9cf968);
    assert_eq!(hash_of(|h| h.write_bytes(&[1, 2, 3, 4])), 0x5734a87d);
}

#[test]
fn hashing_in_parts_is_hashing_the_whole() {
    let parts = hash_of(|h| {
        h.write_bytes(b"foo");
        h.write_bytes(b"");
        h.write_bytes(b"bar");
    });
    assert_eq!(parts, 0xbf9cf968);
}

#[test]
fn integers_are_written_lowest_byte_first() {
    assert_eq!(hash_of(|h| h.write_u32(0x04030201)), 0x5734a87d);
    assert_eq!(hash_of(|h| h.write_u64(0x0807060504030201)), 0x2804678d);
}

#[test]
fn a_string_is_written_with_the_length_of_its_encoding() {
    assert_eq!(hash_of(|h| h.write_str("héllo")), 0xfda8fee6);
}

#[test]
fn every_kind_of_value_has_its_canonical_form() {
    assert_eq!(hash_of(|h| h.write_value(&Value::Null)), 0x050c5d1f);
    assert_eq!(hash_of(|h| h.write_value(&Value::Bool(true))), 0xec741ef7);
    assert_eq!(hash_of(|h| h.write_value(&Value::Number(Number::PosInt(7)))), 0xf352e682);
    assert_eq!(hash_of(|h| h.write_value(&Value::Number(Number::NegInt(-2)))), 0xe5d22b0b);
    assert_eq!(hash_of(|h| h.write_number(&Number::NegInt(-2))), 0xe5d22b0b);
    assert_eq!(hash_of(|h| h.write_value(&Value::Number(float(1.5)))), 0x421335b2);
    assert_eq!(hash_of(|h| h.write_value(&Value::String(String::from("s")))), 0x57ed3056);
    let array = Value::Array(vec![Value::Number(Number::PosInt(1)), Value::Null]);
    assert_eq!(hash_of(|h| h.write_value(&array)), 0x8e182aae);
    let map = object(vec![("b", Value::Number(Number::PosInt(1))), ("a", Value::Bool(false))]);
    assert_eq!(hash_of(|h| h.write_value(&Value::Object(map.clone()))), 0xd2bedec1);
    assert_eq!(
        hash_of(|h| {
            h.write_u8(7);
            h.write_props(&map)
        }),
        0xd2bedec1
    );
}

#[test]
fn nodes_have_the_hash_of_their_canonical_form() {
    assert_eq!(create_node("sin", Props::new(), vec![]).hash, -603028140);
    let rate = cv(float(110.0));
    assert_eq!(rate.hash, -1177349742);
    let ramp = phasor(rate);
    assert_eq!(ramp.hash, 584778166);
    assert_eq!(root(ramp).hash, 1475931383);
}

#[test]
fn nested_values_take_part_in_the_hash() {
    let inner = object(vec![("z", Value::Number(float(1.5)))]);
    let list = Value::Array(vec![
        Value::Number(Number::PosInt(1)),
        Value::Number(Number::NegInt(-2)),
        Value::Bool(true),
        Value::Null,
        Value::String(String::from("s")),
        Value::Object(inner),
    ]);
    let props = object(vec![("b", Value::String(String::from("é"))), ("a", list)]);
    assert_eq!(create_node("x", props, vec![]).hash, 1331992960);
}

#[test]
fn equal_trees_have_equal_hashes() {
    let build = || root(sin(mul2(cv(float(2.0)), phasor(cv(float(110.0))))));
    let a = build();
    let b = build();
    assert_eq!(a.hash, b.hash);
    assert_eq!(a.children[0].hash, b.children[0].hash);
    assert_eq!(a.clone().hash, a.hash);
}

#[test]
fn the_order_in_which_properties_are_given_does_not_matter() {
    let a = object(vec![("key", Value::Null), ("value", Value::Bool(true))]);
    let b = object(vec![("value", Value::Bool(true)), ("key", Value::Null)]);
    assert_eq!(create_node("n", a, vec![]).hash, create_node("n", b, vec![]).hash);
}

#[test]
fn constants_that_differ_in_value_differ_in_hash() {
    assert_ne!(cv(float(110.0)).hash, cv(float(112.0)).hash);
    assert_eq!(cv(float(112.0)).hash, -1069310931);
    assert_ne!(cv(float(0.0)).hash, cv(float(-0.0)).hash);
}

#[test]
fn the_key_takes_part_in_the_hash_like_any_property() {
    let keyed = |key: &str, value: f64| {
        constant(&ConstNodeProps { key: Some(String::from(key)), value: float(value) })
    };
    assert_eq!(keyed("v1", 110.0).hash, 1546776506);
    assert_ne!(keyed("v1", 110.0).hash, keyed("v2", 110.0).hash);
    assert_ne!(keyed("v1", 110.0).hash, keyed("v1", 112.0).hash);
    assert_ne!(keyed("v1", 110.0).hash, cv(float(110.0)).hash);
}

#[test]
fn the_hash_depends_on_the_kind() {
    let a = create_node("sin", Props::new(), vec![cv(float(1.0))]);
    let b = create_node("cos", Props::new(), vec![cv(float(1.0))]);
    assert_eq!(a.hash, -376723496);
    assert_ne!(a.hash, b.hash);
}

#[test]
fn the_hash_depends_on_the_order_of_the_children() {
    let forth = mul2(cv(float(1.0)), cv(float(2.0)));
    let back = mul2(cv(float(2.0)), cv(float(1.0)));
    assert_eq!(forth.hash, -1883662199);
    assert_eq!(back.hash, 1126632089);
}

#[test]
fn the_hash_depends_on_the_output_channels_of_the_children() {
    let mut child = cv(float(1.0));
    let plain = create_node("sin", Props::new(), vec![child.clone()]);
    child.output_channel = 3;
    let other = create_node("sin", Props::new(), vec![child.clone()]);
    assert_eq!(child.hash, cv(float(1.0)).hash);
    assert_eq!(plain.hash, -376723496);
    assert_eq!(other.hash, -636459765);
}

fn parts() -> (Props, Vec<NodeRepr>) {
    (object(vec![("a", Value::Bool(true))]), vec![cv(float(1.0))])
}

#[test]
fn a_received_node_without_a_hash_gets_its_hash() {
    let (props, children) = parts();
    let made = create_node("sin", props, children);
    let (props, children) = parts();
    let node = received_node("sin", props, children, 2, None).unwrap();
    assert_eq!(node.hash, made.hash);
    assert_eq!(node.output_channel, 2);
    assert_eq!(node.kind, "sin");
    assert_eq!(node.children.len(), 1);
    assert_eq!(node.props.get("a"), Some(&Value::Bool(true)));
}

#[test]
fn a_received_node_with_its_hash_is_taken() {
    let (props, children) = parts();
    let hash = create_node("sin", props, children).hash;
    let (props, children) = parts();
    let node = received_node("sin", props, children, 0, Some(hash)).unwrap();
    assert_eq!(node.hash, hash);
    assert_eq!(node.output_channel, 0);
}

#[test]
fn a_received_node_with_another_hash_is_refused() {
    let (props, children) = parts();
    let hash = create_node("sin", props, children).hash;
    let (props, children) = parts();
    assert!(received_node("sin", props, children, 0, Some(hash.wrapping_add(1))).is_none());
    let (props, children) = parts();
    assert!(received_node("cos", props, children, 0, Some(hash)).is_none());
}
