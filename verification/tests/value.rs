use elem::key::{compare_keys, KeyOrder};
use elem::value::{Number, Props, Value};

fn float(x: f64) -> Value {
    Value::Number(Number::from_f64_bits(x.to_bits()).unwrap())
}

fn whole(x: i64) -> Value {
    Value::Number(Number::from_i64(x))
}

fn text(s: &str) -> Value {
    Value::String(String::from(s))
}

fn object(entries: Vec<(&str, Value)>) -> Props {
    let mut props = Props::new();
    for (name, value) in entries {
        props.insert(String::from(name), value);
    }
    props
}

fn names(props: &Props) -> Vec<String> {
    (0..props.len()).map(|i| props.key(i).clone()).collect()
}

fn to_json(value: &Value) -> serde_json::Value {
    match value {
        Value::Null => serde_json::Value::Null,
        Value::Bool(b) => serde_json::Value::Bool(*b),
        Value::Number(Number::PosInt(u)) => serde_json::Value::from(*u),
        Value::Number(Number::NegInt(i)) => serde_json::Value::from(*i),
        Value::Number(Number::Float(bits)) => serde_json::Value::from(f64::from_bits(*bits)),
        Value::String(s) => serde_json::Value::String(s.clone()),
        Value::Array(items) => serde_json::Value::Array(items.iter().map(to_json).collect()),
        Value::Object(props) => {
            let mut map = serde_json::Map::new();
            for i in 0..props.len() {
                map.insert(props.key(i).clone(), to_json(props.value(i)));
            }
            serde_json::Value::Object(map)
        }
    }
}

fn samples() -> Vec<Value> {
    vec![
        Value::Null,
        Value::Bool(false),
        Value::Bool(true),
        whole(0),
        whole(1),
        whole(-1),
        Value::Number(Number::from_u64(u64::MAX)),
        whole(i64::MIN),
        float(0.0),
        float(-0.0),
        float(1.0),
        float(-1.0),
        float(110.0),
        float(f64::MAX),
        float(f64::MIN_POSITIVE),
        text(""),
        text("a"),
        text("1"),
        Value::Array(vec![]),
        Value::Array(vec![whole(1)]),
        Value::Array(vec![float(1.0)]),
        Value::Array(vec![whole(1), whole(2)]),
        Value::Array(vec![whole(2), whole(1)]),
        Value::Array(vec![Value::Array(vec![float(0.0)])]),
        Value::Array(vec![Value::Array(vec![float(-0.0)])]),
        Value::Object(object(vec![])),
        Value::Object(object(vec![("a", whole(1))])),
        Value::Object(object(vec![("a", whole(1)), ("b", Value::Null)])),
        Value::Object(object(vec![("b", Value::Null), ("a", whole(1))])),
        Value::Object(object(vec![("a", float(0.0))])),
        Value::Object(object(vec![("a", float(-0.0))])),
        Value::Object(object(vec![("b", whole(1))])),
    ]
}

#[test]
fn values_are_equal_as_json_values_are() {
    let values = samples();
    for a in &values {
        for b in &values {
            assert_eq!(a == b, to_json(a) == to_json(b), "{:?} and {:?}", a, b);
        }
    }
}

#[test]
fn every_value_equals_itself_and_its_copy() {
    for value in samples() {
        assert!(value == value);
        assert!(value.clone() == value);
        assert_eq!(format!("{:?}", value.clone()), format!("{:?}", value));
    }
}

#[test]
fn zeros_of_either_sign_are_equal() {
    assert_eq!(float(0.0), float(-0.0));
    assert_eq!(Number::Float(0), Number::Float(0x8000_0000_0000_0000));
    assert_ne!(Number::Float(1), Number::Float(0x8000_0000_0000_0001));
}

#[test]
fn an_integer_never_equals_a_float() {
    assert_ne!(whole(1), float(1.0));
    assert_ne!(whole(0), float(0.0));
    assert_ne!(Number::PosInt(5), Number::NegInt(5));
    assert_eq!(Number::PosInt(5), Number::PosInt(5));
    assert_eq!(Number::NegInt(-5), Number::NegInt(-5));
    assert_ne!(Number::NegInt(-5), Number::NegInt(-6));
}

#[test]
fn integers_are_negative_or_not() {
    assert!(matches!(Number::from_i64(-1), Number::NegInt(-1)));
    assert!(matches!(Number::from_i64(i64::MIN), Number::NegInt(i64::MIN)));
    assert!(matches!(Number::from_i64(0), Number::PosInt(0)));
    assert!(matches!(Number::from_i64(i64::MAX), Number::PosInt(9223372036854775807)));
    assert!(matches!(Number::from_u64(7), Number::PosInt(7)));
}

#[test]
fn only_finite_doubles_are_numbers() {
    assert!(matches!(
        Number::from_f64_bits(1.5f64.to_bits()),
        Some(Number::Float(0x3ff8_0000_0000_0000))
    ));
    assert!(Number::from_f64_bits(f64::MAX.to_bits()).is_some());
    assert!(Number::from_f64_bits((-0.0f64).to_bits()).is_some());
    assert!(Number::from_f64_bits(f64::INFINITY.to_bits()).is_none());
    assert!(Number::from_f64_bits(f64::NEG_INFINITY.to_bits()).is_none());
    assert!(Number::from_f64_bits(f64::NAN.to_bits()).is_none());
}

#[test]
fn a_new_mapping_is_empty() {
    let props = Props::new();
    assert_eq!(props.len(), 0);
    assert_eq!(props.get("a"), None);
}

#[test]
fn entries_are_kept_in_the_order_of_their_names() {
    let props = object(vec![
        ("value", whole(1)),
        ("key", whole(2)),
        ("zeta", whole(3)),
        ("", whole(4)),
        ("Key", whole(5)),
        ("ke", whole(6)),
        ("keys", whole(7)),
        ("é", whole(8)),
    ]);
    assert_eq!(names(&props), vec!["", "Key", "ke", "key", "keys", "value", "zeta", "é"]);
    assert_eq!(*props.value(0), whole(4));
    assert_eq!(*props.value(3), whole(2));
    assert_eq!(*props.value(7), whole(8));
    let mut sorted = names(&props);
    sorted.sort();
    assert_eq!(sorted, names(&props));
}

#[test]
fn insert_gives_back_what_was_held() {
    let mut props = Props::new();
    assert_eq!(props.insert(String::from("b"), whole(1)), None);
    assert_eq!(props.insert(String::from("a"), whole(2)), None);
    assert_eq!(props.insert(String::from("b"), whole(3)), Some(whole(1)));
    assert_eq!(props.len(), 2);
    assert_eq!(props.get("a"), Some(&whole(2)));
    assert_eq!(props.get("b"), Some(&whole(3)));
    assert_eq!(props.get("c"), None);
    assert_eq!(props.get(""), None);
    assert_eq!(names(&props), vec!["a", "b"]);
}

#[test]
fn mappings_are_equal_whatever_the_order_of_the_inserts() {
    let a = object(vec![("x", whole(1)), ("y", float(0.0))]);
    let b = object(vec![("y", float(-0.0)), ("x", whole(1))]);
    assert!(a == b);
    assert!(a.clone() == a);
    assert!(a != object(vec![("x", whole(1))]));
    assert!(a != object(vec![("x", whole(1)), ("y", float(1.0))]));
    assert!(a != object(vec![("x", whole(1)), ("z", float(0.0))]));
}

#[test]
fn names_are_compared_as_strings_are() {
    let names =
        ["", "a", "A", "ab", "b", "é", "e", "z", "zz", "\u{10000}", "\u{ffff}", "key", "value"];
    for a in names {
        for b in names {
            let expected = match a.cmp(b) {
                std::cmp::Ordering::Less => KeyOrder::Less,
                std::cmp::Ordering::Equal => KeyOrder::Equal,
                std::cmp::Ordering::Greater => KeyOrder::Greater,
            };
            assert_eq!(compare_keys(a, b), expected, "{:?} and {:?}", a, b);
        }
    }
}

#[test]
fn a_prefix_comes_before_what_it_begins() {
    assert_eq!(compare_keys("ke", "key"), KeyOrder::Less);
    assert_eq!(compare_keys("key", "ke"), KeyOrder::Greater);
    assert_eq!(compare_keys("key", "key"), KeyOrder::Equal);
    assert_eq!(compare_keys("key", "value"), KeyOrder::Less);
}
