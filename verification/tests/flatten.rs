use flat_serializer::error::FlattenError;
use flat_serializer::flat_map::FlatMap;
use flat_serializer::ser::{key_string, FlatSerializer};
use flat_serializer::value::Value;

fn text(s: &str) -> Value {
    Value::String(s.to_string())
}

fn mapping(pairs: Vec<(&str, Value)>) -> Value {
    Value::Mapping(pairs.into_iter().map(|(k, v)| (text(k), v)).collect())
}

fn dotted() -> FlatSerializer {
    FlatSerializer::new(".".to_string(), String::new())
}

fn listing(flat: &FlatMap) -> Vec<(String, Value)> {
    flat.entries().iter().map(|(k, v)| (k.clone(), v.clone())).collect()
}

#[test]
fn root_scalar_goes_under_the_empty_key() {
    let ser = FlatSerializer::new(".".to_string(), "pre_".to_string());
    let flat = ser.disassemble("", "", &Value::I32(-5)).unwrap();
    assert_eq!(listing(&flat), vec![(String::new(), Value::I32(-5))]);
}

#[test]
fn every_kind_of_leaf_is_carried_through() {
    let leaves = vec![
        Value::Bool(true),
        Value::U8(1),
        Value::U16(2),
        Value::U32(3),
        Value::U64(4),
        Value::I8(-1),
        Value::I16(-2),
        Value::I32(-3),
        Value::I64(-4),
        Value::F32(1.5f32.to_bits()),
        Value::F64(2.5f64.to_bits()),
        Value::Char('c'),
        text("s"),
        Value::Unit,
        Value::Option(None),
        Value::Option(Some(Box::new(Value::U8(9)))),
        Value::Newtype(Box::new(text("n"))),
        Value::Bytes(vec![1, 2, 3]),
    ];
    for leaf in leaves {
        let flat = dotted().disassemble("", "k", &leaf).unwrap();
        assert_eq!(flat.len(), 1);
        assert_eq!(flat.get("k"), Some(&leaf));
    }
}

#[test]
fn flat_mapping_keeps_its_keys() {
    let tree = mapping(vec![("a", Value::U8(1)), ("b", Value::U8(2))]);
    let flat = dotted().disassemble("", "", &tree).unwrap();
    assert_eq!(
        listing(&flat),
        vec![("a".to_string(), Value::U8(1)), ("b".to_string(), Value::U8(2))]
    );
}

#[test]
fn nested_mapping_joins_keys_with_the_separator() {
    let tree = mapping(vec![("a", mapping(vec![("b", Value::U8(1))]))]);
    let flat = dotted().disassemble("", "", &tree).unwrap();
    assert_eq!(listing(&flat), vec![("a.b".to_string(), Value::U8(1))]);
}

#[test]
fn sequence_items_are_keyed_by_their_place() {
    let tree = mapping(vec![("a", Value::Sequence(vec![Value::U8(10), Value::U8(20)]))]);
    let flat = dotted().disassemble("", "", &tree).unwrap();
    assert_eq!(
        listing(&flat),
        vec![("a.0".to_string(), Value::U8(10)), ("a.1".to_string(), Value::U8(20))]
    );
}

#[test]
fn colliding_paths_keep_the_later_value() {
    let tree = mapping(vec![("a", mapping(vec![("b", Value::U8(1))])), ("a.b", Value::U8(2))]);
    let flat = dotted().disassemble("", "", &tree).unwrap();
    assert_eq!(listing(&flat), vec![("a.b".to_string(), Value::U8(2))]);
}

#[test]
fn colliding_paths_in_the_other_order_keep_the_nested_value() {
    let tree = mapping(vec![("a.b", Value::U8(2)), ("a", mapping(vec![("b", Value::U8(1))]))]);
    let flat = dotted().disassemble("", "", &tree).unwrap();
    assert_eq!(listing(&flat), vec![("a.b".to_string(), Value::U8(1))]);
}

#[test]
fn empty_key_drops_its_segment() {
    let tree = mapping(vec![("", mapping(vec![("x", Value::U8(1))]))]);
    let flat = dotted().disassemble("", "", &tree).unwrap();
    assert_eq!(listing(&flat), vec![("x".to_string(), Value::U8(1))]);
}

#[test]
fn empty_key_inside_a_tree_forgets_the_path_above() {
    let tree = mapping(vec![(
        "outer",
        mapping(vec![("", mapping(vec![("x", Value::U8(1))])), ("y", Value::U8(2))]),
    )]);
    let flat = FlatSerializer::new("/".to_string(), "P:".to_string())
        .disassemble("", "", &tree)
        .unwrap();
    assert_eq!(
        listing(&flat),
        vec![("P:outer/y".to_string(), Value::U8(2)), ("P:x".to_string(), Value::U8(1))]
    );
}

#[test]
fn empty_key_leaf_lands_under_the_empty_key() {
    let tree = mapping(vec![("a", mapping(vec![("", Value::U8(1))]))]);
    let flat = dotted().disassemble("", "", &tree).unwrap();
    assert_eq!(listing(&flat), vec![(String::new(), Value::U8(1))]);
}

#[test]
fn numeric_key_is_an_invalid_key_type() {
    let tree = Value::Mapping(vec![(Value::U8(1), Value::U8(2))]);
    assert_eq!(dotted().disassemble("", "", &tree), Err(FlattenError::InvalidKeyType));
}

#[test]
fn boolean_key_is_an_invalid_key_type() {
    let tree = Value::Mapping(vec![(text("ok"), Value::U8(1)), (Value::Bool(true), Value::U8(2))]);
    assert_eq!(dotted().disassemble("", "", &tree), Err(FlattenError::InvalidKeyType));
}

#[test]
fn invalid_key_deep_in_the_tree_fails_the_whole_call() {
    let bad = Value::Mapping(vec![(Value::Unit, Value::U8(2))]);
    let tree = mapping(vec![
        ("good", Value::U8(1)),
        ("list", Value::Sequence(vec![Value::U8(0), bad])),
        ("later", Value::U8(3)),
    ]);
    assert_eq!(dotted().disassemble("", "", &tree), Err(FlattenError::InvalidKeyType));
}

#[test]
fn mapping_inside_a_leaf_is_not_walked() {
    let hidden = Value::Mapping(vec![(Value::U8(1), Value::U8(2))]);
    let leaf = Value::Newtype(Box::new(hidden));
    let flat = dotted().disassemble("", "k", &leaf).unwrap();
    assert_eq!(flat.get("k"), Some(&leaf));
    let maybe = Value::Option(Some(Box::new(mapping(vec![("a", Value::U8(1))]))));
    let flat = dotted().disassemble("", "k", &maybe).unwrap();
    assert_eq!(listing(&flat), vec![("k".to_string(), maybe)]);
}

#[test]
fn character_key_stands_for_its_string() {
    let tree = Value::Mapping(vec![(Value::Char('c'), Value::U8(1)), (Value::Char('é'), Value::U8(2))]);
    let flat = dotted().disassemble("", "top", &tree).unwrap();
    assert_eq!(
        listing(&flat),
        vec![("top.c".to_string(), Value::U8(1)), ("top.é".to_string(), Value::U8(2))]
    );
}

#[test]
fn key_string_reads_strings_and_characters_only() {
    assert_eq!(key_string(&text("name")), Some("name".to_string()));
    assert_eq!(key_string(&Value::Char('x')), Some("x".to_string()));
    assert_eq!(key_string(&Value::U64(1)), None);
    assert_eq!(key_string(&Value::Unit), None);
    assert_eq!(key_string(&Value::Sequence(vec![])), None);
    assert_eq!(key_string(&Value::Bytes(vec![97])), None);
}

#[test]
fn prefix_is_put_before_root_keys_only() {
    let tree = mapping(vec![("a", mapping(vec![("b", Value::U8(1))])), ("c", Value::U8(2))]);
    let flat = FlatSerializer::new("__".to_string(), "APP_".to_string())
        .disassemble("", "", &tree)
        .unwrap();
    assert_eq!(
        listing(&flat),
        vec![("APP_a__b".to_string(), Value::U8(1)), ("APP_c".to_string(), Value::U8(2))]
    );
}

#[test]
fn call_below_a_path_joins_path_and_key() {
    let tree = mapping(vec![("x", Value::U8(1))]);
    let flat = FlatSerializer::new(".".to_string(), "pre".to_string())
        .disassemble("root", "node", &tree)
        .unwrap();
    assert_eq!(listing(&flat), vec![("root.node.x".to_string(), Value::U8(1))]);
}

#[test]
fn empty_separator_and_prefix_are_accepted() {
    let tree = mapping(vec![("a", mapping(vec![("b", Value::U8(1))]))]);
    let flat = FlatSerializer::new(String::new(), String::new()).disassemble("", "", &tree).unwrap();
    assert_eq!(listing(&flat), vec![("ab".to_string(), Value::U8(1))]);
}

#[test]
fn empty_containers_give_no_entries() {
    assert_eq!(dotted().disassemble("", "", &Value::Mapping(vec![])).unwrap().len(), 0);
    assert_eq!(dotted().disassemble("", "k", &Value::Sequence(vec![])).unwrap().len(), 0);
    let tree = mapping(vec![("a", Value::Sequence(vec![])), ("b", Value::Mapping(vec![]))]);
    assert_eq!(listing(&dotted().disassemble("", "", &tree).unwrap()), vec![]);
}

#[test]
fn long_sequence_is_ordered_by_bytes_not_by_number() {
    let items: Vec<Value> = (0..12u8).map(Value::U8).collect();
    let tree = mapping(vec![("a", Value::Sequence(items))]);
    let flat = dotted().disassemble("", "", &tree).unwrap();
    let keys: Vec<String> = flat.entries().iter().map(|(k, _)| k.clone()).collect();
    assert_eq!(
        keys,
        vec!["a.0", "a.1", "a.10", "a.11", "a.2", "a.3", "a.4", "a.5", "a.6", "a.7", "a.8", "a.9"]
    );
    assert_eq!(flat.get("a.10"), Some(&Value::U8(10)));
    assert_eq!(flat.get("a.2"), Some(&Value::U8(2)));
}

#[test]
fn root_sequence_under_the_empty_key_uses_the_prefix() {
    let tree = Value::Sequence(vec![text("x"), text("y")]);
    let flat = FlatSerializer::new(".".to_string(), "i".to_string())
        .disassemble("", "", &tree)
        .unwrap();
    assert_eq!(listing(&flat), vec![("i0".to_string(), text("x")), ("i1".to_string(), text("y"))]);
}

#[test]
fn serializer_is_reusable() {
    let ser = dotted();
    let first = ser.disassemble("", "", &mapping(vec![("a", Value::U8(1))])).unwrap();
    let second = ser.disassemble("", "", &mapping(vec![("a", Value::U8(1))])).unwrap();
    assert_eq!(first, second);
    let third = ser.disassemble("", "", &mapping(vec![("b", Value::U8(1))])).unwrap();
    assert_ne!(first, third);
}

#[test]
fn format_key_follows_the_three_rules() {
    let ser = FlatSerializer::new("::".to_string(), "pre-".to_string());
    assert_eq!(ser.format_key("any.path", ""), "");
    assert_eq!(ser.format_key("", ""), "");
    assert_eq!(ser.format_key("", "key"), "pre-key");
    assert_eq!(ser.format_key("a", "key"), "a::key");
    assert_eq!(ser.format_key("a::b", "c"), "a::b::c");
}

#[test]
fn error_has_a_message() {
    assert_eq!(FlattenError::InvalidKeyType.message(), "map keys must be strings or characters");
}
