use flat_serializer::flat_map::FlatMap;
use flat_serializer::order::{rank, Rank};
use flat_serializer::path::{char_text, digit_char, index_text};
use flat_serializer::value::Value;

#[test]
fn index_text_is_the_decimal_numeral() {
    assert_eq!(index_text(0), "0");
    assert_eq!(index_text(7), "7");
    assert_eq!(index_text(9), "9");
    assert_eq!(index_text(10), "10");
    assert_eq!(index_text(105), "105");
    assert_eq!(index_text(1234567890), "1234567890");
    assert_eq!(index_text(usize::MAX), format!("{}", usize::MAX));
}

#[test]
fn digit_char_covers_all_digits() {
    let digits: String = (0..10).map(digit_char).collect();
    assert_eq!(digits, "0123456789");
}

#[test]
fn char_text_holds_one_character() {
    assert_eq!(char_text('a'), "a");
    assert_eq!(char_text('ß'), "ß");
    assert_eq!(char_text('\u{1F600}'), "\u{1F600}");
}

#[test]
fn rank_orders_by_bytes() {
    assert_eq!(rank("", ""), Rank::Same);
    assert_eq!(rank("abc", "abc"), Rank::Same);
    assert_eq!(rank("", "a"), Rank::Before);
    assert_eq!(rank("a", ""), Rank::After);
    assert_eq!(rank("a", "b"), Rank::Before);
    assert_eq!(rank("b", "a"), Rank::After);
    assert_eq!(rank("ab", "abc"), Rank::Before);
    assert_eq!(rank("abc", "ab"), Rank::After);
    assert_eq!(rank("Z", "a"), Rank::Before);
    assert_eq!(rank("a.10", "a.2"), Rank::Before);
    assert_eq!(rank("z", "é"), Rank::Before);
    assert_eq!(rank("é", "\u{1F600}"), Rank::Before);
}

#[test]
fn rank_agrees_with_the_order_of_strings() {
    let words = ["", "a", "A", "ab", "a.b", "b", "é", "e", "\u{FFFF}", "\u{10000}", "10", "9"];
    for x in words {
        for y in words {
            let expected = if x < y {
                Rank::Before
            } else if x == y {
                Rank::Same
            } else {
                Rank::After
            };
            assert_eq!(rank(x, y), expected);
        }
    }
}

#[test]
fn new_map_is_empty() {
    let flat = FlatMap::new();
    assert_eq!(flat.len(), 0);
    assert_eq!(flat.get("a"), None);
    assert!(flat.entries().is_empty());
}

#[test]
fn insert_keeps_keys_in_order() {
    let mut flat = FlatMap::new();
    for key in ["m", "b", "z", "a", "n"] {
        assert_eq!(flat.insert(key.to_string(), Value::String(key.to_uppercase())), None);
    }
    let keys: Vec<&str> = flat.entries().iter().map(|(k, _)| k.as_str()).collect();
    assert_eq!(keys, vec!["a", "b", "m", "n", "z"]);
    assert_eq!(flat.len(), 5);
    assert_eq!(flat.get("n"), Some(&Value::String("N".to_string())));
    assert_eq!(flat.get("c"), None);
}

#[test]
fn insert_replaces_and_returns_the_old_value() {
    let mut flat = FlatMap::new();
    assert_eq!(flat.insert("k".to_string(), Value::U8(1)), None);
    assert_eq!(flat.insert("j".to_string(), Value::U8(5)), None);
    assert_eq!(flat.insert("k".to_string(), Value::U8(2)), Some(Value::U8(1)));
    assert_eq!(flat.len(), 2);
    assert_eq!(flat.get("k"), Some(&Value::U8(2)));
    assert_eq!(flat.get("j"), Some(&Value::U8(5)));
}

#[test]
fn append_lets_the_other_map_win() {
    let mut left = FlatMap::new();
    left.insert("a".to_string(), Value::U8(1));
    left.insert("b".to_string(), Value::U8(2));
    left.insert("d".to_string(), Value::U8(4));
    let mut right = FlatMap::new();
    right.insert("b".to_string(), Value::U8(20));
    right.insert("c".to_string(), Value::U8(30));
    right.insert("e".to_string(), Value::U8(50));
    left.append(right);
    assert_eq!(
        left.into_entries(),
        vec![
            ("a".to_string(), Value::U8(1)),
            ("b".to_string(), Value::U8(20)),
            ("c".to_string(), Value::U8(30)),
            ("d".to_string(), Value::U8(4)),
            ("e".to_string(), Value::U8(50)),
        ]
    );
}

#[test]
fn append_of_an_empty_map_changes_nothing() {
    let mut left = FlatMap::new();
    left.insert("a".to_string(), Value::U8(1));
    left.append(FlatMap::new());
    assert_eq!(left.into_entries(), vec![("a".to_string(), Value::U8(1))]);
    let mut empty = FlatMap::new();
    let mut right = FlatMap::new();
    right.insert("x".to_string(), Value::Unit);
    empty.append(right);
    assert_eq!(empty.into_entries(), vec![("x".to_string(), Value::Unit)]);
}

#[test]
fn clone_copies_the_whole_tree() {
    let tree = Value::Mapping(vec![
        (Value::String("list".to_string()), Value::Sequence(vec![Value::U8(1), Value::Char('x')])),
        (Value::Char('o'), Value::Option(Some(Box::new(Value::Bytes(vec![0, 255]))))),
        (Value::String("n".to_string()), Value::Newtype(Box::new(Value::F64(0.25f64.to_bits())))),
        (Value::Bool(false), Value::Unit),
    ]);
    let copy = tree.clone();
    assert_eq!(copy, tree);
    assert_ne!(copy, Value::Mapping(vec![]));
}
