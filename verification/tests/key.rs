use tq::key::KeyPattern;
use tq::key::LookupError;
use tq::key::ParseError;
use tq::key::TomlKey;
use tq::value::Value;

fn sample_table() -> Value {
    // { "table": { "int": 2, "arr": [1, 2, 3, 4] } }
    Value::Table(vec![(
        String::from("table"),
        Value::Table(vec![
            (String::from("int"), Value::Int(2)),
            (
                String::from("arr"),
                Value::Array(vec![
                    Value::Int(1),
                    Value::Int(2),
                    Value::Int(3),
                    Value::Int(4),
                ]),
            ),
        ]),
    )])
}

#[test]
fn empty_key() {
    let key = KeyPattern::parse(".").unwrap();
    assert!(key.keys.len() == 0);
}

#[test]
fn identity_returns_root() {
    let key = KeyPattern::parse(".").unwrap();
    let root = sample_table();
    let found = key.find(&root).unwrap();
    assert_eq!(*found, sample_table());

    let scalar = Value::Bool(true);
    assert_eq!(*key.find(&scalar).unwrap(), Value::Bool(true));
}

#[test]
fn dotted_keys_in_order() {
    let key = KeyPattern::parse(".k1.k2.k3").unwrap();
    assert_eq!(
        key.keys,
        vec![
            TomlKey::Table(String::from("k1")),
            TomlKey::Table(String::from("k2")),
            TomlKey::Table(String::from("k3")),
        ]
    );
}

#[test]
fn implicit_leading_key() {
    let key = KeyPattern::parse("a.b").unwrap();
    assert_eq!(
        key.keys,
        vec![
            TomlKey::Table(String::from("a")),
            TomlKey::Table(String::from("b")),
        ]
    );
}

#[test]
fn array_index_parses() {
    let key = KeyPattern::parse(".a[3]").unwrap();
    assert_eq!(
        key.keys,
        vec![TomlKey::Table(String::from("a")), TomlKey::Array(3)]
    );
}

#[test]
fn chained_indices_parse() {
    let key = KeyPattern::parse("[0][12].b").unwrap();
    assert_eq!(
        key.keys,
        vec![
            TomlKey::Array(0),
            TomlKey::Array(12),
            TomlKey::Table(String::from("b")),
        ]
    );
}

#[test]
fn non_numeric_index_rejected() {
    let err = KeyPattern::parse(".a[x]").unwrap_err();
    assert_eq!(err, ParseError::InvalidNumber(String::from("x")));
}

#[test]
fn oversized_index_rejected() {
    let err = KeyPattern::parse(".a[99999999999999999999999999]").unwrap_err();
    assert_eq!(
        err,
        ParseError::InvalidNumber(String::from("99999999999999999999999999"))
    );
}

#[test]
fn empty_brackets_rejected() {
    let err = KeyPattern::parse(".a[]").unwrap_err();
    assert_eq!(err, ParseError::EmptyBrackets);
}

#[test]
fn consecutive_dots_rejected() {
    let err = KeyPattern::parse("..b").unwrap_err();
    assert_eq!(err, ParseError::ConsecutiveDots);
}

#[test]
fn trailing_dot_rejected() {
    let err = KeyPattern::parse("a.").unwrap_err();
    assert_eq!(err, ParseError::EndsWithDot);
}

#[test]
fn dot_inside_brackets_rejected() {
    let err = KeyPattern::parse("a[1.b").unwrap_err();
    assert_eq!(err, ParseError::DotInsideBrackets);
}

#[test]
fn stray_close_rejected() {
    let err = KeyPattern::parse("]").unwrap_err();
    assert_eq!(err, ParseError::MissingOpeningBracket);
}

#[test]
fn nested_brackets_rejected() {
    let err = KeyPattern::parse("a[[1]]").unwrap_err();
    assert_eq!(err, ParseError::NestedBrackets);
}

#[test]
fn blank_path_rejected() {
    let err = KeyPattern::parse("").unwrap_err();
    assert_eq!(err, ParseError::Blank);
}

#[test]
fn unclosed_bracket_rejected() {
    assert_eq!(
        KeyPattern::parse("a[1").unwrap_err(),
        ParseError::UnclosedBracket
    );
    assert_eq!(
        KeyPattern::parse("a[").unwrap_err(),
        ParseError::UnclosedBracket
    );
}

#[test]
fn lookup_succeeds() {
    let root = sample_table();
    let key = KeyPattern::parse(".table.int").unwrap();
    assert_eq!(*key.find(&root).unwrap(), Value::Int(2));

    let key = KeyPattern::parse(".table.arr[2]").unwrap();
    assert_eq!(*key.find(&root).unwrap(), Value::Int(3));
}

#[test]
fn lookup_missing_key() {
    let root = Value::Table(vec![(String::from("a"), Value::Int(1))]);
    let key = KeyPattern::parse(".b").unwrap();
    let err = key.find(&root).unwrap_err();
    assert_eq!(err, LookupError::NotFound(TomlKey::Table(String::from("b"))));
}

#[test]
fn lookup_out_of_bounds() {
    let root = Value::Table(vec![(
        String::from("a"),
        Value::Array(vec![Value::Int(1), Value::Int(2)]),
    )]);
    let key = KeyPattern::parse(".a[5]").unwrap();
    assert_eq!(key.find(&root).unwrap_err(), LookupError::NotFound(TomlKey::Array(5)));

    // the index just past the end is already out of bounds
    let key = KeyPattern::parse(".a[2]").unwrap();
    assert_eq!(key.find(&root).unwrap_err(), LookupError::NotFound(TomlKey::Array(2)));
}

#[test]
fn lookup_type_mismatch() {
    let root = Value::Table(vec![(String::from("a"), Value::Int(1))]);
    let key = KeyPattern::parse(".a[0]").unwrap();
    assert_eq!(
        key.find(&root).unwrap_err(),
        LookupError::TypeMismatch(TomlKey::Array(0))
    );

    let root = Value::Table(vec![(String::from("a"), Value::Array(vec![Value::Int(1)]))]);
    let key = KeyPattern::parse(".a.x").unwrap();
    assert_eq!(
        key.find(&root).unwrap_err(),
        LookupError::TypeMismatch(TomlKey::Table(String::from("x")))
    );
}

#[test]
fn find_leaves_tree_unchanged() {
    let root = sample_table();
    let copy = sample_table();

    let key = KeyPattern::parse(".table.arr[1]").unwrap();
    let _ = key.find(&root);
    assert_eq!(root, copy);

    let key = KeyPattern::parse(".missing").unwrap();
    let _ = key.find(&root);
    assert_eq!(root, copy);
}

#[test]
fn text_renders_steps() {
    let key = KeyPattern::parse(".a[3].b").unwrap();
    assert_eq!(key.text(), String::from(".a.[3].b"));
}

#[test]
fn text_reparses_to_same_pattern() {
    let key = KeyPattern::parse("table.arr[10][0].name").unwrap();
    let again = KeyPattern::parse(&key.text()).unwrap();
    assert_eq!(key, again);
}
