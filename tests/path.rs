use clausewitz_parser::{root, IndexError, IndexErrorKind, Span, Val};

fn text(input: &[u8], x: Span) -> &[u8] {
    &input[x.start..x.end]
}

#[test]
fn val_dict__given_key__returns_val_result() {
    let input = b"key";
    let val = Val::Dict(vec![(Span { start: 0, end: 3 }, Val::Integer(10))]);
    let index = "key";

    let dict_val = val.get_at_path(input, index.as_bytes());

    assert!(matches!(dict_val, Ok(&Val::Integer(10))));
}

#[test]
fn val_numbered_dict__given_key__returns_val_result() {
    let input = b"key";
    let val = Val::NumberedDict(0, vec![(Span { start: 0, end: 3 }, Val::Integer(10))]);
    let index = "key";

    let dict_val = val.get_at_path(input, index.as_bytes());

    assert!(matches!(dict_val, Ok(&Val::Integer(10))));
}

#[test]
fn val_array__given_index__returns_val_result() {
    let input = b"";
    let val = Val::Array(vec![(0, Val::Integer(10))]);
    let index = "0";

    let dict_val = val.get_at_path(input, index.as_bytes());

    assert!(matches!(dict_val, Ok(&Val::Integer(10))));
}

#[test]
fn val_array_of_dicts__given_index_dot_key__returns_val_result() {
    let input = b"key value";
    let val = Val::Array(vec![(
        0,
        Val::Dict(vec![(
            Span { start: 0, end: 3 },
            Val::StringLiteral(Span { start: 4, end: 9 }),
        )]),
    )]);
    let index = "0.key";

    let string_literal_val = val.get_at_path(input, index.as_bytes());

    match string_literal_val {
        Ok(Val::StringLiteral(x)) => assert_eq!(text(input, *x), b"value"),
        other => panic!("{:?}", other),
    }
}

#[test]
fn val_dict_of_arrays__given_key_dot_index__returns_val_result() {
    let input = b"key value";
    let val = Val::Dict(vec![(
        Span { start: 0, end: 3 },
        Val::Array(vec![(0, Val::StringLiteral(Span { start: 4, end: 9 }))]),
    )]);
    let index = "key.0";

    let string_literal_val = val.get_at_path(input, index.as_bytes());

    match string_literal_val {
        Ok(Val::StringLiteral(x)) => assert_eq!(text(input, *x), b"value"),
        other => panic!("{:?}", other),
    }
}

fn parsed(input: &str) -> Val {
    root(input.as_bytes()).unwrap().1
}

#[test]
fn the_first_of_duplicate_keys_wins() {
    let input = "a=1 b=2 a=3";
    let tree = parsed(input);
    assert!(matches!(tree.get_at_path(input.as_bytes(), b"a"), Ok(&Val::Integer(1))));
}

#[test]
fn array_components_select_by_source_index() {
    let input = "c={ 5={ x=50 } 2={ x=20 } }";
    let tree = parsed(input);
    assert!(matches!(tree.get_at_path(input.as_bytes(), b"c.2.x"), Ok(&Val::Integer(20))));
    assert!(matches!(tree.get_at_path(input.as_bytes(), b"c.5.x"), Ok(&Val::Integer(50))));
    assert_eq!(
        tree.get_at_path(input.as_bytes(), b"c.3").err(),
        Some(IndexError { kind: IndexErrorKind::IndexNotFound, depth: 1 })
    );
    assert_eq!(
        tree.get_at_path(input.as_bytes(), b"c.x").err(),
        Some(IndexError { kind: IndexErrorKind::NotAnIndex, depth: 1 })
    );
}

#[test]
fn lookup_failures_name_their_component() {
    let input = "a={ b=1 } s={ 1 2 }";
    let tree = parsed(input);
    assert_eq!(
        tree.get_at_path(input.as_bytes(), b"a.c").err(),
        Some(IndexError { kind: IndexErrorKind::KeyNotFound, depth: 1 })
    );
    assert_eq!(
        tree.get_at_path(input.as_bytes(), b"a.b.c").err(),
        Some(IndexError { kind: IndexErrorKind::ScalarNotIndexable, depth: 2 })
    );
    assert_eq!(
        tree.get_at_path(input.as_bytes(), b"s.0").err(),
        Some(IndexError { kind: IndexErrorKind::SetNotIndexable, depth: 1 })
    );
}

#[test]
fn numbered_dict_entries_are_reached_by_key() {
    let input = "i={ { 14 { intel=7 } } }";
    let tree = parsed(input);
    assert!(matches!(tree.get_at_path(input.as_bytes(), b"i"), Ok(&Val::ValueSet(_))));
    match tree.get_at_path(input.as_bytes(), b"i") {
        Ok(Val::ValueSet(vs)) => {
            assert!(matches!(vs[0].get_at_path(input.as_bytes(), b"intel"), Ok(&Val::Integer(7))))
        }
        other => panic!("{:?}", other),
    }
}

#[test]
fn typed_lookups_check_the_kind_of_value() {
    let input = "a={ n=5 d=1.5 s=\"txt\" i=word t=\"2200.05.01\" set={ 1 2 } arr={ 0=x } nd={ { 3 { k=1 } } } }";
    let tree = parsed(input);
    let bytes = input.as_bytes();
    assert_eq!(tree.get_integer_at_path(bytes, b"a.n"), Ok(5));
    assert_eq!(tree.get_decimal_at_path(bytes, b"a.d").map(|x| text(bytes, x)), Ok(&b"1.5"[..]));
    assert_eq!(tree.get_string_at_path(bytes, b"a.s").map(|x| text(bytes, x)), Ok(&b"txt"[..]));
    assert_eq!(tree.get_identifier_at_path(bytes, b"a.i").map(|x| text(bytes, x)), Ok(&b"word"[..]));
    assert_eq!(
        tree.get_date_at_path(bytes, b"a.t"),
        Ok(clausewitz_parser::Date { year: 2200, month: 5, day: 1 })
    );
    assert_eq!(tree.get_set_at_path(bytes, b"a.set").map(|vs| vs.len()), Ok(2));
    assert_eq!(tree.get_array_at_path(bytes, b"a.arr").map(|ps| ps[0].0), Ok(0));
    assert_eq!(tree.get_dict_at_path(bytes, b"a").map(|es| es.len()), Ok(8));
    assert_eq!(
        tree.get_integer_at_path(bytes, b"a.s"),
        Err(IndexError { kind: IndexErrorKind::WrongType, depth: 2 })
    );
    assert_eq!(
        tree.get_numbered_dict_at_path(bytes, b"a").map(|(n, _)| n),
        Err(IndexError { kind: IndexErrorKind::WrongType, depth: 1 })
    );
    match tree.get_set_at_path(bytes, b"a.nd") {
        Ok(vs) => match &vs[0] {
            Val::NumberedDict(n, es) => {
                assert_eq!(*n, 3);
                assert_eq!(es.len(), 1);
            }
            other => panic!("{:?}", other),
        },
        other => panic!("{:?}", other),
    }
}
