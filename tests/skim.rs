use clausewitz_parser::skim::{search_document, ConfigError, InputSearchPair};
use clausewitz_parser::{Span, Val};

fn text(input: &[u8], x: Span) -> &str {
    std::str::from_utf8(&input[x.start..x.end]).unwrap()
}

fn found(input: &str, path: &str) -> Vec<Val> {
    let isp = InputSearchPair::create(input.as_bytes(), path.as_bytes()).unwrap();
    search_document(&isp).unwrap()
}

#[test]
fn test_name() {
    let search = InputSearchPair::create(b"asdffdsa", b"asdf");
    assert!(search.is_ok());
    let search = search.unwrap();
    println!("{:?}", search.search_path);
    assert_eq!(search.search_path, vec![Span { start: 0, end: 4 }]);
    assert_eq!(search.search_path_index, 0);
}

#[test]
fn a_path_selects_the_values_under_matching_keys() {
    let input = "country = {\n    1 = one\n    2 = two\n}\nother=3";
    let vs = found(input, "country.2");
    assert_eq!(vs.len(), 1);
    match &vs[0] {
        Val::Identifier(x) => assert_eq!(text(input.as_bytes(), *x), "two"),
        other => panic!("{:?}", other),
    }
    let vs = found(input, "country");
    assert_eq!(vs.len(), 1);
    assert!(matches!(&vs[0], Val::Array(ps) if ps.len() == 2));
}

#[test]
fn every_matching_entry_is_selected_in_order() {
    let input = "a={ x=1 } b={ x=2 } a={ x=3 y=4 }";
    let vs = found(input, "a.x");
    assert!(matches!(vs.as_slice(), [Val::Integer(1), Val::Integer(3)]));
}

#[test]
fn sets_are_searched_through() {
    let input = "intel={ { 14 { intel=5 } } { 19 { intel=6 } } }";
    let vs = found(input, "intel.intel");
    assert!(matches!(vs.as_slice(), [Val::Integer(5), Val::Integer(6)]));
}

#[test]
fn an_absent_path_selects_nothing() {
    let input = "country={ budget={ income=25.5 } }";
    assert!(found(input, "country.fleet").is_empty());
    let vs = found(input, "country.budget.income");
    match vs.as_slice() {
        [Val::Decimal(x)] => assert_eq!(text(input.as_bytes(), *x), "25.5"),
        other => panic!("{:?}", other),
    }
}

#[test]
fn array_entries_are_selected_by_index_in_source_order() {
    let input = "c={ 3={ v=a } 1={ v=b } 3={ v=c } }";
    let vs = found(input, "c.3.v");
    let names: Vec<&str> = vs
        .iter()
        .map(|v| match v {
            Val::Identifier(x) => text(input.as_bytes(), *x),
            other => panic!("{:?}", other),
        })
        .collect();
    assert_eq!(names, vec!["a", "c"]);
}

#[test]
fn deep_paths_are_refused() {
    let r = InputSearchPair::create(b"a=1", b"a.b.c.d.e.f.g.h.i.j.k");
    assert_eq!(r.err(), Some(ConfigError { components: 11 }));
    assert!(InputSearchPair::create(b"a=1", b"a.b.c.d.e.f.g.h.i.j").is_ok());
}

#[test]
fn a_malformed_document_is_an_error() {
    let isp = InputSearchPair::create(b"a={ b=1", b"a.b").unwrap();
    assert!(search_document(&isp).is_err());
}
