use clausewitz_parser::blocks::{merge_blocks, parse_block, split_blocks, wanted_blocks};
use clausewitz_parser::{cheat_root, Span, Val};

fn keys(ks: &[&str]) -> Vec<Vec<u8>> {
    ks.iter().map(|k| k.as_bytes().to_vec()).collect()
}

fn top_keys(input: &[u8], v: &Val) -> Vec<String> {
    match v {
        Val::Dict(es) => es
            .iter()
            .map(|(k, _)| String::from_utf8(input[k.start..k.end].to_vec()).unwrap())
            .collect(),
        other => panic!("{:?}", other),
    }
}

#[test]
fn root__key_identifier_pairs__ok() {
    let text = r###"dict={
    alpha=a
    beta=b
    cthulhu=ilhjok
}
dict2={
    charlie=a
    delta=b
    zoo=ilhjok
}"###;

    let result = cheat_root(
        text.as_bytes(),
        &keys(&["version", "player", "country", "fleet", "ships"]),
    );

    assert!(result.is_ok());
}

#[test]
fn records_start_at_line_starts_with_a_key_and_equals_sign() {
    let input = b"version=\"3\"\nplayer={\n\tname=x\n}\ncountry={\n\t0={ a=1 }\n}\n";
    let bs = split_blocks(input);
    assert_eq!(
        bs,
        vec![
            Span { start: 0, end: 12 },
            Span { start: 12, end: 31 },
            Span { start: 31, end: input.len() },
        ]
    );
}

#[test]
fn unindented_nested_entries_split_a_record() {
    let input = b"country={\n0={ a=1 }\n}\n";
    let bs = split_blocks(input);
    assert_eq!(bs, vec![Span { start: 0, end: 10 }, Span { start: 10, end: input.len() }]);
    let (_, tree) = cheat_root(input, &keys(&["country"])).unwrap();
    assert!(top_keys(input, &tree).is_empty());
}

#[test]
fn only_the_requested_records_are_parsed() {
    let input = b"version=\"3\"\nplayer={\n\tname=x\n}\ncountry={\n\t0={ a=1 }\n}\nfleet=1\n";
    let (end, tree) = cheat_root(input, &keys(&["country", "version"])).unwrap();
    assert_eq!(end, input.len());
    assert_eq!(top_keys(input, &tree), vec!["version", "country"]);
}

#[test]
fn records_that_fail_to_parse_are_dropped() {
    let input = b"country={ a=1\nfleet={ b=2 }\nships=3\n";
    let (_, tree) = cheat_root(input, &keys(&["country", "fleet", "ships"])).unwrap();
    assert_eq!(top_keys(input, &tree), vec!["fleet", "ships"]);
}

#[test]
fn the_driver_pieces_compose() {
    let input = b"a=1\nb=2\nc=3\n";
    let bs = split_blocks(input);
    let ws = wanted_blocks(input, &bs, &keys(&["c", "a"]));
    assert_eq!(ws, vec![Span { start: 0, end: 4 }, Span { start: 8, end: 12 }]);
    let parts: Vec<Option<Vec<(Span, Val)>>> = ws.iter().map(|b| parse_block(input, *b)).collect();
    let merged = merge_blocks(parts);
    assert_eq!(top_keys(input, &merged), vec!["a", "c"]);
}
