use clausewitz_parser::parser::{bracketed, key_value, Parsed};
use clausewitz_parser::{root, Date, ErrorKind, ParseError, Span, Val};

fn text(input: &[u8], x: Span) -> String {
    String::from_utf8(input[x.start..x.end].to_vec()).unwrap()
}

fn show(input: &[u8], v: &Val) -> String {
    match v {
        Val::Dict(es) => {
            let parts: Vec<String> = es
                .iter()
                .map(|(k, v)| format!("{}={}", text(input, *k), show(input, v)))
                .collect();
            format!("{{{}}}", parts.join(" "))
        }
        Val::NumberedDict(n, es) => {
            let parts: Vec<String> = es
                .iter()
                .map(|(k, v)| format!("{}={}", text(input, *k), show(input, v)))
                .collect();
            format!("{}{{{}}}", n, parts.join(" "))
        }
        Val::Array(ps) => {
            let parts: Vec<String> = ps
                .iter()
                .map(|(i, v)| format!("{}:{}", i, show(input, v)))
                .collect();
            format!("[{}]", parts.join(" "))
        }
        Val::ValueSet(vs) => {
            let parts: Vec<String> = vs.iter().map(|v| show(input, v)).collect();
            format!("<{}>", parts.join(" "))
        }
        Val::StringLiteral(x) => format!("\"{}\"", text(input, *x)),
        Val::Date(d) => format!("D({},{},{})", d.year, d.month, d.day),
        Val::Decimal(x) => format!("dec({})", text(input, *x)),
        Val::Integer(n) => format!("int({})", n),
        Val::Identifier(x) => format!("id({})", text(input, *x)),
    }
}

fn assert_result_ok<T: std::fmt::Debug>(result: Result<(usize, T), ParseError>) {
    assert!(result.is_ok(), "{:?}", result);
}

fn assert_done<T: std::fmt::Debug>(result: Parsed<T>) {
    assert!(matches!(result, Parsed::Done(_, _)), "{:?}", result);
}

/// Parses a whole document and renders it; the whole input must be consumed.
fn parse_all(input: &str) -> String {
    match root(input.as_bytes()) {
        Ok((rest, v)) => {
            assert_eq!(rest, input.len(), "unparsed rest in {:?}", input);
            show(input.as_bytes(), &v)
        }
        Err(e) => panic!("{:?} in {:?}", e, input),
    }
}

#[test]
fn bracketed__dict__dict() {
    let text = r###"{
			first="first"
			second="second"
	}"###;
    let result = bracketed(text.as_bytes(), 0);
    assert_done(result)
}

#[test]
fn bracketed__array__array() {
    let text = r###"{
		0="first"
		1="second"
	}"###;
    let result = bracketed(text.as_bytes(), 0);
    assert_done(result)
}

#[test]
fn bracketed__set__set() {
    let text = r###"{
		"first"
		"second"
	}"###;
    let result = bracketed(text.as_bytes(), 0);
    assert_done(result)
}

#[test]
fn key_value__unquoted__accepted() {
    let text = r###"key.0="value""###;
    let result = key_value(text.as_bytes(), 0);
    assert_done(result)
}

#[test]
fn key_value__quoted__accepted() {
    let text = r###""key.0"=0"###;
    let result = key_value(text.as_bytes(), 0);
    assert_done(result)
}

#[test]
fn key_value__begins_with_number_quoted__accepted() {
    let text = r###""0_key.0"=0"###;
    let result = key_value(text.as_bytes(), 0);
    assert_done(result)
}

#[test]
fn key_value__begins_with_number_unquoted__accepted() {
    let text = r###"0_key.0=0"###;
    let result = key_value(text.as_bytes(), 0);
    assert_done(result)
}

#[test]
fn basics() {
    let text = r###"vers_ion0="Herbert v3.2.2"
            version_control_revision=83287
            date="2200.05.01"
            date="0.05.01"
            float=-0.123939887"###;

    let result = root(text.as_bytes());
    assert_result_ok(result);
}

#[test]
fn set_numbers_same_line() {
    let text = r###"set_of_numbers={
    40 41
}"###;

    let result = root(text.as_bytes());
    assert_result_ok(result);
}

#[test]
fn space_not_new_line() {
    let text = r###"modules={
                0=shipyard				1=trading_hub			}"###;

    let result = root(text.as_bytes());
    assert_result_ok(result);
}

#[test]
fn kv_pair_starts_with_number() {
    let text = r###"flags={
            3_year_owner_change_flag={
                flag_date=63568248
                flag_days=293
            }
        }"###;
    let result = key_value(text.as_bytes(), 0);
    println!("{:?}", result);

    assert_done(result);
}

#[test]
fn intel_numbered_dicts() {
    let text = r###"intel={
                                    {
                                        14 {
                                            intel=0
                                            stale_intel={
                                            }
                                        }
                                    }
                                    {
                                        19 {
                                            intel=0
                                            stale_intel={
                                            }
                                        }
                                    }
                                }"###;
    let result = root(text.as_bytes());

    assert_result_ok(result);
}

#[test]
fn dict_of_dicts() {
    let text = r###"dict_of_dicts={
                icon={
                    category="human"
                    file="flag_human_9.dds"
                }
                background={
                    category="backgrounds"
                    file="00_solid.dds"
                }
                colors={
                    "blue"
                    "black"
                    "null"
                    "null"
                }
            }"###;

    let result = root(text.as_bytes());
    assert_result_ok(result);
}

#[test]
fn quoted__key__ok() {
    let text = r###""The name Of A Ship"=0"###;

    let result = root(text.as_bytes());
    assert_result_ok(result);
}

#[test]
fn empty__set__set() {
    let text = r###"empty_set={}"###;

    let result = root(text.as_bytes());
    assert_result_ok(result);
}

#[test]
fn root__set_of_strings__accepted() {
    let text = r###"set_of_strings={
                "Ancient Relics Story Pack"
                "Anniversary Portraits"
                "Apocalypse"
            }"###;

    let result = root(text.as_bytes());
    assert_result_ok(result);
}

#[test]
fn array__of__arrays() {
    let text = r###"array_of_arrays={
                0={
                    0="a"
                }
                1={
                    0="one"
                }
                2={
                    0="two"
                }
            }"###;

    let result = root(text.as_bytes());
    assert_result_ok(result);
}

#[test]
fn identifier__with__underscore() {
    let text = r###"identifier=identi_fire"###;

    let result = root(text.as_bytes());
    assert_result_ok(result);
}

#[test]
fn dict__key_identifier_pairs__ok() {
    let text = r###"dict={
                alpha=a
                beta=b
                cthulhu=ilhjok
            }"###;

    let result = root(text.as_bytes());
    assert_result_ok(result);
}

#[test]
fn empty_set_is_a_set_without_values() {
    assert_eq!(parse_all("empty_set={}"), "{empty_set=<>}");
    assert_eq!(parse_all("empty_set={ \n\t }"), "{empty_set=<>}");
}

#[test]
fn numbers_on_one_line_form_a_set() {
    assert_eq!(parse_all("set_of_numbers={\n    40 41\n}"), "{set_of_numbers=<int(40) int(41)>}");
}

#[test]
fn tab_separated_index_entries_form_an_array() {
    assert_eq!(
        parse_all("modules={\n                0=shipyard\t\t\t\t1=trading_hub\t\t\t}"),
        "{modules=[0:id(shipyard) 1:id(trading_hub)]}"
    );
}

#[test]
fn quoted_key_loses_its_quotes() {
    assert_eq!(parse_all("\"The name Of A Ship\"=0"), "{The name Of A Ship=int(0)}");
}

#[test]
fn quoted_dates_are_dates() {
    assert_eq!(parse_all("date=\"2200.05.01\""), "{date=D(2200,5,1)}");
    assert_eq!(parse_all("date=\"0.05.01\""), "{date=D(0,5,1)}");
    let input = "date=\"2200.05.01\"";
    match root(input.as_bytes()) {
        Ok((_, Val::Dict(es))) => {
            assert!(matches!(es[0].1, Val::Date(Date { year: 2200, month: 5, day: 1 })))
        }
        other => panic!("{:?}", other),
    }
}

#[test]
fn invalid_dates_are_rejected() {
    let input = "date=\"2200.13.01\"";
    assert_eq!(
        root(input.as_bytes()).err(),
        Some(ParseError { kind: ErrorKind::InvalidScalar, offset: 6 })
    );
    let input = "date=\"2201.02.29\"";
    assert_eq!(
        root(input.as_bytes()).err(),
        Some(ParseError { kind: ErrorKind::InvalidScalar, offset: 6 })
    );
    assert_eq!(parse_all("date=\"2000.02.29\""), "{date=D(2000,2,29)}");
}

#[test]
fn numbered_dicts_inside_a_set_of_blocks() {
    let input = r###"intel={
        {
            14 {
                intel=0
                stale_intel={
                }
            }
        }
        {
            19 {
                intel=0
                stale_intel={}
            }
        }
    }"###;
    assert_eq!(
        parse_all(input),
        "{intel=<14{intel=int(0) stale_intel=<>} 19{intel=int(0) stale_intel=<>}>}"
    );
}

#[test]
fn keys_may_begin_with_digits() {
    let input = "flags={ 3_year_owner_change_flag={ flag_date=63568248\nflag_days=293 } }";
    assert_eq!(
        parse_all(input),
        "{flags={3_year_owner_change_flag={flag_date=int(63568248) flag_days=int(293)}}}"
    );
}

#[test]
fn scalars_are_told_apart() {
    assert_eq!(
        parse_all("a=-12 b=3.25 c=-0.5 d=x_1 e=1.2.3 f=\"s t\" g=v3.2"),
        "{a=int(-12) b=dec(3.25) c=dec(-0.5) d=id(x_1) e=D(1,2,3) f=\"s t\" g=id(v3.2)}"
    );
    assert_eq!(parse_all("n=-9223372036854775808"), "{n=int(-9223372036854775808)}");
    assert_eq!(parse_all("n=9223372036854775807"), "{n=int(9223372036854775807)}");
}

#[test]
fn an_integer_too_large_is_rejected() {
    let input = "n=9223372036854775808";
    assert_eq!(
        root(input.as_bytes()).err(),
        Some(ParseError { kind: ErrorKind::InvalidScalar, offset: 2 })
    );
}

#[test]
fn arrays_are_sorted_by_index() {
    assert_eq!(parse_all("a={ 2=two 0=zero 1=one 0=again }"), "{a=[0:id(zero) 0:id(again) 1:id(one) 2:id(two)]}");
}

#[test]
fn dictionary_entries_keep_source_order_and_duplicates() {
    assert_eq!(parse_all("b=1\na=2\nb=3"), "{b=int(1) a=int(2) b=int(3)}");
}

#[test]
fn whitespace_round_a_document_is_consumed() {
    assert_eq!(parse_all("  \n a = 1 \n\n"), "{a=int(1)}");
    assert_eq!(parse_all(""), "{}");
}

#[test]
fn a_missing_closing_brace_is_reported() {
    let input = "a={ b=1 ";
    assert_eq!(
        root(input.as_bytes()).err(),
        Some(ParseError { kind: ErrorKind::MismatchedBraces, offset: 8 })
    );
    let input = "a={ b=1 c";
    assert_eq!(
        root(input.as_bytes()).err(),
        Some(ParseError { kind: ErrorKind::UnexpectedEndOfInput, offset: 9 })
    );
    let input = "a={ 1 2 =x }";
    assert_eq!(
        root(input.as_bytes()).err(),
        Some(ParseError { kind: ErrorKind::UnexpectedToken, offset: 6 })
    );
}

#[test]
fn a_key_without_equals_sign_is_reported() {
    let input = "a={ b=1 c d=2 }";
    assert_eq!(
        root(input.as_bytes()).err(),
        Some(ParseError { kind: ErrorKind::UnexpectedToken, offset: 10 })
    );
}

#[test]
fn an_unterminated_string_is_reported() {
    let input = "a=\"abc";
    assert_eq!(
        root(input.as_bytes()).err(),
        Some(ParseError { kind: ErrorKind::UnexpectedEndOfInput, offset: 6 })
    );
}

#[test]
fn an_unparsable_entry_ends_the_document() {
    let input = "a=1 } b=2";
    assert_eq!(root(input.as_bytes()).ok().map(|(k, _)| k), Some(4));
}

fn spans_within(v: &Val, n: usize) -> bool {
    let ok = |x: &Span| x.start <= x.end && x.end <= n;
    match v {
        Val::Dict(es) | Val::NumberedDict(_, es) => es.iter().all(|(k, v)| ok(k) && spans_within(v, n)),
        Val::Array(ps) => ps.iter().all(|(_, v)| spans_within(v, n)),
        Val::ValueSet(vs) => vs.iter().all(|v| spans_within(v, n)),
        Val::StringLiteral(x) | Val::Decimal(x) | Val::Identifier(x) => ok(x),
        Val::Date(_) | Val::Integer(_) => true,
    }
}

#[test]
fn every_span_lies_within_the_input() {
    let input = "a={ b=\"x y\" c=1.25 d={ 0=e 1=\"f\" } } \"g h\"=i";
    let (rest, tree) = root(input.as_bytes()).unwrap();
    assert_eq!(rest, input.len());
    assert!(spans_within(&tree, input.len()));
}

#[test]
fn dictionary_keys_stand_in_source_order() {
    let input = "z=1 y={ b=2 a=3 } x=4";
    let (_, tree) = root(input.as_bytes()).unwrap();
    match tree {
        Val::Dict(es) => {
            let starts: Vec<usize> = es.iter().map(|(k, _)| k.start).collect();
            assert_eq!(starts, vec![0, 4, 18]);
        }
        other => panic!("{:?}", other),
    }
}
