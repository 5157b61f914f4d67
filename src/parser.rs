//! The recursive-descent parser, proved to follow the grammar of [`crate::grammar`].
use vstd::prelude::*;
use crate::classify::{
    in_class_exec, is_identifier_byte, lemma_run_end, run_end, take_simd_identifier,
    take_simd_not_token, take_simd_space, take_simd_string_literal, take_while, CharClass,
};
use crate::grammar::{
    array_list_spec, array_tail_spec, as_array, as_dict, as_set, blocks_list_spec,
    blocks_tail_spec, bracketed_spec, contents_spec, dict_list_spec, dict_tail_spec, entry_spec,
    index_entry_spec, key_spec, lemma_insert_by_index, lemma_sort_by_index, missing,
    numbered_dict_spec, quoted_spec, root_spec, scalar_spec, set_list_spec, set_tail_spec,
    sort_by_index, sp, value_spec, ErrorKind, Outcome, ParseError,
};
use crate::scalar::{date_token, decimal_token, integer_token, is_integer_token, parse_digits};
use crate::val::{
    indexes_sorted, lemma_entry_trees_ok, lemma_indexed_trees_ok, lemma_trees_ok,
    lemma_view_entries_push, lemma_view_indexed_index, lemma_view_indexed_push,
    lemma_view_vals_push, tree_ok, view_entries, view_indexed, view_vals, SVal, Span, Val,
};

verus! {

broadcast use crate::classify::lemma_run_end_bounds;

/// What a parsing function returns: a result and the offset just after it; no match, with
/// nothing consumed; or a fatal error.
#[derive(Debug)]
pub enum Parsed<T> {
    Done(T, usize),
    Miss,
    Fatal(ParseError),
}

/// `p` is the outcome `o`, its result seen through `f`.
pub open spec fn agrees<T, U>(p: Parsed<T>, o: Outcome<U>, f: spec_fn(T) -> U) -> bool {
    match p {
        Parsed::Done(v, k) => o == Outcome::Done(f(v), k as int),
        Parsed::Miss => o is Miss,
        Parsed::Fatal(e) => o == Outcome::<U>::Fatal(e),
    }
}

pub fn missing_at(input: &[u8], at: usize) -> (r: ParseError)
    ensures
        r == missing(input@, at as int),
{
    if at >= input.len() {
        ParseError { kind: ErrorKind::UnexpectedEndOfInput, offset: at }
    } else {
        ParseError { kind: ErrorKind::UnexpectedToken, offset: at }
    }
}

/// Optional whitespace from `pos`: where it ends.
pub fn opt_space(input: &[u8], pos: usize) -> (r: usize)
    requires
        pos <= input@.len(),
    ensures
        r == sp(input@, pos as int),
        pos <= r <= input@.len(),
{
    proof {
        lemma_run_end(input@, pos as int, CharClass::Space);
    }
    take_simd_space(input, pos)
}

/// Required whitespace from `pos`: where it ends, or `None` where there is none.
pub fn req_space(input: &[u8], pos: usize) -> (r: Option<usize>)
    requires
        pos <= input@.len(),
    ensures
        r is Some <==> sp(input@, pos as int) > pos,
        r matches Some(m) ==> m == sp(input@, pos as int),
{
    let m = opt_space(input, pos);
    if m > pos {
        Some(m)
    } else {
        None
    }
}

/// An unquoted key: a non-empty run of identifier bytes, which may begin with a digit.
pub fn unquoted_key(input: &[u8], pos: usize) -> (r: Parsed<Span>)
    requires
        pos <= input@.len(),
    ensures
        pos < input@.len() && is_identifier_byte(input@[pos as int]) ==> agrees(
            r,
            key_spec(input@, pos as int),
            |x: Span| x,
        ),
        !(pos < input@.len() && is_identifier_byte(input@[pos as int]))
            ==> r is Miss,
{
    let e = take_simd_identifier(input, pos);
    proof {
        if pos < input@.len() && is_identifier_byte(input@[pos as int]) {
            assert(run_end(input@, pos as int, CharClass::Identifier) == run_end(
                input@,
                pos + 1,
                CharClass::Identifier,
            ));
        }
    }
    if e == pos {
        Parsed::Miss
    } else {
        Parsed::Done(Span { start: pos, end: e }, e)
    }
}

/// A quoted key: the bytes between a pair of double quotes, without them.
pub fn quoted_key(input: &[u8], pos: usize) -> (r: Parsed<Span>)
    requires
        pos <= input@.len(),
    ensures
        pos < input@.len() && input@[pos as int] == 0x22 ==> agrees(
            r,
            key_spec(input@, pos as int),
            |x: Span| x,
        ),
        !(pos < input@.len() && input@[pos as int] == 0x22) ==> r is Miss,
{
    if !(pos < input.len() && input[pos] == 0x22) {
        return Parsed::Miss;
    }
    let e = take_simd_string_literal(input, pos + 1);
    proof {
        lemma_run_end(input@, pos + 1, CharClass::StringBody);
    }
    if e < input.len() {
        Parsed::Done(Span { start: pos + 1, end: e }, e + 1)
    } else {
        Parsed::Fatal(ParseError { kind: ErrorKind::UnexpectedEndOfInput, offset: e })
    }
}

/// A key, unquoted or quoted.
pub fn key(input: &[u8], pos: usize) -> (r: Parsed<Span>)
    requires
        pos <= input@.len(),
    ensures
        agrees(r, key_spec(input@, pos as int), |x: Span| x),
        r matches Parsed::Done(x, k) ==> pos <= x.start <= x.end <= k <= input@.len() && pos < k,
{
    proof {
        lemma_run_end(input@, pos as int, CharClass::Identifier);
        if pos < input@.len() {
            lemma_run_end(input@, pos + 1, CharClass::StringBody);
        }
    }
    if pos < input.len() && in_class_exec(CharClass::Identifier, input[pos]) {
        unquoted_key(input, pos)
    } else {
        quoted_key(input, pos)
    }
}

/// Whether `input[a..e]` is an integer token, whatever its size.
fn integer_shape(input: &[u8], a: usize, e: usize) -> (r: bool)
    requires
        a <= e <= input@.len(),
    ensures
        r == is_integer_token(input@, a as int, e as int),
{
    let m: usize = if a < input.len() && input[a] == 0x2d { a + 1 } else { a };
    if !(m < e) {
        return false;
    }
    take_while(input, m, CharClass::Digit) == e
}

/// An unquoted scalar value.
pub fn unquoted(input: &[u8], pos: usize) -> (r: Parsed<Val>)
    requires
        pos <= input@.len(),
    ensures
        agrees(r, scalar_spec(input@, pos as int), |v: Val| v@),
        r matches Parsed::Done(v, k) ==> pos < k <= input@.len() && tree_ok(v@, input@.len() as int),
{
    if pos >= input.len() {
        return Parsed::Miss;
    }
    let e = take_simd_identifier(input, pos);
    proof {
        lemma_run_end(input@, pos as int, CharClass::Identifier);
    }
    if e == pos {
        return Parsed::Miss;
    }
    match date_token(input, pos, e) {
        Some(Some(d)) => {
            return Parsed::Done(Val::Date(d), e);
        },
        Some(None) => {
            return Parsed::Fatal(ParseError { kind: ErrorKind::InvalidScalar, offset: pos });
        },
        None => {},
    }
    if decimal_token(input, pos, e) {
        return Parsed::Done(Val::Decimal(Span { start: pos, end: e }), e);
    }
    if integer_shape(input, pos, e) {
        return match integer_token(input, pos, e) {
            Some(n) => Parsed::Done(Val::Integer(n), e),
            None => Parsed::Fatal(ParseError { kind: ErrorKind::InvalidScalar, offset: pos }),
        };
    }
    if !(0x30 <= input[pos] && input[pos] <= 0x39) {
        Parsed::Done(Val::Identifier(Span { start: pos, end: e }), e)
    } else {
        Parsed::Miss
    }
}

/// A quoted value at `pos`, where a double quote stands.
pub fn quoted(input: &[u8], pos: usize) -> (r: Parsed<Val>)
    requires
        pos < input@.len(),
        input@[pos as int] == 0x22,
    ensures
        agrees(r, quoted_spec(input@, pos as int), |v: Val| v@),
        r matches Parsed::Done(v, k) ==> pos < k <= input@.len() && tree_ok(v@, input@.len() as int),
{
    let n = input.len();
    let e = take_simd_string_literal(input, pos + 1);
    proof {
        lemma_run_end(input@, pos + 1, CharClass::StringBody);
    }
    if e >= n {
        return Parsed::Fatal(ParseError { kind: ErrorKind::UnexpectedEndOfInput, offset: e });
    }
    match date_token(input, pos + 1, e) {
        Some(Some(d)) => Parsed::Done(Val::Date(d), e + 1),
        Some(None) => Parsed::Fatal(ParseError { kind: ErrorKind::InvalidScalar, offset: pos + 1 }),
        None => Parsed::Done(Val::StringLiteral(Span { start: pos + 1, end: e }), e + 1),
    }
}

/// A value: a block, a quoted value or an unquoted scalar.
pub fn value(input: &[u8], pos: usize) -> (r: Parsed<Val>)
    requires
        pos <= input@.len(),
    ensures
        agrees(r, value_spec(input@, pos as int), |v: Val| v@),
        r matches Parsed::Done(v, k) ==> pos < k <= input@.len() && tree_ok(v@, input@.len() as int),
    decreases input@.len() - pos, 3int,
{
    if pos >= input.len() {
        Parsed::Miss
    } else if input[pos] == 0x7b {
        bracketed(input, pos)
    } else if input[pos] == 0x22 {
        quoted(input, pos)
    } else {
        unquoted(input, pos)
    }
}

/// A block: `{`, optional whitespace, its body, optional whitespace, `}`.
pub fn bracketed(input: &[u8], pos: usize) -> (r: Parsed<Val>)
    requires
        pos <= input@.len(),
    ensures
        agrees(r, bracketed_spec(input@, pos as int), |v: Val| v@),
        r matches Parsed::Done(v, k) ==> pos < k <= input@.len() && tree_ok(v@, input@.len() as int),
    decreases input@.len() - pos, 2int,
{
    if !(pos < input.len() && input[pos] == 0x7b) {
        return Parsed::Miss;
    }
    let j = opt_space(input, pos + 1);
    match contents(input, j) {
        Parsed::Done(v, k) => {
            let m = opt_space(input, k);
            if m < input.len() && input[m] == 0x7d {
                Parsed::Done(v, m + 1)
            } else {
                Parsed::Fatal(ParseError { kind: ErrorKind::MismatchedBraces, offset: m })
            }
        },
        Parsed::Miss => Parsed::Fatal(missing_at(input, j)),
        Parsed::Fatal(e) => Parsed::Fatal(e),
    }
}

/// The body of a block, its shape chosen by a look ahead to the first `=`, `{` or `}`.
pub fn contents(input: &[u8], pos: usize) -> (r: Parsed<Val>)
    requires
        pos <= input@.len(),
    ensures
        agrees(r, contents_spec(input@, pos as int), |v: Val| v@),
        r matches Parsed::Done(v, k) ==> pos <= k <= input@.len() && tree_ok(v@, input@.len() as int),
    decreases input@.len() - pos, 7int,
{
    let t = take_simd_not_token(input, pos);
    if t >= input.len() {
        return Parsed::Fatal(ParseError { kind: ErrorKind::UnexpectedEndOfInput, offset: t });
    }
    if input[t] == 0x7d {
        return value_set(input, pos);
    }
    let x = take_simd_identifier(input, pos);
    proof {
        lemma_run_end(input@, pos as int, CharClass::Identifier);
    }
    let integer_first = integer_token(input, pos, x).is_some();
    if input[t] == 0x3d {
        if integer_first {
            array(input, pos)
        } else {
            dict(input, pos)
        }
    } else if integer_first {
        numbered_dict(input, pos)
    } else {
        set_of_collections(input, pos)
    }
}

/// `key = value`.
pub fn key_value(input: &[u8], pos: usize) -> (r: Parsed<(Span, Val)>)
    requires
        pos <= input@.len(),
    ensures
        agrees(r, entry_spec(input@, pos as int), |e: (Span, Val)| (e.0, e.1@)),
        r matches Parsed::Done(e, k) ==> pos <= e.0.start <= e.0.end <= k <= input@.len() && pos
            < k && tree_ok(e.1@, input@.len() as int),
    decreases input@.len() - pos, 4int,
{
    match key(input, pos) {
        Parsed::Done(x, j) => {
            let q = opt_space(input, j);
            if q < input.len() && input[q] == 0x3d {
                let p = opt_space(input, q + 1);
                match value(input, p) {
                    Parsed::Done(v, r) => Parsed::Done((x, v), r),
                    Parsed::Miss => Parsed::Fatal(missing_at(input, p)),
                    Parsed::Fatal(e) => Parsed::Fatal(e),
                }
            } else {
                Parsed::Fatal(missing_at(input, q))
            }
        },
        Parsed::Miss => Parsed::Miss,
        Parsed::Fatal(e) => Parsed::Fatal(e),
    }
}

/// `index = value`, where the index is a run of digits.
pub fn number_value(input: &[u8], pos: usize) -> (r: Parsed<(u64, Val)>)
    requires
        pos <= input@.len(),
    ensures
        agrees(r, index_entry_spec(input@, pos as int), |e: (u64, Val)| (e.0, e.1@)),
        r matches Parsed::Done(e, k) ==> pos < k <= input@.len() && tree_ok(
            e.1@,
            input@.len() as int,
        ),
    decreases input@.len() - pos, 4int,
{
    let d = take_while(input, pos, CharClass::Digit);
    proof {
        lemma_run_end(input@, pos as int, CharClass::Digit);
    }
    if d == pos {
        return Parsed::Miss;
    }
    match parse_digits(input, pos, d, u64::MAX) {
        None => Parsed::Fatal(ParseError { kind: ErrorKind::InvalidScalar, offset: pos }),
        Some(index) => {
            let q = opt_space(input, d);
            if q < input.len() && input[q] == 0x3d {
                let p = opt_space(input, q + 1);
                match value(input, p) {
                    Parsed::Done(v, r) => Parsed::Done((index, v), r),
                    Parsed::Miss => Parsed::Fatal(missing_at(input, p)),
                    Parsed::Fatal(e) => Parsed::Fatal(e),
                }
            } else {
                Parsed::Fatal(missing_at(input, q))
            }
        },
    }
}

/// `N { entries }`: an integer tag, whitespace, then a dictionary body in braces.
pub fn numbered_dict(input: &[u8], pos: usize) -> (r: Parsed<Val>)
    requires
        pos <= input@.len(),
    ensures
        agrees(r, numbered_dict_spec(input@, pos as int), |v: Val| v@),
        r matches Parsed::Done(v, k) ==> pos < k <= input@.len() && tree_ok(v@, input@.len() as int),
    decreases input@.len() - pos, 5int,
{
    let x = take_simd_identifier(input, pos);
    proof {
        lemma_run_end(input@, pos as int, CharClass::Identifier);
    }
    let number = match integer_token(input, pos, x) {
        Some(n) => n,
        None => {
            return Parsed::Miss;
        },
    };
    let q = opt_space(input, x);
    if q == x {
        return Parsed::Fatal(missing_at(input, x));
    }
    if !(q < input.len() && input[q] == 0x7b) {
        return Parsed::Fatal(missing_at(input, q));
    }
    let p = opt_space(input, q + 1);
    match hash_map(input, p) {
        Parsed::Done(es, r) => {
            let t = opt_space(input, r);
            if t < input.len() && input[t] == 0x7d {
                Parsed::Done(Val::NumberedDict(number, es), t + 1)
            } else {
                Parsed::Fatal(ParseError { kind: ErrorKind::MismatchedBraces, offset: t })
            }
        },
        Parsed::Miss => Parsed::Fatal(missing_at(input, p)),
        Parsed::Fatal(e) => Parsed::Fatal(e),
    }
}

/// Entries separated by whitespace, in source order; the list ends before the first one
/// that cannot start.
pub fn hash_map(input: &[u8], pos: usize) -> (r: Parsed<Vec<(Span, Val)>>)
    requires
        pos <= input@.len(),
    ensures
        agrees(r, dict_list_spec(input@, pos as int), |es: Vec<(Span, Val)>| view_entries(es@)),
        r matches Parsed::Done(es, k) ==> pos <= k <= input@.len() && tree_ok(
            SVal::Dict(view_entries(es@)),
            input@.len() as int,
        ),
    decreases input@.len() - pos, 5int,
{
    let ghost s = input@;
    let ghost n = input@.len() as int;
    let mut acc: Vec<(Span, Val)> = Vec::new();
    let mut k: usize;
    match key_value(input, pos) {
        Parsed::Done(e, k0) => {
            proof {
                lemma_view_entries_push(acc@, e);
                lemma_entry_trees_ok(view_entries(acc@.push(e)), n);
            }
            acc.push(e);
            k = k0;
        },
        Parsed::Miss => {
            return Parsed::Done(acc, pos);
        },
        Parsed::Fatal(e) => {
            return Parsed::Fatal(e);
        },
    }
    loop
        invariant
            pos < k <= input@.len(),
            s == input@,
            n == input@.len(),
            dict_list_spec(s, pos as int) == dict_tail_spec(s, k as int, view_entries(acc@)),
            tree_ok(SVal::Dict(view_entries(acc@)), n),
            forall|a: int| 0 <= a < acc@.len() ==> (#[trigger] view_entries(acc@)[a]).0.end <= k,
            view_entries(acc@).len() == acc@.len(),
        decreases input@.len() - k,
    {
        let m = opt_space(input, k);
        if m == k {
            return Parsed::Done(acc, k);
        }
        match key_value(input, m) {
            Parsed::Done(e, k2) => {
                proof {
                    lemma_view_entries_push(acc@, e);
                    let old_v = view_entries(acc@);
                    let new_v = old_v.push((e.0, e.1@));
                    lemma_entry_trees_ok(old_v, n);
                    assert forall|a: int| 0 <= a < new_v.len() implies tree_ok(
                        #[trigger] new_v[a].1,
                        n,
                    ) by {
                        if a < old_v.len() {
                            assert(new_v[a] == old_v[a]);
                        }
                    }
                    lemma_entry_trees_ok(new_v, n);
                    assert forall|a: int, b: int| 0 <= a < b < new_v.len() implies #[trigger] new_v[a].0.start
                        < #[trigger] new_v[b].0.start by {
                        assert(new_v[a] == old_v[a] || a == old_v.len());
                        if b < old_v.len() {
                            assert(new_v[b] == old_v[b]);
                        }
                    }
                }
                acc.push(e);
                k = k2;
            },
            Parsed::Miss => {
                return Parsed::Done(acc, k);
            },
            Parsed::Fatal(e) => {
                return Parsed::Fatal(e);
            },
        }
    }
}

/// A dictionary body.
pub fn dict(input: &[u8], pos: usize) -> (r: Parsed<Val>)
    requires
        pos <= input@.len(),
    ensures
        agrees(r, as_dict(dict_list_spec(input@, pos as int)), |v: Val| v@),
        r matches Parsed::Done(v, k) ==> pos <= k <= input@.len() && tree_ok(v@, input@.len() as int),
    decreases input@.len() - pos, 6int,
{
    match hash_map(input, pos) {
        Parsed::Done(es, k) => Parsed::Done(Val::Dict(es), k),
        Parsed::Miss => Parsed::Miss,
        Parsed::Fatal(e) => Parsed::Fatal(e),
    }
}

/// Values separated by whitespace.
fn set_values(input: &[u8], pos: usize) -> (r: Parsed<Vec<Val>>)
    requires
        pos <= input@.len(),
    ensures
        agrees(r, set_list_spec(input@, pos as int), |vs: Vec<Val>| view_vals(vs@)),
        r matches Parsed::Done(vs, k) ==> pos <= k <= input@.len() && (forall|a: int|
            0 <= a < view_vals(vs@).len() ==> #[trigger] tree_ok(view_vals(vs@)[a], input@.len() as int)),
    decreases input@.len() - pos, 5int,
{
    let ghost s = input@;
    let ghost n = input@.len() as int;
    let mut acc: Vec<Val> = Vec::new();
    let mut k: usize;
    match value(input, pos) {
        Parsed::Done(v, k0) => {
            proof {
                lemma_view_vals_push(acc@, v);
            }
            acc.push(v);
            k = k0;
        },
        Parsed::Miss => {
            return Parsed::Done(acc, pos);
        },
        Parsed::Fatal(e) => {
            return Parsed::Fatal(e);
        },
    }
    loop
        invariant
            pos < k <= input@.len(),
            s == input@,
            n == input@.len(),
            set_list_spec(s, pos as int) == set_tail_spec(s, k as int, view_vals(acc@)),
            forall|a: int| 0 <= a < view_vals(acc@).len() ==> #[trigger] tree_ok(view_vals(acc@)[a], n),
        decreases input@.len() - k,
    {
        let m = opt_space(input, k);
        if m == k {
            return Parsed::Done(acc, k);
        }
        match value(input, m) {
            Parsed::Done(v, k2) => {
                proof {
                    lemma_view_vals_push(acc@, v);
                    let old_v = view_vals(acc@);
                    let new_v = old_v.push(v@);
                    assert forall|a: int| 0 <= a < new_v.len() implies tree_ok(
                        #[trigger] new_v[a],
                        n,
                    ) by {
                        if a < old_v.len() {
                            assert(new_v[a] == old_v[a]);
                        } else {
                            assert(new_v[a] == v@);
                        }
                    }
                }
                acc.push(v);
                k = k2;
            },
            Parsed::Miss => {
                return Parsed::Done(acc, k);
            },
            Parsed::Fatal(e) => {
                return Parsed::Fatal(e);
            },
        }
    }
}

/// Blocks separated by whitespace.
fn block_values(input: &[u8], pos: usize) -> (r: Parsed<Vec<Val>>)
    requires
        pos <= input@.len(),
    ensures
        agrees(r, blocks_list_spec(input@, pos as int), |vs: Vec<Val>| view_vals(vs@)),
        r matches Parsed::Done(vs, k) ==> pos <= k <= input@.len() && (forall|a: int|
            0 <= a < view_vals(vs@).len() ==> #[trigger] tree_ok(view_vals(vs@)[a], input@.len() as int)),
    decreases input@.len() - pos, 5int,
{
    let ghost s = input@;
    let ghost n = input@.len() as int;
    let mut acc: Vec<Val> = Vec::new();
    let mut k: usize;
    match bracketed(input, pos) {
        Parsed::Done(v, k0) => {
            proof {
                lemma_view_vals_push(acc@, v);
            }
            acc.push(v);
            k = k0;
        },
        Parsed::Miss => {
            return Parsed::Done(acc, pos);
        },
        Parsed::Fatal(e) => {
            return Parsed::Fatal(e);
        },
    }
    loop
        invariant
            pos < k <= input@.len(),
            s == input@,
            n == input@.len(),
            blocks_list_spec(s, pos as int) == blocks_tail_spec(s, k as int, view_vals(acc@)),
            forall|a: int| 0 <= a < view_vals(acc@).len() ==> #[trigger] tree_ok(view_vals(acc@)[a], n),
        decreases input@.len() - k,
    {
        let m = opt_space(input, k);
        if m == k {
            return Parsed::Done(acc, k);
        }
        match bracketed(input, m) {
            Parsed::Done(v, k2) => {
                proof {
                    lemma_view_vals_push(acc@, v);
                    let old_v = view_vals(acc@);
                    let new_v = old_v.push(v@);
                    assert forall|a: int| 0 <= a < new_v.len() implies tree_ok(
                        #[trigger] new_v[a],
                        n,
                    ) by {
                        if a < old_v.len() {
                            assert(new_v[a] == old_v[a]);
                        } else {
                            assert(new_v[a] == v@);
                        }
                    }
                }
                acc.push(v);
                k = k2;
            },
            Parsed::Miss => {
                return Parsed::Done(acc, k);
            },
            Parsed::Fatal(e) => {
                return Parsed::Fatal(e);
            },
        }
    }
}

/// A body of values without keys.
pub fn value_set(input: &[u8], pos: usize) -> (r: Parsed<Val>)
    requires
        pos <= input@.len(),
    ensures
        agrees(r, as_set(set_list_spec(input@, pos as int)), |v: Val| v@),
        r matches Parsed::Done(v, k) ==> pos <= k <= input@.len() && tree_ok(v@, input@.len() as int),
    decreases input@.len() - pos, 6int,
{
    match set_values(input, pos) {
        Parsed::Done(vs, k) => {
            proof {
                let n = input@.len() as int;
                lemma_trees_ok(view_vals(vs@), n);
            }
            Parsed::Done(Val::ValueSet(vs), k)
        },
        Parsed::Miss => Parsed::Miss,
        Parsed::Fatal(e) => Parsed::Fatal(e),
    }
}

/// A body of blocks without keys.
pub fn set_of_collections(input: &[u8], pos: usize) -> (r: Parsed<Val>)
    requires
        pos <= input@.len(),
    ensures
        agrees(r, as_set(blocks_list_spec(input@, pos as int)), |v: Val| v@),
        r matches Parsed::Done(v, k) ==> pos <= k <= input@.len() && tree_ok(v@, input@.len() as int),
    decreases input@.len() - pos, 6int,
{
    match block_values(input, pos) {
        Parsed::Done(vs, k) => {
            proof {
                let n = input@.len() as int;
                lemma_trees_ok(view_vals(vs@), n);
            }
            Parsed::Done(Val::ValueSet(vs), k)
        },
        Parsed::Miss => Parsed::Miss,
        Parsed::Fatal(e) => Parsed::Fatal(e),
    }
}

/// Index entries separated by whitespace, in source order.
fn array_entries(input: &[u8], pos: usize) -> (r: Parsed<Vec<(u64, Val)>>)
    requires
        pos <= input@.len(),
    ensures
        agrees(r, array_list_spec(input@, pos as int), |ps: Vec<(u64, Val)>| view_indexed(ps@)),
        r matches Parsed::Done(ps, k) ==> pos <= k <= input@.len() && (forall|a: int|
            0 <= a < ps@.len() ==> tree_ok(#[trigger] view_indexed(ps@)[a].1, input@.len() as int)),
    decreases input@.len() - pos, 5int,
{
    let ghost s = input@;
    let ghost n = input@.len() as int;
    let mut acc: Vec<(u64, Val)> = Vec::new();
    let mut k: usize;
    match number_value(input, pos) {
        Parsed::Done(e, k0) => {
            proof {
                lemma_view_indexed_push(acc@, e);
            }
            acc.push(e);
            k = k0;
        },
        Parsed::Miss => {
            return Parsed::Done(acc, pos);
        },
        Parsed::Fatal(e) => {
            return Parsed::Fatal(e);
        },
    }
    proof {
        lemma_view_indexed_index(acc@);
    }
    loop
        invariant
            pos < k <= input@.len(),
            s == input@,
            n == input@.len(),
            array_list_spec(s, pos as int) == array_tail_spec(s, k as int, view_indexed(acc@)),
            view_indexed(acc@).len() == acc@.len(),
            forall|a: int| 0 <= a < acc@.len() ==> tree_ok(#[trigger] view_indexed(acc@)[a].1, n),
        decreases input@.len() - k,
    {
        let m = opt_space(input, k);
        if m == k {
            return Parsed::Done(acc, k);
        }
        match number_value(input, m) {
            Parsed::Done(e, k2) => {
                proof {
                    lemma_view_indexed_push(acc@, e);
                    let old_v = view_indexed(acc@);
                    let new_v = old_v.push((e.0, e.1@));
                    assert forall|a: int| 0 <= a < new_v.len() implies tree_ok(
                        #[trigger] new_v[a].1,
                        n,
                    ) by {
                        if a < old_v.len() {
                            assert(new_v[a] == old_v[a]);
                        }
                    }
                }
                acc.push(e);
                k = k2;
            },
            Parsed::Miss => {
                return Parsed::Done(acc, k);
            },
            Parsed::Fatal(e) => {
                return Parsed::Fatal(e);
            },
        }
    }
}

/// Sorts index entries by index, keeping entries with equal indexes in their order.
pub fn fold_into_array(pairs: Vec<(u64, Val)>) -> (r: Vec<(u64, Val)>)
    ensures
        view_indexed(r@) == sort_by_index(view_indexed(pairs@)),
{
    let ghost orig = pairs@;
    let mut pairs = pairs;
    let mut rev: Vec<(u64, Val)> = Vec::new();
    while pairs.len() > 0
        invariant
            pairs@.len() + rev@.len() == orig.len(),
            forall|a: int| 0 <= a < pairs@.len() ==> #[trigger] pairs@[a] == orig[a],
            forall|a: int|
                0 <= a < rev@.len() ==> #[trigger] rev@[a] == orig[orig.len() - 1 - a],
        decreases pairs@.len(),
    {
        let x = pairs.pop().unwrap();
        rev.push(x);
    }
    let mut out: Vec<(u64, Val)> = Vec::new();
    proof {
        lemma_view_indexed_index(orig);
        assert(view_indexed(orig).take(0) =~= Seq::<(u64, SVal)>::empty());
    }
    while rev.len() > 0
        invariant
            rev@.len() <= orig.len(),
            forall|a: int|
                0 <= a < rev@.len() ==> #[trigger] rev@[a] == orig[orig.len() - 1 - a],
            view_indexed(orig).len() == orig.len(),
            forall|a: int|
                0 <= a < orig.len() ==> #[trigger] view_indexed(orig)[a] == (orig[a].0, orig[a].1@),
            view_indexed(out@) == sort_by_index(
                view_indexed(orig).take(orig.len() - rev@.len()),
            ),
        decreases rev@.len(),
    {
        let ghost done = orig.len() - rev@.len();
        let x = rev.pop().unwrap();
        let ghost xv = (x.0, x.1@);
        let ghost sorted = view_indexed(out@);
        proof {
            lemma_sort_by_index(view_indexed(orig).take(done));
            lemma_view_indexed_index(out@);
        }
        let mut p: usize = out.len();
        while p > 0 && out[p - 1].0 > x.0
            invariant
                p <= out@.len(),
                sorted == view_indexed(out@),
                sorted.len() == out@.len(),
                forall|a: int| 0 <= a < out@.len() ==> #[trigger] sorted[a] == (out@[a].0, out@[a].1@),
                forall|a: int| p <= a < out@.len() ==> (#[trigger] out@[a]).0 > x.0,
            decreases p,
        {
            p = p - 1;
        }
        proof {
            assert forall|a: int| 0 <= a < p implies (#[trigger] sorted[a]).0 <= xv.0 by {
                assert(indexes_sorted(sorted));
                assert(sorted[a].0 <= sorted[p - 1].0);
            }
            lemma_insert_by_index(sorted, xv, p as int);
            assert(view_indexed(orig).take(done + 1).drop_last() =~= view_indexed(orig).take(done));
            assert(view_indexed(orig).take(done + 1).last() == xv);
        }
        out.insert(p, x);
        proof {
            lemma_view_indexed_index(out@);
            assert(view_indexed(out@) =~= sorted.insert(p as int, xv));
        }
    }
    proof {
        assert(view_indexed(orig).take(orig.len() as int) =~= view_indexed(orig));
    }
    out
}

/// An array body: index entries, held in ascending index order.
pub fn array(input: &[u8], pos: usize) -> (r: Parsed<Val>)
    requires
        pos <= input@.len(),
    ensures
        agrees(r, as_array(array_list_spec(input@, pos as int)), |v: Val| v@),
        r matches Parsed::Done(v, k) ==> pos <= k <= input@.len() && tree_ok(v@, input@.len() as int),
    decreases input@.len() - pos, 6int,
{
    match array_entries(input, pos) {
        Parsed::Done(ps, k) => {
            let ghost unsorted = view_indexed(ps@);
            proof {
                lemma_view_indexed_index(ps@);
            }
            let sorted = fold_into_array(ps);
            proof {
                lemma_sort_by_index(unsorted);
                let n = input@.len() as int;
                let v = sort_by_index(unsorted);
                assert forall|a: int| 0 <= a < v.len() implies tree_ok(#[trigger] v[a].1, n) by {
                    let b = choose|b: int| 0 <= b < unsorted.len() && unsorted[b] == v[a];
                    assert(tree_ok(unsorted[b].1, n));
                }
                lemma_indexed_trees_ok(v, n);
            }
            Parsed::Done(Val::Array(sorted), k)
        },
        Parsed::Miss => Parsed::Miss,
        Parsed::Fatal(e) => Parsed::Fatal(e),
    }
}

/// Parses a whole document: optional whitespace, entries separated by whitespace, optional
/// whitespace. Yields the offset where the unparsed rest begins, and the tree.
pub fn root(input: &[u8]) -> (r: Result<(usize, Val), ParseError>)
    ensures
        match r {
            Ok((k, v)) => root_spec(input@) == Ok::<(SVal, int), ParseError>((v@, k as int)),
            Err(e) => root_spec(input@) == Err::<(SVal, int), ParseError>(e),
        },
        r matches Ok((k, v)) ==> k <= input@.len() && tree_ok(v@, input@.len() as int),
{
    let start = opt_space(input, 0);
    match hash_map(input, start) {
        Parsed::Done(es, k) => Ok((opt_space(input, k), Val::Dict(es))),
        Parsed::Miss => Ok((start, Val::Dict(Vec::new()))),
        Parsed::Fatal(e) => Err(e),
    }
}

} // verus!
