//! Projection: a parse guided by a dotted path, which keeps only the values at that path.
use vstd::prelude::*;
use crate::classify::{
    lemma_run_end, take_simd_identifier, take_simd_not_token, take_while, CharClass,
};
use crate::grammar::{
    array_list_spec, array_tail_spec, blocks_list_spec, blocks_tail_spec, bracketed_spec,
    contents_spec, dict_list_spec, dict_tail_spec, entry_spec, index_entry_spec,
    insert_by_index, numbered_dict_spec, root_spec, set_list_spec, set_tail_spec, sort_by_index,
    value_spec, ErrorKind, Outcome, ParseError,
};
use crate::parser::{self, missing_at, Parsed};
use crate::path::{component_index, components, parse_component_index, same_text, split_path, text};
use crate::scalar::{integer_token, parse_digits};
use crate::val::{lemma_view_vals_append, lemma_view_vals_push, view_vals, SVal, Span, Val};

pub use crate::parser::{key, opt_space, quoted, quoted_key, req_space, unquoted, unquoted_key};

verus! {

broadcast use crate::classify::lemma_run_end_bounds;

/// Paths with more components than this are refused.
pub const MAX_PATH_DEPTH: usize = 10;

/// What the components `cs[c..]` of the path `p` select below `v`, in order. At a
/// dictionary the component selects every entry with that key, at an array every entry
/// with that index; a set is passed through, each of its values searched with the same
/// component; a scalar holds nothing below it.
pub open spec fn walk(s: Seq<u8>, p: Seq<u8>, v: SVal, cs: Seq<Span>, c: int) -> Seq<SVal>
    decreases v,
{
    if c >= cs.len() {
        seq![v]
    } else {
        match v {
            SVal::Dict(es) => walk_entries(s, p, es, cs, c),
            SVal::NumberedDict(_, es) => walk_entries(s, p, es, cs, c),
            SVal::Array(ps) => walk_indexed(s, p, ps, cs, c),
            SVal::ValueSet(vs) => walk_vals(s, p, vs, cs, c),
            _ => Seq::empty(),
        }
    }
}

pub open spec fn entry_matches(s: Seq<u8>, p: Seq<u8>, e: (Span, SVal), cs: Seq<Span>, c: int) -> Seq<SVal>
    decreases e,
{
    if 0 <= c < cs.len() && text(s, e.0) == text(p, cs[c]) {
        walk(s, p, e.1, cs, c + 1)
    } else {
        Seq::empty()
    }
}

pub open spec fn walk_entries(s: Seq<u8>, p: Seq<u8>, es: Seq<(Span, SVal)>, cs: Seq<Span>, c: int) -> Seq<SVal>
    decreases es,
{
    if es.len() == 0 {
        Seq::empty()
    } else {
        walk_entries(s, p, es.drop_last(), cs, c) + entry_matches(s, p, es.last(), cs, c)
    }
}

pub open spec fn index_matches(s: Seq<u8>, p: Seq<u8>, e: (u64, SVal), cs: Seq<Span>, c: int) -> Seq<SVal>
    decreases e,
{
    if 0 <= c < cs.len() && component_index(p, cs[c]) == Some(e.0) {
        walk(s, p, e.1, cs, c + 1)
    } else {
        Seq::empty()
    }
}

pub open spec fn walk_indexed(s: Seq<u8>, p: Seq<u8>, ps: Seq<(u64, SVal)>, cs: Seq<Span>, c: int) -> Seq<SVal>
    decreases ps,
{
    if ps.len() == 0 {
        Seq::empty()
    } else {
        walk_indexed(s, p, ps.drop_last(), cs, c) + index_matches(s, p, ps.last(), cs, c)
    }
}

pub open spec fn walk_vals(s: Seq<u8>, p: Seq<u8>, vs: Seq<SVal>, cs: Seq<Span>, c: int) -> Seq<SVal>
    decreases vs,
{
    if vs.len() == 0 {
        Seq::empty()
    } else {
        walk_vals(s, p, vs.drop_last(), cs, c) + walk(s, p, vs.last(), cs, c)
    }
}

/// What a search of the document `s` for the path `p` yields: the values of its tree at
/// that path, or the parse's error.
pub open spec fn search_spec(s: Seq<u8>, p: Seq<u8>) -> Result<Seq<SVal>, ParseError> {
    match root_spec(s) {
        Ok((tree, _)) => Ok(walk(s, p, tree, components(p), 0)),
        Err(e) => Err(e),
    }
}

proof fn lemma_walk_indexed_insert(
    s: Seq<u8>,
    p: Seq<u8>,
    ps: Seq<(u64, SVal)>,
    e: (u64, SVal),
    cs: Seq<Span>,
    c: int,
)
    ensures
        walk_indexed(s, p, insert_by_index(ps, e), cs, c) == walk_indexed(s, p, ps, cs, c)
            + index_matches(s, p, e, cs, c),
    decreases ps.len(),
{
    if ps.len() == 0 {
        assert(seq![e].drop_last() =~= Seq::<(u64, SVal)>::empty());
        assert(seq![e].last() == e);
        assert(walk_indexed(s, p, Seq::<(u64, SVal)>::empty(), cs, c) =~= Seq::<SVal>::empty());
        assert(Seq::<SVal>::empty() + index_matches(s, p, e, cs, c) =~= index_matches(s, p, e, cs, c));
    } else if ps.last().0 <= e.0 {
        assert(ps.push(e).drop_last() =~= ps);
        assert(ps.push(e).last() == e);
    } else {
        let t = ps.drop_last();
        lemma_walk_indexed_insert(s, p, t, e, cs, c);
        let r = insert_by_index(t, e);
        assert(r.push(ps.last()).drop_last() =~= r);
        assert(r.push(ps.last()).last() == ps.last());
        let wl = index_matches(s, p, ps.last(), cs, c);
        let we = index_matches(s, p, e, cs, c);
        if we.len() > 0 {
            assert(wl =~= Seq::<SVal>::empty());
        } else {
            assert(we =~= Seq::<SVal>::empty());
        }
        assert(walk_indexed(s, p, t, cs, c) + we + wl =~= walk_indexed(s, p, t, cs, c) + wl + we);
    }
}

/// Sorting an array by index does not change what a path selects in it: the entries with
/// one index keep their order.
pub proof fn lemma_walk_indexed_sorted(
    s: Seq<u8>,
    p: Seq<u8>,
    ps: Seq<(u64, SVal)>,
    cs: Seq<Span>,
    c: int,
)
    ensures
        walk_indexed(s, p, sort_by_index(ps), cs, c) == walk_indexed(s, p, ps, cs, c),
    decreases ps.len(),
{
    if ps.len() > 0 {
        lemma_walk_indexed_sorted(s, p, ps.drop_last(), cs, c);
        lemma_walk_indexed_insert(s, p, sort_by_index(ps.drop_last()), ps.last(), cs, c);
    }
}

/// A document and a dotted path to search it for.
pub struct InputSearchPair<'a, 'b> {
    /// The document.
    pub slice: &'a [u8],
    /// The path.
    pub search: &'b [u8],
    /// The spans of the path's components within `search`.
    pub search_path: Vec<Span>,
    /// The component that the search starts at.
    pub search_path_index: usize,
}

/// A path with more components than a search supports.
#[derive(Clone, Copy, PartialEq, Eq, Structural, Debug)]
pub struct ConfigError {
    pub components: usize,
}

impl<'a, 'b> InputSearchPair<'a, 'b> {
    pub open spec fn wf(&self) -> bool {
        &&& self.search_path@ == components(self.search@)
        &&& self.search_path@.len() <= MAX_PATH_DEPTH
        &&& self.search_path_index <= self.search_path@.len()
        &&& forall|a: int|
            0 <= a < self.search_path@.len() ==> (#[trigger] self.search_path@[a]).start
                <= self.search_path@[a].end <= self.search@.len()
    }

    /// Pairs a document with a path, split into its components; a path of more than
    /// [`MAX_PATH_DEPTH`] components is refused.
    pub fn create(input: &'a [u8], search: &'b [u8]) -> (r: Result<Self, ConfigError>)
        ensures
            match r {
                Ok(isp) => {
                    &&& isp.wf()
                    &&& isp.slice@ == input@
                    &&& isp.search@ == search@
                    &&& isp.search_path_index == 0
                },
                Err(e) => components(search@).len() > MAX_PATH_DEPTH && e.components
                    == components(search@).len(),
            },
    {
        let search_path = split_path(search);
        if search_path.len() > MAX_PATH_DEPTH {
            return Err(ConfigError { components: search_path.len() });
        }
        Ok(InputSearchPair { slice: input, search, search_path, search_path_index: 0 })
    }
}

/// `r` is the outcome `o`, its result replaced by what `f` selects in it.
pub open spec fn yields<T>(r: Parsed<Vec<Val>>, o: Outcome<T>, f: spec_fn(T) -> Seq<SVal>) -> bool {
    match r {
        Parsed::Done(vs, k) => match o {
            Outcome::Done(v, k2) => k as int == k2 && view_vals(vs@) == f(v),
            _ => false,
        },
        Parsed::Miss => o is Miss,
        Parsed::Fatal(e) => o == Outcome::<T>::Fatal(e),
    }
}

proof fn lemma_view_vals_single(v: Val)
    ensures
        view_vals(seq![v]) == seq![v@],
{
    lemma_view_vals_push(Seq::empty(), v);
    assert(Seq::<Val>::empty().push(v) =~= seq![v]);
    assert(view_vals(Seq::<Val>::empty()) =~= Seq::<SVal>::empty());
}

/// A value, searched from the path component `c` on: the value itself where the path is
/// used up, else what the rest of the path selects in it.
pub fn value(isp: &InputSearchPair, pos: usize, c: usize) -> (r: Parsed<Vec<Val>>)
    requires
        isp.wf(),
        pos <= isp.slice@.len(),
        c <= isp.search_path@.len(),
    ensures
        yields(
            r,
            value_spec(isp.slice@, pos as int),
            |v: SVal| walk(isp.slice@, isp.search@, v, isp.search_path@, c as int),
        ),
        r matches Parsed::Done(_, k) ==> pos < k <= isp.slice@.len(),
    decreases isp.slice@.len() - pos, 3int,
{
    let input = isp.slice;
    if c == isp.search_path.len() {
        return match parser::value(input, pos) {
            Parsed::Done(v, k) => {
                let mut out: Vec<Val> = Vec::new();
                proof {
                    lemma_view_vals_single(v);
                    assert(out@.push(v) =~= seq![v]);
                }
                out.push(v);
                Parsed::Done(out, k)
            },
            Parsed::Miss => Parsed::Miss,
            Parsed::Fatal(e) => Parsed::Fatal(e),
        };
    }
    if pos < input.len() && input[pos] == 0x7b {
        bracketed(isp, pos, c)
    } else {
        match parser::value(input, pos) {
            Parsed::Done(_, k) => {
                proof {
                    assert(view_vals(Seq::<Val>::empty()) =~= Seq::<SVal>::empty());
                }
                Parsed::Done(Vec::new(), k)
            },
            Parsed::Miss => Parsed::Miss,
            Parsed::Fatal(e) => Parsed::Fatal(e),
        }
    }
}

/// A block, searched from the path component `c` on.
pub fn bracketed(isp: &InputSearchPair, pos: usize, c: usize) -> (r: Parsed<Vec<Val>>)
    requires
        isp.wf(),
        pos <= isp.slice@.len(),
        c < isp.search_path@.len(),
    ensures
        yields(
            r,
            bracketed_spec(isp.slice@, pos as int),
            |v: SVal| walk(isp.slice@, isp.search@, v, isp.search_path@, c as int),
        ),
        r matches Parsed::Done(_, k) ==> pos < k <= isp.slice@.len(),
    decreases isp.slice@.len() - pos, 2int,
{
    let input = isp.slice;
    if !(pos < input.len() && input[pos] == 0x7b) {
        return Parsed::Miss;
    }
    let j = opt_space(input, pos + 1);
    match contents(isp, j, c) {
        Parsed::Done(vs, k) => {
            let m = opt_space(input, k);
            if m < input.len() && input[m] == 0x7d {
                Parsed::Done(vs, m + 1)
            } else {
                Parsed::Fatal(ParseError { kind: ErrorKind::MismatchedBraces, offset: m })
            }
        },
        Parsed::Miss => Parsed::Fatal(missing_at(input, j)),
        Parsed::Fatal(e) => Parsed::Fatal(e),
    }
}

/// The body of a block, searched from the path component `c` on.
pub fn contents(isp: &InputSearchPair, pos: usize, c: usize) -> (r: Parsed<Vec<Val>>)
    requires
        isp.wf(),
        pos <= isp.slice@.len(),
        c < isp.search_path@.len(),
    ensures
        yields(
            r,
            contents_spec(isp.slice@, pos as int),
            |v: SVal| walk(isp.slice@, isp.search@, v, isp.search_path@, c as int),
        ),
        r matches Parsed::Done(_, k) ==> pos <= k <= isp.slice@.len(),
    decreases isp.slice@.len() - pos, 7int,
{
    let input = isp.slice;
    let t = take_simd_not_token(input, pos);
    if t >= input.len() {
        return Parsed::Fatal(ParseError { kind: ErrorKind::UnexpectedEndOfInput, offset: t });
    }
    if input[t] == 0x7d {
        return value_set(isp, pos, c);
    }
    let x = take_simd_identifier(input, pos);
    proof {
        lemma_run_end(input@, pos as int, CharClass::Identifier);
    }
    let integer_first = integer_token(input, pos, x).is_some();
    if input[t] == 0x3d {
        if integer_first {
            proof {
                match array_list_spec(input@, pos as int) {
                    Outcome::Done(ps, _) => lemma_walk_indexed_sorted(
                        input@,
                        isp.search@,
                        ps,
                        isp.search_path@,
                        c as int,
                    ),
                    _ => {},
                }
            }
            array(isp, pos, c)
        } else {
            dict(isp, pos, c)
        }
    } else if integer_first {
        numbered_dict(isp, pos, c)
    } else {
        set_of_collections(isp, pos, c)
    }
}

/// `key = value`, searched at the path component `c`: what the rest of the path selects
/// in the value where the key is the component, else nothing.
fn key_value(isp: &InputSearchPair, pos: usize, c: usize) -> (r: Parsed<Vec<Val>>)
    requires
        isp.wf(),
        pos <= isp.slice@.len(),
        c < isp.search_path@.len(),
    ensures
        yields(
            r,
            entry_spec(isp.slice@, pos as int),
            |e: (Span, SVal)| entry_matches(isp.slice@, isp.search@, e, isp.search_path@, c as int),
        ),
        r matches Parsed::Done(_, k) ==> pos < k <= isp.slice@.len(),
    decreases isp.slice@.len() - pos, 4int,
{
    let input = isp.slice;
    match key(input, pos) {
        Parsed::Done(x, j) => {
            let q = opt_space(input, j);
            if q < input.len() && input[q] == 0x3d {
                let p = opt_space(input, q + 1);
                if same_text(input, x, isp.search, isp.search_path[c]) {
                    match value(isp, p, c + 1) {
                        Parsed::Done(vs, r) => Parsed::Done(vs, r),
                        Parsed::Miss => Parsed::Fatal(missing_at(input, p)),
                        Parsed::Fatal(e) => Parsed::Fatal(e),
                    }
                } else {
                    match parser::value(input, p) {
                        Parsed::Done(_, r) => {
                            proof {
                                assert(view_vals(Seq::<Val>::empty()) =~= Seq::<SVal>::empty());
                            }
                            Parsed::Done(Vec::new(), r)
                        },
                        Parsed::Miss => Parsed::Fatal(missing_at(input, p)),
                        Parsed::Fatal(e) => Parsed::Fatal(e),
                    }
                }
            } else {
                Parsed::Fatal(missing_at(input, q))
            }
        },
        Parsed::Miss => Parsed::Miss,
        Parsed::Fatal(e) => Parsed::Fatal(e),
    }
}

/// `index = value`, searched at the path component `c`.
pub fn number_value(isp: &InputSearchPair, pos: usize, c: usize) -> (r: Parsed<Vec<Val>>)
    requires
        isp.wf(),
        pos <= isp.slice@.len(),
        c < isp.search_path@.len(),
    ensures
        yields(
            r,
            index_entry_spec(isp.slice@, pos as int),
            |e: (u64, SVal)| index_matches(isp.slice@, isp.search@, e, isp.search_path@, c as int),
        ),
        r matches Parsed::Done(_, k) ==> pos < k <= isp.slice@.len(),
    decreases isp.slice@.len() - pos, 4int,
{
    let input = isp.slice;
    let d = take_while(input, pos, CharClass::Digit);
    proof {
        lemma_run_end(input@, pos as int, CharClass::Digit);
    }
    if d == pos {
        return Parsed::Miss;
    }
    match parse_digits(input, pos, d, u64::MAX) {
        None => Parsed::Fatal(ParseError { kind: ErrorKind::InvalidScalar, offset: pos }),
        Some(index) => {
            let q = opt_space(input, d);
            if q < input.len() && input[q] == 0x3d {
                let p = opt_space(input, q + 1);
                if parse_component_index(isp.search, isp.search_path[c]) == Some(index) {
                    match value(isp, p, c + 1) {
                        Parsed::Done(vs, r) => Parsed::Done(vs, r),
                        Parsed::Miss => Parsed::Fatal(missing_at(input, p)),
                        Parsed::Fatal(e) => Parsed::Fatal(e),
                    }
                } else {
                    match parser::value(input, p) {
                        Parsed::Done(_, r) => {
                            proof {
                                assert(view_vals(Seq::<Val>::empty()) =~= Seq::<SVal>::empty());
                            }
                            Parsed::Done(Vec::new(), r)
                        },
                        Parsed::Miss => Parsed::Fatal(missing_at(input, p)),
                        Parsed::Fatal(e) => Parsed::Fatal(e),
                    }
                }
            } else {
                Parsed::Fatal(missing_at(input, q))
            }
        },
    }
}

/// `N { entries }`, searched at the path component `c`.
pub fn numbered_dict(isp: &InputSearchPair, pos: usize, c: usize) -> (r: Parsed<Vec<Val>>)
    requires
        isp.wf(),
        pos <= isp.slice@.len(),
        c < isp.search_path@.len(),
    ensures
        yields(
            r,
            numbered_dict_spec(isp.slice@, pos as int),
            |v: SVal| walk(isp.slice@, isp.search@, v, isp.search_path@, c as int),
        ),
        r matches Parsed::Done(_, k) ==> pos < k <= isp.slice@.len(),
    decreases isp.slice@.len() - pos, 5int,
{
    let input = isp.slice;
    let x = take_simd_identifier(input, pos);
    proof {
        lemma_run_end(input@, pos as int, CharClass::Identifier);
    }
    if integer_token(input, pos, x).is_none() {
        return Parsed::Miss;
    }
    let q = opt_space(input, x);
    if q == x {
        return Parsed::Fatal(missing_at(input, x));
    }
    if !(q < input.len() && input[q] == 0x7b) {
        return Parsed::Fatal(missing_at(input, q));
    }
    let p = opt_space(input, q + 1);
    match dict(isp, p, c) {
        Parsed::Done(vs, r) => {
            let t = opt_space(input, r);
            if t < input.len() && input[t] == 0x7d {
                Parsed::Done(vs, t + 1)
            } else {
                Parsed::Fatal(ParseError { kind: ErrorKind::MismatchedBraces, offset: t })
            }
        },
        Parsed::Miss => Parsed::Fatal(missing_at(input, p)),
        Parsed::Fatal(e) => Parsed::Fatal(e),
    }
}

/// A dictionary body, searched at the path component `c`: what the rest of the path
/// selects under each entry whose key is the component.
pub fn dict(isp: &InputSearchPair, pos: usize, c: usize) -> (r: Parsed<Vec<Val>>)
    requires
        isp.wf(),
        pos <= isp.slice@.len(),
        c < isp.search_path@.len(),
    ensures
        yields(
            r,
            dict_list_spec(isp.slice@, pos as int),
            |es: Seq<(Span, SVal)>| walk_entries(isp.slice@, isp.search@, es, isp.search_path@, c as int),
        ),
        r matches Parsed::Done(_, k) ==> pos <= k <= isp.slice@.len(),
    decreases isp.slice@.len() - pos, 5int,
{
    let input = isp.slice;
    let ghost s = input@;
    let ghost w = |es: Seq<(Span, SVal)>| walk_entries(isp.slice@, isp.search@, es, isp.search_path@, c as int);
    let mut out: Vec<Val> = Vec::new();
    let ghost mut acc: Seq<(Span, SVal)> = Seq::empty();
    let mut k: usize;
    proof {
        assert(view_vals(out@) =~= Seq::<SVal>::empty());
    }
    match key_value(isp, pos, c) {
        Parsed::Done(mut vs, k0) => {
            proof {
                let e = match entry_spec(s, pos as int) {
                    Outcome::Done(e, _) => e,
                    _ => arbitrary(),
                };
                lemma_view_vals_append(out@, vs@);
                assert(acc.push(e).drop_last() =~= acc);
                assert(acc.push(e).last() == e);
                assert(view_vals(out@) + view_vals(vs@) =~= view_vals(vs@));
                assert(w(acc) =~= Seq::<SVal>::empty());
                acc = acc.push(e);
                assert(w(acc) =~= view_vals(vs@));
            }
            out.append(&mut vs);
            k = k0;
        },
        Parsed::Miss => {
            return Parsed::Done(out, pos);
        },
        Parsed::Fatal(e) => {
            return Parsed::Fatal(e);
        },
    }
    loop
        invariant
            pos < k <= input@.len(),
            s == input@,
            input@ == isp.slice@,
            isp.wf(),
            c < isp.search_path@.len(),
            w == (|es: Seq<(Span, SVal)>| walk_entries(isp.slice@, isp.search@, es, isp.search_path@, c as int)),
            dict_list_spec(s, pos as int) == dict_tail_spec(s, k as int, acc),
            view_vals(out@) == w(acc),
        decreases input@.len() - k,
    {
        let m = opt_space(input, k);
        if m == k {
            return Parsed::Done(out, k);
        }
        match key_value(isp, m, c) {
            Parsed::Done(mut vs, k2) => {
                proof {
                    let e = match entry_spec(s, m as int) {
                        Outcome::Done(e, _) => e,
                        _ => arbitrary(),
                    };
                    lemma_view_vals_append(out@, vs@);
                    assert(acc.push(e).drop_last() =~= acc);
                    assert(acc.push(e).last() == e);
                    acc = acc.push(e);
                }
                out.append(&mut vs);
                k = k2;
            },
            Parsed::Miss => {
                return Parsed::Done(out, k);
            },
            Parsed::Fatal(e) => {
                return Parsed::Fatal(e);
            },
        }
    }
}

/// An array body, searched at the path component `c`, in source order; the entries with
/// one index stand in the same order once the array is sorted.
pub fn array(isp: &InputSearchPair, pos: usize, c: usize) -> (r: Parsed<Vec<Val>>)
    requires
        isp.wf(),
        pos <= isp.slice@.len(),
        c < isp.search_path@.len(),
    ensures
        yields(
            r,
            array_list_spec(isp.slice@, pos as int),
            |es: Seq<(u64, SVal)>| walk_indexed(isp.slice@, isp.search@, es, isp.search_path@, c as int),
        ),
        r matches Parsed::Done(_, k) ==> pos <= k <= isp.slice@.len(),
    decreases isp.slice@.len() - pos, 5int,
{
    let input = isp.slice;
    let ghost s = input@;
    let ghost w = |es: Seq<(u64, SVal)>| walk_indexed(isp.slice@, isp.search@, es, isp.search_path@, c as int);
    let mut out: Vec<Val> = Vec::new();
    let ghost mut acc: Seq<(u64, SVal)> = Seq::empty();
    let mut k: usize;
    proof {
        assert(view_vals(out@) =~= Seq::<SVal>::empty());
    }
    match number_value(isp, pos, c) {
        Parsed::Done(mut vs, k0) => {
            proof {
                let e = match index_entry_spec(s, pos as int) {
                    Outcome::Done(e, _) => e,
                    _ => arbitrary(),
                };
                lemma_view_vals_append(out@, vs@);
                assert(acc.push(e).drop_last() =~= acc);
                assert(acc.push(e).last() == e);
                assert(view_vals(out@) + view_vals(vs@) =~= view_vals(vs@));
                assert(w(acc) =~= Seq::<SVal>::empty());
                acc = acc.push(e);
                assert(w(acc) =~= view_vals(vs@));
            }
            out.append(&mut vs);
            k = k0;
        },
        Parsed::Miss => {
            return Parsed::Done(out, pos);
        },
        Parsed::Fatal(e) => {
            return Parsed::Fatal(e);
        },
    }
    loop
        invariant
            pos < k <= input@.len(),
            s == input@,
            input@ == isp.slice@,
            isp.wf(),
            c < isp.search_path@.len(),
            w == (|es: Seq<(u64, SVal)>| walk_indexed(isp.slice@, isp.search@, es, isp.search_path@, c as int)),
            array_list_spec(s, pos as int) == array_tail_spec(s, k as int, acc),
            view_vals(out@) == w(acc),
        decreases input@.len() - k,
    {
        let m = opt_space(input, k);
        if m == k {
            return Parsed::Done(out, k);
        }
        match number_value(isp, m, c) {
            Parsed::Done(mut vs, k2) => {
                proof {
                    let e = match index_entry_spec(s, m as int) {
                        Outcome::Done(e, _) => e,
                        _ => arbitrary(),
                    };
                    lemma_view_vals_append(out@, vs@);
                    assert(acc.push(e).drop_last() =~= acc);
                    assert(acc.push(e).last() == e);
                    acc = acc.push(e);
                }
                out.append(&mut vs);
                k = k2;
            },
            Parsed::Miss => {
                return Parsed::Done(out, k);
            },
            Parsed::Fatal(e) => {
                return Parsed::Fatal(e);
            },
        }
    }
}

/// A body of values without keys, each searched at the path component `c`.
pub fn value_set(isp: &InputSearchPair, pos: usize, c: usize) -> (r: Parsed<Vec<Val>>)
    requires
        isp.wf(),
        pos <= isp.slice@.len(),
        c < isp.search_path@.len(),
    ensures
        yields(
            r,
            set_list_spec(isp.slice@, pos as int),
            |es: Seq<SVal>| walk_vals(isp.slice@, isp.search@, es, isp.search_path@, c as int),
        ),
        r matches Parsed::Done(_, k) ==> pos <= k <= isp.slice@.len(),
    decreases isp.slice@.len() - pos, 5int,
{
    let input = isp.slice;
    let ghost s = input@;
    let ghost w = |es: Seq<SVal>| walk_vals(isp.slice@, isp.search@, es, isp.search_path@, c as int);
    let mut out: Vec<Val> = Vec::new();
    let ghost mut acc: Seq<SVal> = Seq::empty();
    let mut k: usize;
    proof {
        assert(view_vals(out@) =~= Seq::<SVal>::empty());
    }
    match value(isp, pos, c) {
        Parsed::Done(mut vs, k0) => {
            proof {
                let e = match value_spec(s, pos as int) {
                    Outcome::Done(e, _) => e,
                    _ => arbitrary(),
                };
                lemma_view_vals_append(out@, vs@);
                assert(acc.push(e).drop_last() =~= acc);
                assert(acc.push(e).last() == e);
                assert(view_vals(out@) + view_vals(vs@) =~= view_vals(vs@));
                assert(w(acc) =~= Seq::<SVal>::empty());
                acc = acc.push(e);
                assert(w(acc) =~= view_vals(vs@));
            }
            out.append(&mut vs);
            k = k0;
        },
        Parsed::Miss => {
            return Parsed::Done(out, pos);
        },
        Parsed::Fatal(e) => {
            return Parsed::Fatal(e);
        },
    }
    loop
        invariant
            pos < k <= input@.len(),
            s == input@,
            input@ == isp.slice@,
            isp.wf(),
            c < isp.search_path@.len(),
            w == (|es: Seq<SVal>| walk_vals(isp.slice@, isp.search@, es, isp.search_path@, c as int)),
            set_list_spec(s, pos as int) == set_tail_spec(s, k as int, acc),
            view_vals(out@) == w(acc),
        decreases input@.len() - k,
    {
        let m = opt_space(input, k);
        if m == k {
            return Parsed::Done(out, k);
        }
        match value(isp, m, c) {
            Parsed::Done(mut vs, k2) => {
                proof {
                    let e = match value_spec(s, m as int) {
                        Outcome::Done(e, _) => e,
                        _ => arbitrary(),
                    };
                    lemma_view_vals_append(out@, vs@);
                    assert(acc.push(e).drop_last() =~= acc);
                    assert(acc.push(e).last() == e);
                    acc = acc.push(e);
                }
                out.append(&mut vs);
                k = k2;
            },
            Parsed::Miss => {
                return Parsed::Done(out, k);
            },
            Parsed::Fatal(e) => {
                return Parsed::Fatal(e);
            },
        }
    }
}

/// A body of blocks without keys, each searched at the path component `c`.
pub fn set_of_collections(isp: &InputSearchPair, pos: usize, c: usize) -> (r: Parsed<Vec<Val>>)
    requires
        isp.wf(),
        pos <= isp.slice@.len(),
        c < isp.search_path@.len(),
    ensures
        yields(
            r,
            blocks_list_spec(isp.slice@, pos as int),
            |es: Seq<SVal>| walk_vals(isp.slice@, isp.search@, es, isp.search_path@, c as int),
        ),
        r matches Parsed::Done(_, k) ==> pos <= k <= isp.slice@.len(),
    decreases isp.slice@.len() - pos, 5int,
{
    let input = isp.slice;
    let ghost s = input@;
    let ghost w = |es: Seq<SVal>| walk_vals(isp.slice@, isp.search@, es, isp.search_path@, c as int);
    let mut out: Vec<Val> = Vec::new();
    let ghost mut acc: Seq<SVal> = Seq::empty();
    let mut k: usize;
    proof {
        assert(view_vals(out@) =~= Seq::<SVal>::empty());
    }
    match bracketed(isp, pos, c) {
        Parsed::Done(mut vs, k0) => {
            proof {
                let e = match bracketed_spec(s, pos as int) {
                    Outcome::Done(e, _) => e,
                    _ => arbitrary(),
                };
                lemma_view_vals_append(out@, vs@);
                assert(acc.push(e).drop_last() =~= acc);
                assert(acc.push(e).last() == e);
                assert(view_vals(out@) + view_vals(vs@) =~= view_vals(vs@));
                assert(w(acc) =~= Seq::<SVal>::empty());
                acc = acc.push(e);
                assert(w(acc) =~= view_vals(vs@));
            }
            out.append(&mut vs);
            k = k0;
        },
        Parsed::Miss => {
            return Parsed::Done(out, pos);
        },
        Parsed::Fatal(e) => {
            return Parsed::Fatal(e);
        },
    }
    loop
        invariant
            pos < k <= input@.len(),
            s == input@,
            input@ == isp.slice@,
            isp.wf(),
            c < isp.search_path@.len(),
            w == (|es: Seq<SVal>| walk_vals(isp.slice@, isp.search@, es, isp.search_path@, c as int)),
            blocks_list_spec(s, pos as int) == blocks_tail_spec(s, k as int, acc),
            view_vals(out@) == w(acc),
        decreases input@.len() - k,
    {
        let m = opt_space(input, k);
        if m == k {
            return Parsed::Done(out, k);
        }
        match bracketed(isp, m, c) {
            Parsed::Done(mut vs, k2) => {
                proof {
                    let e = match bracketed_spec(s, m as int) {
                        Outcome::Done(e, _) => e,
                        _ => arbitrary(),
                    };
                    lemma_view_vals_append(out@, vs@);
                    assert(acc.push(e).drop_last() =~= acc);
                    assert(acc.push(e).last() == e);
                    acc = acc.push(e);
                }
                out.append(&mut vs);
                k = k2;
            },
            Parsed::Miss => {
                return Parsed::Done(out, k);
            },
            Parsed::Fatal(e) => {
                return Parsed::Fatal(e);
            },
        }
    }
}

/// Searches a whole document for the path of `isp`, from its component
/// `search_path_index` on. The result is what the fully parsed tree holds at that path,
/// in order; where the document does not parse, its error.
pub fn search_document(isp: &InputSearchPair) -> (r: Result<Vec<Val>, ParseError>)
    requires
        isp.wf(),
    ensures
        match r {
            Ok(vs) => match root_spec(isp.slice@) {
                Ok((tree, _)) => view_vals(vs@) == walk(
                    isp.slice@,
                    isp.search@,
                    tree,
                    isp.search_path@,
                    isp.search_path_index as int,
                ),
                Err(_) => false,
            },
            Err(e) => root_spec(isp.slice@) == Err::<(SVal, int), ParseError>(e),
        },
{
    let input = isp.slice;
    let c = isp.search_path_index;
    if c == isp.search_path.len() {
        return match parser::root(input) {
            Ok((_, tree)) => {
                let mut out: Vec<Val> = Vec::new();
                proof {
                    lemma_view_vals_single(tree);
                    assert(out@.push(tree) =~= seq![tree]);
                }
                out.push(tree);
                Ok(out)
            },
            Err(e) => Err(e),
        };
    }
    let start = opt_space(input, 0);
    match dict(isp, start, c) {
        Parsed::Done(vs, _) => Ok(vs),
        Parsed::Miss => {
            proof {
                assert(view_vals(Seq::<Val>::empty()) =~= Seq::<SVal>::empty());
            }
            Ok(Vec::new())
        },
        Parsed::Fatal(e) => Err(e),
    }
}

} // verus!
