//! Dotted paths, and typed lookup by path in a parsed tree.
use vstd::prelude::*;
use crate::classify::{lemma_run_end, run_end, take_while, CharClass};
use crate::grammar::span;
use crate::scalar::{digits_value, parse_digits};
use crate::val::{
    lemma_entry_trees_ok, lemma_indexed_trees_ok, lemma_view_entries_index, lemma_view_indexed_index,
    tree_ok, view_entries, view_indexed, view_vals, Date, SVal, Span, Val,
};

verus! {

broadcast use crate::classify::lemma_run_end_bounds;

/// The bytes of `s` that `x` covers.
pub open spec fn text(s: Seq<u8>, x: Span) -> Seq<u8> {
    s.subrange(x.start as int, x.end as int)
}

/// The components of the path `p` from `a` on, split at each dot.
pub open spec fn components_from(p: Seq<u8>, a: int) -> Seq<Span>
    decreases p.len() - a,
{
    let e = run_end(p, a, CharClass::PathComponent);
    if !(0 <= a <= p.len()) {
        Seq::empty()
    } else if e >= p.len() {
        seq![span(a, e)]
    } else {
        seq![span(a, e)] + components_from(p, e + 1)
    }
}

/// The components of the path `p`: its dot-separated parts, at least one.
pub open spec fn components(p: Seq<u8>) -> Seq<Span> {
    components_from(p, 0)
}

/// Splits a dotted path into the spans of its components.
pub fn split_path(path: &[u8]) -> (r: Vec<Span>)
    ensures
        r@ == components(path@),
        forall|a: int| 0 <= a < r@.len() ==> (#[trigger] r@[a]).start <= r@[a].end <= path@.len(),
{
    let mut out: Vec<Span> = Vec::new();
    let mut a: usize = 0;
    loop
        invariant
            a <= path@.len(),
            out@ + components_from(path@, a as int) == components(path@),
            forall|b: int| 0 <= b < out@.len() ==> (#[trigger] out@[b]).start <= out@[b].end <= path@.len(),
        decreases path@.len() - a,
    {
        let e = take_while(path, a, CharClass::PathComponent);
        proof {
            lemma_run_end(path@, a as int, CharClass::PathComponent);
        }
        out.push(Span { start: a, end: e });
        if e >= path.len() {
            proof {
                assert(out@ =~= components(path@));
            }
            return out;
        }
        proof {
            assert(out@ + components_from(path@, e + 1) =~= components(path@));
        }
        a = e + 1;
    }
}

/// Whether the bytes that `x` covers in `s` equal those that `y` covers in `t`.
pub fn same_text(s: &[u8], x: Span, t: &[u8], y: Span) -> (r: bool)
    requires
        x.start <= x.end <= s@.len(),
        y.start <= y.end <= t@.len(),
    ensures
        r == (text(s@, x) == text(t@, y)),
{
    if x.end - x.start != y.end - y.start {
        proof {
            assert(text(s@, x).len() != text(t@, y).len());
        }
        return false;
    }
    let len = x.end - x.start;
    let mut i: usize = 0;
    while i < len
        invariant
            i <= len,
            len == x.end - x.start,
            len == y.end - y.start,
            x.start <= x.end <= s@.len(),
            y.start <= y.end <= t@.len(),
            forall|j: int| 0 <= j < i ==> #[trigger] text(s@, x)[j] == text(t@, y)[j],
        decreases len - i,
    {
        if s[x.start + i] != t[y.start + i] {
            proof {
                assert(text(s@, x)[i as int] != text(t@, y)[i as int]);
            }
            return false;
        }
        i = i + 1;
    }
    proof {
        assert(text(s@, x) =~= text(t@, y));
    }
    true
}

/// The index that the path component `c` names: its digits, where it has only digits and
/// their number fits in a `u64`.
pub open spec fn component_index(p: Seq<u8>, c: Span) -> Option<u64> {
    if c.start < c.end && run_end(p, c.start as int, CharClass::Digit) == c.end
        && digits_value(p, c.start as int, c.end as int) <= u64::MAX {
        Some(digits_value(p, c.start as int, c.end as int) as u64)
    } else {
        None
    }
}

pub fn parse_component_index(path: &[u8], c: Span) -> (r: Option<u64>)
    requires
        c.start <= c.end <= path@.len(),
    ensures
        r == component_index(path@, c),
{
    if c.start >= c.end {
        return None;
    }
    let d = take_while(path, c.start, CharClass::Digit);
    if d != c.end {
        return None;
    }
    proof {
        lemma_run_end(path@, c.start as int, CharClass::Digit);
    }
    parse_digits(path, c.start, c.end, u64::MAX)
}

/// Why a lookup by path failed.
#[derive(Clone, Copy, PartialEq, Eq, Structural, Debug)]
pub enum IndexErrorKind {
    /// No entry of the dictionary has the key.
    KeyNotFound,
    /// No entry of the array has the index.
    IndexNotFound,
    /// The component that should index an array is not a number.
    NotAnIndex,
    /// A set has no keys or indexes.
    SetNotIndexable,
    /// A scalar has no parts.
    ScalarNotIndexable,
    /// The value at the path is not of the kind asked for.
    WrongType,
}

/// A failed lookup: what went wrong, and at which component of the path (for a value of
/// the wrong kind: the number of components).
#[derive(Clone, Copy, PartialEq, Eq, Structural, Debug)]
pub struct IndexError {
    pub kind: IndexErrorKind,
    pub depth: usize,
}

/// The position of the first entry from `a` on whose key is `c`.
pub open spec fn first_key_from(
    s: Seq<u8>,
    es: Seq<(Span, SVal)>,
    p: Seq<u8>,
    c: Span,
    a: int,
) -> Option<int>
    decreases es.len() - a,
{
    if !(0 <= a < es.len()) {
        None
    } else if text(s, es[a].0) == text(p, c) {
        Some(a)
    } else {
        first_key_from(s, es, p, c, a + 1)
    }
}

/// The position of the first entry from `a` on whose index is `i`.
pub open spec fn first_index_from(ps: Seq<(u64, SVal)>, i: u64, a: int) -> Option<int>
    decreases ps.len() - a,
{
    if !(0 <= a < ps.len()) {
        None
    } else if ps[a].0 == i {
        Some(a)
    } else {
        first_index_from(ps, i, a + 1)
    }
}

/// One step of a lookup: the value under the component `c` of the path `p`.
pub open spec fn step(s: Seq<u8>, v: SVal, p: Seq<u8>, c: Span) -> Result<SVal, IndexErrorKind> {
    match v {
        SVal::Dict(es) => match first_key_from(s, es, p, c, 0) {
            Some(a) => Ok(es[a].1),
            None => Err(IndexErrorKind::KeyNotFound),
        },
        SVal::NumberedDict(_, es) => match first_key_from(s, es, p, c, 0) {
            Some(a) => Ok(es[a].1),
            None => Err(IndexErrorKind::KeyNotFound),
        },
        SVal::Array(ps) => match component_index(p, c) {
            Some(i) => match first_index_from(ps, i, 0) {
                Some(a) => Ok(ps[a].1),
                None => Err(IndexErrorKind::IndexNotFound),
            },
            None => Err(IndexErrorKind::NotAnIndex),
        },
        SVal::ValueSet(_) => Err(IndexErrorKind::SetNotIndexable),
        _ => Err(IndexErrorKind::ScalarNotIndexable),
    }
}

/// The value at the components `cs[d..]` below `v`.
pub open spec fn lookup(s: Seq<u8>, v: SVal, p: Seq<u8>, cs: Seq<Span>, d: int) -> Result<
    SVal,
    IndexError,
>
    decreases cs.len() - d,
{
    if !(0 <= d < cs.len()) {
        Ok(v)
    } else {
        match step(s, v, p, cs[d]) {
            Ok(w) => lookup(s, w, p, cs, d + 1),
            Err(k) => Err(IndexError { kind: k, depth: d as usize }),
        }
    }
}

/// The value at the dotted path `p` below `v`.
pub open spec fn value_at_path(s: Seq<u8>, v: SVal, p: Seq<u8>) -> Result<SVal, IndexError> {
    lookup(s, v, p, components(p), 0)
}

pub open spec fn wrong_type(p: Seq<u8>) -> IndexError {
    IndexError { kind: IndexErrorKind::WrongType, depth: components(p).len() as usize }
}

/// The position of the first entry whose key is the component `c` of `path`.
fn find_key(input: &[u8], es: &Vec<(Span, Val)>, path: &[u8], c: Span) -> (r: Option<usize>)
    requires
        c.start <= c.end <= path@.len(),
        forall|a: int| 0 <= a < es@.len() ==> (#[trigger] es@[a]).0.start <= es@[a].0.end <= input@.len(),
    ensures
        match r {
            Some(a) => a < es@.len() && first_key_from(input@, view_entries(es@), path@, c, 0) == Some(a as int),
            None => first_key_from(input@, view_entries(es@), path@, c, 0) is None,
        },
{
    proof {
        lemma_view_entries_index(es@);
    }
    let mut a: usize = 0;
    while a < es.len()
        invariant
            a <= es@.len(),
            c.start <= c.end <= path@.len(),
            forall|b: int| 0 <= b < es@.len() ==> (#[trigger] es@[b]).0.start <= es@[b].0.end <= input@.len(),
            view_entries(es@).len() == es@.len(),
            forall|b: int| 0 <= b < es@.len() ==> #[trigger] view_entries(es@)[b] == (es@[b].0, es@[b].1@),
            first_key_from(input@, view_entries(es@), path@, c, 0) == first_key_from(
                input@,
                view_entries(es@),
                path@,
                c,
                a as int,
            ),
        decreases es@.len() - a,
    {
        if same_text(input, es[a].0, path, c) {
            return Some(a);
        }
        a = a + 1;
    }
    None
}

/// The position of the first entry whose index is `i`.
fn find_index(ps: &Vec<(u64, Val)>, i: u64) -> (r: Option<usize>)
    ensures
        match r {
            Some(a) => a < ps@.len() && first_index_from(view_indexed(ps@), i, 0) == Some(a as int),
            None => first_index_from(view_indexed(ps@), i, 0) is None,
        },
{
    proof {
        lemma_view_indexed_index(ps@);
    }
    let mut a: usize = 0;
    while a < ps.len()
        invariant
            a <= ps@.len(),
            view_indexed(ps@).len() == ps@.len(),
            forall|b: int| 0 <= b < ps@.len() ==> #[trigger] view_indexed(ps@)[b] == (ps@[b].0, ps@[b].1@),
            first_index_from(view_indexed(ps@), i, 0) == first_index_from(view_indexed(ps@), i, a as int),
        decreases ps@.len() - a,
    {
        if ps[a].0 == i {
            return Some(a);
        }
        a = a + 1;
    }
    None
}

impl Val {
    /// The value at a dotted path below this one. A dictionary component selects the first
    /// entry with that key; an array component, read as a number, the first entry with that
    /// index. `input` is the buffer that the tree was parsed from.
    pub fn get_at_path<'a>(&'a self, input: &[u8], path: &[u8]) -> (r: Result<&'a Val, IndexError>)
        requires
            tree_ok(self@, input@.len() as int),
        ensures
            match r {
                Ok(v) => value_at_path(input@, self@, path@) == Ok::<SVal, IndexError>(v@),
                Err(e) => value_at_path(input@, self@, path@) == Err::<SVal, IndexError>(e),
            },
            r matches Ok(v) ==> tree_ok(v@, input@.len() as int),
    {
        let ghost s = input@;
        let ghost n = input@.len() as int;
        let comps = split_path(path);
        let mut cur: &'a Val = self;
        let mut d: usize = 0;
        while d < comps.len()
            invariant
                d <= comps@.len(),
                comps@ == components(path@),
                forall|a: int| 0 <= a < comps@.len() ==> (#[trigger] comps@[a]).start <= comps@[a].end <= path@.len(),
                lookup(s, self@, path@, comps@, 0) == lookup(s, cur@, path@, comps@, d as int),
                tree_ok(cur@, n),
                s == input@,
                n == input@.len(),
            decreases comps@.len() - d,
        {
            let c = comps[d];
            match cur {
                Val::Dict(es) => {
                    proof {
                        lemma_view_entries_index(es@);
                        lemma_entry_trees_ok(view_entries(es@), n);
                        assert forall|a: int| 0 <= a < es@.len() implies (#[trigger] es@[a]).0.start <= es@[a].0.end <= input@.len() by {
                            assert(view_entries(es@)[a].0 == es@[a].0);
                        }
                    }
                    match find_key(input, es, path, c) {
                        Some(a) => {
                            proof {
                                assert(view_entries(es@)[a as int].1 == es@[a as int].1@);
                            }
                            cur = &es[a].1;
                        },
                        None => {
                            return Err(IndexError { kind: IndexErrorKind::KeyNotFound, depth: d });
                        },
                    }
                },
                Val::NumberedDict(_, es) => {
                    proof {
                        lemma_view_entries_index(es@);
                        lemma_entry_trees_ok(view_entries(es@), n);
                        assert forall|a: int| 0 <= a < es@.len() implies (#[trigger] es@[a]).0.start <= es@[a].0.end <= input@.len() by {
                            assert(view_entries(es@)[a].0 == es@[a].0);
                        }
                    }
                    match find_key(input, es, path, c) {
                        Some(a) => {
                            proof {
                                assert(view_entries(es@)[a as int].1 == es@[a as int].1@);
                            }
                            cur = &es[a].1;
                        },
                        None => {
                            return Err(IndexError { kind: IndexErrorKind::KeyNotFound, depth: d });
                        },
                    }
                },
                Val::Array(ps) => {
                    match parse_component_index(path, c) {
                        Some(i) => match find_index(ps, i) {
                            Some(a) => {
                                proof {
                                    lemma_view_indexed_index(ps@);
                                    lemma_indexed_trees_ok(view_indexed(ps@), n);
                                    assert(view_indexed(ps@)[a as int].1 == ps@[a as int].1@);
                                }
                                cur = &ps[a].1;
                            },
                            None => {
                                return Err(IndexError { kind: IndexErrorKind::IndexNotFound, depth: d });
                            },
                        },
                        None => {
                            return Err(IndexError { kind: IndexErrorKind::NotAnIndex, depth: d });
                        },
                    }
                },
                Val::ValueSet(_) => {
                    return Err(IndexError { kind: IndexErrorKind::SetNotIndexable, depth: d });
                },
                _ => {
                    return Err(IndexError { kind: IndexErrorKind::ScalarNotIndexable, depth: d });
                },
            }
            d = d + 1;
        }
        Ok(cur)
    }

    /// The value at a dotted path, where it is a set of values.
    pub fn get_set_at_path<'a>(&'a self, input: &[u8], path: &[u8]) -> (r: Result<&'a Vec<Val>, IndexError>)
        requires
            tree_ok(self@, input@.len() as int),
        ensures
            match value_at_path(input@, self@, path@) {
                Ok(SVal::ValueSet(x)) => r is Ok && view_vals(r->Ok_0@) == x,
                Ok(_) => r == Err::<&'a Vec<Val>, IndexError>(wrong_type(path@)),
                Err(e) => r == Err::<&'a Vec<Val>, IndexError>(e),
            },
    {
        match self.get_at_path(input, path) {
            Ok(v) => match v {
                Val::ValueSet(x) => Ok(x),
                _ => Err(IndexError { kind: IndexErrorKind::WrongType, depth: split_path(path).len() }),
            },
            Err(e) => Err(e),
        }
    }

    /// The value at a dotted path, where it is a date.
    pub fn get_date_at_path<'a>(&'a self, input: &[u8], path: &[u8]) -> (r: Result<Date, IndexError>)
        requires
            tree_ok(self@, input@.len() as int),
        ensures
            match value_at_path(input@, self@, path@) {
                Ok(SVal::Date(x)) => r is Ok && r->Ok_0 == x,
                Ok(_) => r == Err::<Date, IndexError>(wrong_type(path@)),
                Err(e) => r == Err::<Date, IndexError>(e),
            },
    {
        match self.get_at_path(input, path) {
            Ok(v) => match v {
                Val::Date(x) => Ok(*x),
                _ => Err(IndexError { kind: IndexErrorKind::WrongType, depth: split_path(path).len() }),
            },
            Err(e) => Err(e),
        }
    }

    /// The value at a dotted path, where it is a string literal (the span of its contents).
    pub fn get_string_at_path<'a>(&'a self, input: &[u8], path: &[u8]) -> (r: Result<Span, IndexError>)
        requires
            tree_ok(self@, input@.len() as int),
        ensures
            match value_at_path(input@, self@, path@) {
                Ok(SVal::StringLiteral(x)) => r is Ok && r->Ok_0 == x,
                Ok(_) => r == Err::<Span, IndexError>(wrong_type(path@)),
                Err(e) => r == Err::<Span, IndexError>(e),
            },
    {
        match self.get_at_path(input, path) {
            Ok(v) => match v {
                Val::StringLiteral(x) => Ok(*x),
                _ => Err(IndexError { kind: IndexErrorKind::WrongType, depth: split_path(path).len() }),
            },
            Err(e) => Err(e),
        }
    }

    /// The value at a dotted path, where it is an identifier (its span).
    pub fn get_identifier_at_path<'a>(&'a self, input: &[u8], path: &[u8]) -> (r: Result<Span, IndexError>)
        requires
            tree_ok(self@, input@.len() as int),
        ensures
            match value_at_path(input@, self@, path@) {
                Ok(SVal::Identifier(x)) => r is Ok && r->Ok_0 == x,
                Ok(_) => r == Err::<Span, IndexError>(wrong_type(path@)),
                Err(e) => r == Err::<Span, IndexError>(e),
            },
    {
        match self.get_at_path(input, path) {
            Ok(v) => match v {
                Val::Identifier(x) => Ok(*x),
                _ => Err(IndexError { kind: IndexErrorKind::WrongType, depth: split_path(path).len() }),
            },
            Err(e) => Err(e),
        }
    }

    /// The value at a dotted path, where it is a decimal (the span of its digits).
    pub fn get_decimal_at_path<'a>(&'a self, input: &[u8], path: &[u8]) -> (r: Result<Span, IndexError>)
        requires
            tree_ok(self@, input@.len() as int),
        ensures
            match value_at_path(input@, self@, path@) {
                Ok(SVal::Decimal(x)) => r is Ok && r->Ok_0 == x,
                Ok(_) => r == Err::<Span, IndexError>(wrong_type(path@)),
                Err(e) => r == Err::<Span, IndexError>(e),
            },
    {
        match self.get_at_path(input, path) {
            Ok(v) => match v {
                Val::Decimal(x) => Ok(*x),
                _ => Err(IndexError { kind: IndexErrorKind::WrongType, depth: split_path(path).len() }),
            },
            Err(e) => Err(e),
        }
    }

    /// The value at a dotted path, where it is an integer.
    pub fn get_integer_at_path<'a>(&'a self, input: &[u8], path: &[u8]) -> (r: Result<i64, IndexError>)
        requires
            tree_ok(self@, input@.len() as int),
        ensures
            match value_at_path(input@, self@, path@) {
                Ok(SVal::Integer(x)) => r is Ok && r->Ok_0 == x,
                Ok(_) => r == Err::<i64, IndexError>(wrong_type(path@)),
                Err(e) => r == Err::<i64, IndexError>(e),
            },
    {
        match self.get_at_path(input, path) {
            Ok(v) => match v {
                Val::Integer(x) => Ok(*x),
                _ => Err(IndexError { kind: IndexErrorKind::WrongType, depth: split_path(path).len() }),
            },
            Err(e) => Err(e),
        }
    }

    /// The value at a dotted path, where it is an array (its entries, by index).
    pub fn get_array_at_path<'a>(&'a self, input: &[u8], path: &[u8]) -> (r: Result<&'a Vec<(u64, Val)>, IndexError>)
        requires
            tree_ok(self@, input@.len() as int),
        ensures
            match value_at_path(input@, self@, path@) {
                Ok(SVal::Array(x)) => r is Ok && view_indexed(r->Ok_0@) == x,
                Ok(_) => r == Err::<&'a Vec<(u64, Val)>, IndexError>(wrong_type(path@)),
                Err(e) => r == Err::<&'a Vec<(u64, Val)>, IndexError>(e),
            },
    {
        match self.get_at_path(input, path) {
            Ok(v) => match v {
                Val::Array(x) => Ok(x),
                _ => Err(IndexError { kind: IndexErrorKind::WrongType, depth: split_path(path).len() }),
            },
            Err(e) => Err(e),
        }
    }

    /// The value at a dotted path, where it is a dictionary (its entries).
    pub fn get_dict_at_path<'a>(&'a self, input: &[u8], path: &[u8]) -> (r: Result<&'a Vec<(Span, Val)>, IndexError>)
        requires
            tree_ok(self@, input@.len() as int),
        ensures
            match value_at_path(input@, self@, path@) {
                Ok(SVal::Dict(x)) => r is Ok && view_entries(r->Ok_0@) == x,
                Ok(_) => r == Err::<&'a Vec<(Span, Val)>, IndexError>(wrong_type(path@)),
                Err(e) => r == Err::<&'a Vec<(Span, Val)>, IndexError>(e),
            },
    {
        match self.get_at_path(input, path) {
            Ok(v) => match v {
                Val::Dict(x) => Ok(x),
                _ => Err(IndexError { kind: IndexErrorKind::WrongType, depth: split_path(path).len() }),
            },
            Err(e) => Err(e),
        }
    }

    /// The value at a dotted path, where it is a numbered dictionary (its number and entries).
    pub fn get_numbered_dict_at_path<'a>(&'a self, input: &[u8], path: &[u8]) -> (r: Result<(i64, &'a Vec<(Span, Val)>), IndexError>)
        requires
            tree_ok(self@, input@.len() as int),
        ensures
            match value_at_path(input@, self@, path@) {
                Ok(SVal::NumberedDict(n, x)) => r is Ok && r->Ok_0.0 == n && view_entries(r->Ok_0.1@) == x,
                Ok(_) => r == Err::<(i64, &'a Vec<(Span, Val)>), IndexError>(wrong_type(path@)),
                Err(e) => r == Err::<(i64, &'a Vec<(Span, Val)>), IndexError>(e),
            },
    {
        match self.get_at_path(input, path) {
            Ok(v) => match v {
                Val::NumberedDict(n, x) => Ok((*n, x)),
                _ => Err(IndexError { kind: IndexErrorKind::WrongType, depth: split_path(path).len() }),
            },
            Err(e) => Err(e),
        }
    }
}

} // verus!
