//! The grammar of the format, stated as spec functions over the input bytes.
//!
//! Each production takes the input and a position and yields an [`Outcome`]. A `Miss`
//! means that the production cannot start there and nothing was consumed; the caller may
//! then try another. Once a production has committed (it has entered a block, or read a
//! key), a failure is `Fatal` and ends the whole parse.
use vstd::prelude::*;
use crate::classify::{
    is_digit_byte, is_identifier_byte, lemma_run_end_bounds, run_end, CharClass,
};
use crate::scalar::{
    date_dots, date_token_value, digits_value, integer_token_value, is_decimal_token,
    is_i64_token, is_integer_token,
};
use crate::val::{indexes_sorted, SVal, Span};

verus! {

broadcast use lemma_run_end_bounds;

/// The kinds of parse failure.
#[derive(Clone, Copy, PartialEq, Eq, Structural, Debug)]
pub enum ErrorKind {
    /// A required token was missing at the end of the input.
    UnexpectedEndOfInput,
    /// A byte that no production accepts where one was required.
    UnexpectedToken,
    /// An integer that does not fit in 64 bits, or a date that is not a calendar date.
    InvalidScalar,
    /// A block whose closing brace is missing.
    MismatchedBraces,
}

/// A parse failure and the byte offset where it was found.
#[derive(Clone, Copy, PartialEq, Eq, Structural, Debug)]
pub struct ParseError {
    pub kind: ErrorKind,
    pub offset: usize,
}

/// What a production yields at a position.
pub enum Outcome<T> {
    /// A result, and the position just after what it consumed.
    Done(T, int),
    /// The production cannot start here; nothing was consumed.
    Miss,
    /// A failure after the parse committed.
    Fatal(ParseError),
}

pub open spec fn err(kind: ErrorKind, at: int) -> ParseError {
    ParseError { kind, offset: at as usize }
}

/// The error for a required token that is not at `at`.
pub open spec fn missing(s: Seq<u8>, at: int) -> ParseError {
    if at >= s.len() {
        err(ErrorKind::UnexpectedEndOfInput, at)
    } else {
        err(ErrorKind::UnexpectedToken, at)
    }
}

pub open spec fn span(a: int, b: int) -> Span {
    Span { start: a as usize, end: b as usize }
}

/// Optional whitespace: where the run of space bytes from `i` ends.
pub open spec fn sp(s: Seq<u8>, i: int) -> int {
    run_end(s, i, CharClass::Space)
}

/// A key: a run of identifier bytes (it may begin with a digit), or a quoted string whose
/// span excludes the quotes.
pub open spec fn key_spec(s: Seq<u8>, i: int) -> Outcome<Span> {
    if 0 <= i < s.len() && is_identifier_byte(s[i]) {
        let e = run_end(s, i, CharClass::Identifier);
        Outcome::Done(span(i, e), e)
    } else if 0 <= i < s.len() && s[i] == 0x22 {
        let e = run_end(s, i + 1, CharClass::StringBody);
        if e < s.len() {
            Outcome::Done(span(i + 1, e), e + 1)
        } else {
            Outcome::Fatal(err(ErrorKind::UnexpectedEndOfInput, e))
        }
    } else {
        Outcome::Miss
    }
}

/// An unquoted scalar: the run of identifier bytes at `i`, read as a date, a decimal, an
/// integer or an identifier, the first of these that the whole run is.
pub open spec fn scalar_spec(s: Seq<u8>, i: int) -> Outcome<SVal> {
    let e = run_end(s, i, CharClass::Identifier);
    if !(0 <= i < s.len()) || e == i {
        Outcome::Miss
    } else if date_dots(s, i, e) is Some {
        match date_token_value(s, i, e) {
            Some(d) => Outcome::Done(SVal::Date(d), e),
            None => Outcome::Fatal(err(ErrorKind::InvalidScalar, i)),
        }
    } else if is_decimal_token(s, i, e) {
        Outcome::Done(SVal::Decimal(span(i, e)), e)
    } else if is_integer_token(s, i, e) {
        if is_i64_token(s, i, e) {
            Outcome::Done(SVal::Integer(integer_token_value(s, i, e) as i64), e)
        } else {
            Outcome::Fatal(err(ErrorKind::InvalidScalar, i))
        }
    } else if !is_digit_byte(s[i]) {
        Outcome::Done(SVal::Identifier(span(i, e)), e)
    } else {
        Outcome::Miss
    }
}

/// A quoted value at `i` (where `s[i]` is a double quote): a date where the contents are
/// a date token, else a string literal.
pub open spec fn quoted_spec(s: Seq<u8>, i: int) -> Outcome<SVal> {
    let e = run_end(s, i + 1, CharClass::StringBody);
    if e >= s.len() {
        Outcome::Fatal(err(ErrorKind::UnexpectedEndOfInput, e))
    } else if date_dots(s, i + 1, e) is Some {
        match date_token_value(s, i + 1, e) {
            Some(d) => Outcome::Done(SVal::Date(d), e + 1),
            None => Outcome::Fatal(err(ErrorKind::InvalidScalar, i + 1)),
        }
    } else {
        Outcome::Done(SVal::StringLiteral(span(i + 1, e)), e + 1)
    }
}

/// A value: a block, a quoted value or an unquoted scalar.
pub open spec fn value_spec(s: Seq<u8>, i: int) -> Outcome<SVal>
    decreases s.len() - i, 3int,
{
    if !(0 <= i < s.len()) {
        Outcome::Miss
    } else if s[i] == 0x7b {
        bracketed_spec(s, i)
    } else if s[i] == 0x22 {
        quoted_spec(s, i)
    } else {
        scalar_spec(s, i)
    }
}

/// A block: `{`, optional whitespace, the body, optional whitespace, `}`.
pub open spec fn bracketed_spec(s: Seq<u8>, i: int) -> Outcome<SVal>
    decreases s.len() - i, 2int,
{
    if !(0 <= i < s.len() && s[i] == 0x7b) {
        Outcome::Miss
    } else {
        let j = sp(s, i + 1);
        match contents_spec(s, j) {
            Outcome::Done(v, k) => {
                let m = sp(s, k);
                if m < s.len() && s[m] == 0x7d {
                    Outcome::Done(v, m + 1)
                } else {
                    Outcome::Fatal(err(ErrorKind::MismatchedBraces, m))
                }
            },
            Outcome::Miss => Outcome::Fatal(missing(s, j)),
            Outcome::Fatal(e) => Outcome::Fatal(e),
        }
    }
}

pub open spec fn as_set(o: Outcome<Seq<SVal>>) -> Outcome<SVal> {
    match o {
        Outcome::Done(vs, k) => Outcome::Done(SVal::ValueSet(vs), k),
        Outcome::Miss => Outcome::Miss,
        Outcome::Fatal(e) => Outcome::Fatal(e),
    }
}

pub open spec fn as_dict(o: Outcome<Seq<(Span, SVal)>>) -> Outcome<SVal> {
    match o {
        Outcome::Done(es, k) => Outcome::Done(SVal::Dict(es), k),
        Outcome::Miss => Outcome::Miss,
        Outcome::Fatal(e) => Outcome::Fatal(e),
    }
}

/// An array holds its entries sorted by index.
pub open spec fn as_array(o: Outcome<Seq<(u64, SVal)>>) -> Outcome<SVal> {
    match o {
        Outcome::Done(ps, k) => Outcome::Done(SVal::Array(sort_by_index(ps)), k),
        Outcome::Miss => Outcome::Miss,
        Outcome::Fatal(e) => Outcome::Fatal(e),
    }
}

/// Whether the identifier run at `j` is an integer that fits in an `i64`.
pub open spec fn integer_prefix(s: Seq<u8>, j: int) -> bool {
    is_i64_token(s, j, run_end(s, j, CharClass::Identifier))
}

/// The body of a block. Its shape is chosen by looking ahead to the first `=`, `{` or `}`
/// and by whether the identifier run at `j` is an integer.
pub open spec fn contents_spec(s: Seq<u8>, j: int) -> Outcome<SVal>
    decreases s.len() - j, 6int,
{
    let t = run_end(s, j, CharClass::NotToken);
    if !(0 <= j <= s.len()) {
        Outcome::Miss
    } else if t >= s.len() {
        Outcome::Fatal(err(ErrorKind::UnexpectedEndOfInput, t))
    } else if s[t] == 0x7d {
        as_set(set_list_spec(s, j))
    } else if s[t] == 0x3d {
        if integer_prefix(s, j) {
            as_array(array_list_spec(s, j))
        } else {
            as_dict(dict_list_spec(s, j))
        }
    } else if integer_prefix(s, j) {
        numbered_dict_spec(s, j)
    } else {
        as_set(blocks_list_spec(s, j))
    }
}

/// `key = value`, with optional whitespace round the `=`.
pub open spec fn entry_spec(s: Seq<u8>, i: int) -> Outcome<(Span, SVal)>
    decreases s.len() - i, 4int,
{
    if !(0 <= i <= s.len()) {
        Outcome::Miss
    } else {
        match key_spec(s, i) {
            Outcome::Done(key, j) => {
                let q = sp(s, j);
                if q < s.len() && s[q] == 0x3d {
                    let p = sp(s, q + 1);
                    match value_spec(s, p) {
                        Outcome::Done(v, r) => Outcome::Done((key, v), r),
                        Outcome::Miss => Outcome::Fatal(missing(s, p)),
                        Outcome::Fatal(e) => Outcome::Fatal(e),
                    }
                } else {
                    Outcome::Fatal(missing(s, q))
                }
            },
            Outcome::Miss => Outcome::Miss,
            Outcome::Fatal(e) => Outcome::Fatal(e),
        }
    }
}

/// `index = value`, where the index is a run of digits that fits in a `u64`.
pub open spec fn index_entry_spec(s: Seq<u8>, i: int) -> Outcome<(u64, SVal)>
    decreases s.len() - i, 4int,
{
    let d = run_end(s, i, CharClass::Digit);
    if !(0 <= i <= s.len()) || d == i {
        Outcome::Miss
    } else if digits_value(s, i, d) > u64::MAX {
        Outcome::Fatal(err(ErrorKind::InvalidScalar, i))
    } else {
        let q = sp(s, d);
        if q < s.len() && s[q] == 0x3d {
            let p = sp(s, q + 1);
            match value_spec(s, p) {
                Outcome::Done(v, r) => Outcome::Done((digits_value(s, i, d) as u64, v), r),
                Outcome::Miss => Outcome::Fatal(missing(s, p)),
                Outcome::Fatal(e) => Outcome::Fatal(e),
            }
        } else {
            Outcome::Fatal(missing(s, q))
        }
    }
}

/// `N { entries }`: an integer tag, whitespace, then a dictionary body in braces.
pub open spec fn numbered_dict_spec(s: Seq<u8>, j: int) -> Outcome<SVal>
    decreases s.len() - j, 5int,
{
    let x = run_end(s, j, CharClass::Identifier);
    let q = sp(s, x);
    if !(0 <= j <= s.len()) || !is_i64_token(s, j, x) {
        Outcome::Miss
    } else if q == x {
        Outcome::Fatal(missing(s, x))
    } else if !(q < s.len() && s[q] == 0x7b) {
        Outcome::Fatal(missing(s, q))
    } else {
        let p = sp(s, q + 1);
        match dict_list_spec(s, p) {
            Outcome::Done(es, r) => {
                let t = sp(s, r);
                if t < s.len() && s[t] == 0x7d {
                    Outcome::Done(SVal::NumberedDict(integer_token_value(s, j, x) as i64, es), t + 1)
                } else {
                    Outcome::Fatal(err(ErrorKind::MismatchedBraces, t))
                }
            },
            Outcome::Miss => Outcome::Fatal(missing(s, p)),
            Outcome::Fatal(e) => Outcome::Fatal(e),
        }
    }
}

/// Entries separated by whitespace; the list ends before the first that cannot start.
pub open spec fn dict_list_spec(s: Seq<u8>, j: int) -> Outcome<Seq<(Span, SVal)>>
    decreases s.len() - j, 5int,
{
    if !(0 <= j <= s.len()) {
        Outcome::Miss
    } else {
        match entry_spec(s, j) {
            Outcome::Done(e, k) => if j < k <= s.len() {
                dict_tail_spec(s, k, seq![e])
            } else {
                Outcome::Done(seq![e], k)
            },
            Outcome::Miss => Outcome::Done(Seq::empty(), j),
            Outcome::Fatal(e) => Outcome::Fatal(e),
        }
    }
}

/// The rest of a dictionary body after the entries `acc`, which end at `k`. (Entries
/// always consume input; the comparison of positions only makes that evident.)
pub open spec fn dict_tail_spec(s: Seq<u8>, k: int, acc: Seq<(Span, SVal)>) -> Outcome<
    Seq<(Span, SVal)>,
>
    decreases s.len() - k, 1int,
{
    let m = sp(s, k);
    if !(0 <= k <= s.len()) {
        Outcome::Miss
    } else if m == k {
        Outcome::Done(acc, k)
    } else {
        match entry_spec(s, m) {
            Outcome::Done(e, k2) => if k < k2 <= s.len() {
                dict_tail_spec(s, k2, acc.push(e))
            } else {
                Outcome::Done(acc.push(e), k2)
            },
            Outcome::Miss => Outcome::Done(acc, k),
            Outcome::Fatal(e) => Outcome::Fatal(e),
        }
    }
}

/// Index entries separated by whitespace, in source order.
pub open spec fn array_list_spec(s: Seq<u8>, j: int) -> Outcome<Seq<(u64, SVal)>>
    decreases s.len() - j, 5int,
{
    if !(0 <= j <= s.len()) {
        Outcome::Miss
    } else {
        match index_entry_spec(s, j) {
            Outcome::Done(e, k) => if j < k <= s.len() {
                array_tail_spec(s, k, seq![e])
            } else {
                Outcome::Done(seq![e], k)
            },
            Outcome::Miss => Outcome::Done(Seq::empty(), j),
            Outcome::Fatal(e) => Outcome::Fatal(e),
        }
    }
}

pub open spec fn array_tail_spec(s: Seq<u8>, k: int, acc: Seq<(u64, SVal)>) -> Outcome<
    Seq<(u64, SVal)>,
>
    decreases s.len() - k, 1int,
{
    let m = sp(s, k);
    if !(0 <= k <= s.len()) {
        Outcome::Miss
    } else if m == k {
        Outcome::Done(acc, k)
    } else {
        match index_entry_spec(s, m) {
            Outcome::Done(e, k2) => if k < k2 <= s.len() {
                array_tail_spec(s, k2, acc.push(e))
            } else {
                Outcome::Done(acc.push(e), k2)
            },
            Outcome::Miss => Outcome::Done(acc, k),
            Outcome::Fatal(e) => Outcome::Fatal(e),
        }
    }
}

/// Values separated by whitespace.
pub open spec fn set_list_spec(s: Seq<u8>, j: int) -> Outcome<Seq<SVal>>
    decreases s.len() - j, 5int,
{
    if !(0 <= j <= s.len()) {
        Outcome::Miss
    } else {
        match value_spec(s, j) {
            Outcome::Done(v, k) => if j < k <= s.len() {
                set_tail_spec(s, k, seq![v])
            } else {
                Outcome::Done(seq![v], k)
            },
            Outcome::Miss => Outcome::Done(Seq::empty(), j),
            Outcome::Fatal(e) => Outcome::Fatal(e),
        }
    }
}

pub open spec fn set_tail_spec(s: Seq<u8>, k: int, acc: Seq<SVal>) -> Outcome<Seq<SVal>>
    decreases s.len() - k, 1int,
{
    let m = sp(s, k);
    if !(0 <= k <= s.len()) {
        Outcome::Miss
    } else if m == k {
        Outcome::Done(acc, k)
    } else {
        match value_spec(s, m) {
            Outcome::Done(v, k2) => if k < k2 <= s.len() {
                set_tail_spec(s, k2, acc.push(v))
            } else {
                Outcome::Done(acc.push(v), k2)
            },
            Outcome::Miss => Outcome::Done(acc, k),
            Outcome::Fatal(e) => Outcome::Fatal(e),
        }
    }
}

/// Blocks separated by whitespace.
pub open spec fn blocks_list_spec(s: Seq<u8>, j: int) -> Outcome<Seq<SVal>>
    decreases s.len() - j, 5int,
{
    if !(0 <= j <= s.len()) {
        Outcome::Miss
    } else {
        match bracketed_spec(s, j) {
            Outcome::Done(v, k) => if j < k <= s.len() {
                blocks_tail_spec(s, k, seq![v])
            } else {
                Outcome::Done(seq![v], k)
            },
            Outcome::Miss => Outcome::Done(Seq::empty(), j),
            Outcome::Fatal(e) => Outcome::Fatal(e),
        }
    }
}

pub open spec fn blocks_tail_spec(s: Seq<u8>, k: int, acc: Seq<SVal>) -> Outcome<Seq<SVal>>
    decreases s.len() - k, 1int,
{
    let m = sp(s, k);
    if !(0 <= k <= s.len()) {
        Outcome::Miss
    } else if m == k {
        Outcome::Done(acc, k)
    } else {
        match bracketed_spec(s, m) {
            Outcome::Done(v, k2) => if k < k2 <= s.len() {
                blocks_tail_spec(s, k2, acc.push(v))
            } else {
                Outcome::Done(acc.push(v), k2)
            },
            Outcome::Miss => Outcome::Done(acc, k),
            Outcome::Fatal(e) => Outcome::Fatal(e),
        }
    }
}

/// Inserts `e` after every element whose index is at most its own.
pub open spec fn insert_by_index(s: Seq<(u64, SVal)>, e: (u64, SVal)) -> Seq<(u64, SVal)>
    decreases s.len(),
{
    if s.len() == 0 {
        seq![e]
    } else if s.last().0 <= e.0 {
        s.push(e)
    } else {
        insert_by_index(s.drop_last(), e).push(s.last())
    }
}

/// The stable sort of index entries by index.
pub open spec fn sort_by_index(s: Seq<(u64, SVal)>) -> Seq<(u64, SVal)>
    decreases s.len(),
{
    if s.len() == 0 {
        s
    } else {
        insert_by_index(sort_by_index(s.drop_last()), s.last())
    }
}

pub proof fn lemma_insert_by_index(s: Seq<(u64, SVal)>, e: (u64, SVal), p: int)
    requires
        0 <= p <= s.len(),
        forall|a: int| 0 <= a < p ==> (#[trigger] s[a]).0 <= e.0,
        forall|a: int| p <= a < s.len() ==> (#[trigger] s[a]).0 > e.0,
    ensures
        insert_by_index(s, e) == s.insert(p, e),
    decreases s.len(),
{
    if s.len() == 0 {
        assert(s.insert(p, e) =~= seq![e]);
    } else if s.last().0 <= e.0 {
        assert(s.insert(p, e) =~= s.push(e));
    } else {
        lemma_insert_by_index(s.drop_last(), e, p);
        assert(s.drop_last().insert(p, e).push(s.last()) =~= s.insert(p, e));
    }
}

proof fn lemma_insert_by_index_keeps(s: Seq<(u64, SVal)>, e: (u64, SVal))
    ensures
        insert_by_index(s, e).len() == s.len() + 1,
        indexes_sorted(s) ==> indexes_sorted(insert_by_index(s, e)),
        forall|a: int|
            0 <= a < insert_by_index(s, e).len() ==> #[trigger] insert_by_index(s, e)[a] == e
                || s.contains(insert_by_index(s, e)[a]),
    decreases s.len(),
{
    if s.len() > 0 && s.last().0 > e.0 {
        let t = s.drop_last();
        lemma_insert_by_index_keeps(t, e);
        let r = insert_by_index(t, e);
        assert forall|a: int| 0 <= a < r.len() && r[a] != e implies s.contains(r[a]) by {
            let b = choose|b: int| 0 <= b < t.len() && t[b] == r[a];
            assert(s[b] == r[a]);
        }
        if indexes_sorted(s) {
            assert forall|a: int| 0 <= a < r.len() implies (#[trigger] r[a]).0 <= s.last().0 by {
                if r[a] != e {
                    let b = choose|b: int| 0 <= b < t.len() && t[b] == r[a];
                    assert(s[b] == r[a]);
                }
            }
        }
        assert forall|a: int|
            0 <= a < insert_by_index(s, e).len() && insert_by_index(s, e)[a] != e implies s.contains(
            insert_by_index(s, e)[a]) by {
            if a == r.len() {
                assert(s[s.len() - 1] == s.last());
            }
        }
    } else if s.len() > 0 {
        assert forall|a: int|
            0 <= a < insert_by_index(s, e).len() && insert_by_index(s, e)[a] != e implies s.contains(
            insert_by_index(s, e)[a]) by {
            assert(s[a] == insert_by_index(s, e)[a]);
        }
    }
}

/// Sorting by index yields entries in ascending index order, each one of the input's.
pub proof fn lemma_sort_by_index(s: Seq<(u64, SVal)>)
    ensures
        sort_by_index(s).len() == s.len(),
        indexes_sorted(sort_by_index(s)),
        forall|a: int| 0 <= a < s.len() ==> s.contains(#[trigger] sort_by_index(s)[a]),
    decreases s.len(),
{
    if s.len() > 0 {
        let t = s.drop_last();
        lemma_sort_by_index(t);
        lemma_insert_by_index_keeps(sort_by_index(t), s.last());
        let r = sort_by_index(s);
        assert forall|a: int| 0 <= a < s.len() implies s.contains(#[trigger] r[a]) by {
            if r[a] == s.last() {
                assert(s[s.len() - 1] == r[a]);
            } else {
                let b = choose|b: int| 0 <= b < t.len() && sort_by_index(t)[b] == r[a];
                let c = choose|c: int| 0 <= c < t.len() && t[c] == sort_by_index(t)[b];
                assert(s[c] == r[a]);
            }
        }
    }
}

proof fn lemma_insert_by_index_multiset(s: Seq<(u64, SVal)>, e: (u64, SVal))
    ensures
        insert_by_index(s, e).to_multiset() =~= s.to_multiset().insert(e),
    decreases s.len(),
{
    broadcast use vstd::seq_lib::to_multiset_build;

    if s.len() == 0 {
        assert(seq![e] =~= s.push(e));
    } else if s.last().0 > e.0 {
        let t = s.drop_last();
        lemma_insert_by_index_multiset(t, e);
        assert(t.push(s.last()) =~= s);
    }
}

/// An array holds exactly the entries that were parsed: sorting them by index permutes them.
pub proof fn lemma_sort_by_index_permutes(s: Seq<(u64, SVal)>)
    ensures
        sort_by_index(s).to_multiset() =~= s.to_multiset(),
    decreases s.len(),
{
    broadcast use vstd::seq_lib::to_multiset_build;

    if s.len() > 0 {
        let t = s.drop_last();
        lemma_sort_by_index_permutes(t);
        lemma_insert_by_index_multiset(sort_by_index(t), s.last());
        assert(t.push(s.last()) =~= s);
    }
}

/// A whole document: optional whitespace, a dictionary body, optional whitespace. The
/// result is the tree and the position where the unparsed rest begins.
pub open spec fn root_spec(s: Seq<u8>) -> Result<(SVal, int), ParseError> {
    match dict_list_spec(s, sp(s, 0)) {
        Outcome::Done(es, k) => Ok((SVal::Dict(es), sp(s, k))),
        Outcome::Miss => Ok((SVal::Dict(Seq::empty()), sp(s, 0))),
        Outcome::Fatal(e) => Err(e),
    }
}

} // verus!
