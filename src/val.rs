//! The value tree and its mathematical model.
use vstd::prelude::*;

verus! {

/// A half-open range `[start, end)` of byte offsets into the parsed input.
#[derive(Clone, Copy, PartialEq, Eq, Structural, Debug)]
pub struct Span {
    pub start: usize,
    pub end: usize,
}

/// A calendar date.
#[derive(Clone, Copy, PartialEq, Eq, Structural, Debug)]
pub struct Date {
    pub year: i32,
    pub month: u32,
    pub day: u32,
}

/// A parsed value. Text leaves are spans into the input buffer; a decimal is kept as
/// the span of its digits, so that no precision is lost.
#[derive(Debug)]
pub enum Val {
    Dict(Vec<(Span, Val)>),
    NumberedDict(i64, Vec<(Span, Val)>),
    Array(Vec<(u64, Val)>),
    ValueSet(Vec<Val>),
    StringLiteral(Span),
    Date(Date),
    Decimal(Span),
    Integer(i64),
    Identifier(Span),
}

/// The mathematical model of a [`Val`].
pub enum SVal {
    Dict(Seq<(Span, SVal)>),
    NumberedDict(i64, Seq<(Span, SVal)>),
    Array(Seq<(u64, SVal)>),
    ValueSet(Seq<SVal>),
    StringLiteral(Span),
    Date(Date),
    Decimal(Span),
    Integer(i64),
    Identifier(Span),
}

pub open spec fn view_entries(s: Seq<(Span, Val)>) -> Seq<(Span, SVal)>
    decreases s,
{
    if s.len() == 0 {
        Seq::empty()
    } else {
        view_entries(s.drop_last()).push((s.last().0, s.last().1.view_val()))
    }
}

pub open spec fn view_indexed(s: Seq<(u64, Val)>) -> Seq<(u64, SVal)>
    decreases s,
{
    if s.len() == 0 {
        Seq::empty()
    } else {
        view_indexed(s.drop_last()).push((s.last().0, s.last().1.view_val()))
    }
}

pub open spec fn view_vals(s: Seq<Val>) -> Seq<SVal>
    decreases s,
{
    if s.len() == 0 {
        Seq::empty()
    } else {
        view_vals(s.drop_last()).push(s.last().view_val())
    }
}

impl Val {
    pub open spec fn view_val(&self) -> SVal
        decreases self,
    {
        match self {
            Val::Dict(v) => SVal::Dict(view_entries(v@)),
            Val::NumberedDict(n, v) => SVal::NumberedDict(*n, view_entries(v@)),
            Val::Array(v) => SVal::Array(view_indexed(v@)),
            Val::ValueSet(v) => SVal::ValueSet(view_vals(v@)),
            Val::StringLiteral(x) => SVal::StringLiteral(*x),
            Val::Date(d) => SVal::Date(*d),
            Val::Decimal(x) => SVal::Decimal(*x),
            Val::Integer(n) => SVal::Integer(*n),
            Val::Identifier(x) => SVal::Identifier(*x),
        }
    }
}

impl View for Val {
    type V = SVal;

    open spec fn view(&self) -> SVal {
        self.view_val()
    }
}

pub proof fn lemma_view_entries_push(s: Seq<(Span, Val)>, e: (Span, Val))
    ensures
        view_entries(s.push(e)) == view_entries(s).push((e.0, e.1@)),
{
    assert(s.push(e).drop_last() =~= s);
}

pub proof fn lemma_view_indexed_push(s: Seq<(u64, Val)>, e: (u64, Val))
    ensures
        view_indexed(s.push(e)) == view_indexed(s).push((e.0, e.1@)),
{
    assert(s.push(e).drop_last() =~= s);
}

pub proof fn lemma_view_vals_push(s: Seq<Val>, e: Val)
    ensures
        view_vals(s.push(e)) == view_vals(s).push(e@),
{
    assert(s.push(e).drop_last() =~= s);
}

pub proof fn lemma_view_entries_index(s: Seq<(Span, Val)>)
    ensures
        view_entries(s).len() == s.len(),
        forall|a: int| 0 <= a < s.len() ==> #[trigger] view_entries(s)[a] == (s[a].0, s[a].1@),
    decreases s.len(),
{
    if s.len() > 0 {
        lemma_view_entries_index(s.drop_last());
    }
}

pub proof fn lemma_view_indexed_index(s: Seq<(u64, Val)>)
    ensures
        view_indexed(s).len() == s.len(),
        forall|a: int| 0 <= a < s.len() ==> #[trigger] view_indexed(s)[a] == (s[a].0, s[a].1@),
    decreases s.len(),
{
    if s.len() > 0 {
        lemma_view_indexed_index(s.drop_last());
    }
}

pub proof fn lemma_view_vals_index(s: Seq<Val>)
    ensures
        view_vals(s).len() == s.len(),
        forall|a: int| 0 <= a < s.len() ==> #[trigger] view_vals(s)[a] == s[a]@,
    decreases s.len(),
{
    if s.len() > 0 {
        lemma_view_vals_index(s.drop_last());
    }
}

pub proof fn lemma_view_vals_append(a: Seq<Val>, b: Seq<Val>)
    ensures
        view_vals(a + b) == view_vals(a) + view_vals(b),
{
    lemma_view_vals_index(a);
    lemma_view_vals_index(b);
    lemma_view_vals_index(a + b);
    assert(view_vals(a + b) =~= view_vals(a) + view_vals(b));
}

pub open spec fn span_ok(x: Span, n: int) -> bool {
    x.start <= x.end <= n
}

/// Every span of `v` lies within an input of length `n`; the keys of each dictionary stand
/// in source order; each array is ordered by index.
pub open spec fn tree_ok(v: SVal, n: int) -> bool
    decreases v,
{
    match v {
        SVal::Dict(es) => entries_ok(es, n) && entry_trees_ok(es, n),
        SVal::NumberedDict(_, es) => entries_ok(es, n) && entry_trees_ok(es, n),
        SVal::Array(ps) => indexes_sorted(ps) && indexed_trees_ok(ps, n),
        SVal::ValueSet(vs) => trees_ok(vs, n),
        SVal::StringLiteral(x) => span_ok(x, n),
        SVal::Decimal(x) => span_ok(x, n),
        SVal::Identifier(x) => span_ok(x, n),
        SVal::Date(_) => true,
        SVal::Integer(_) => true,
    }
}

pub open spec fn trees_ok(vs: Seq<SVal>, n: int) -> bool
    decreases vs,
{
    if vs.len() == 0 {
        true
    } else {
        trees_ok(vs.drop_last(), n) && tree_ok(vs.last(), n)
    }
}

pub open spec fn entry_trees_ok(es: Seq<(Span, SVal)>, n: int) -> bool
    decreases es,
{
    if es.len() == 0 {
        true
    } else {
        entry_trees_ok(es.drop_last(), n) && tree_ok(es.last().1, n)
    }
}

pub open spec fn indexed_trees_ok(ps: Seq<(u64, SVal)>, n: int) -> bool
    decreases ps,
{
    if ps.len() == 0 {
        true
    } else {
        indexed_trees_ok(ps.drop_last(), n) && tree_ok(ps.last().1, n)
    }
}

pub proof fn lemma_trees_ok(vs: Seq<SVal>, n: int)
    ensures
        trees_ok(vs, n) <==> forall|a: int| 0 <= a < vs.len() ==> #[trigger] tree_ok(vs[a], n),
    decreases vs.len(),
{
    if vs.len() > 0 {
        let t = vs.drop_last();
        lemma_trees_ok(t, n);
        if forall|a: int| 0 <= a < vs.len() ==> #[trigger] tree_ok(vs[a], n) {
            assert forall|a: int| 0 <= a < t.len() implies #[trigger] tree_ok(t[a], n) by {
                assert(t[a] == vs[a]);
            }
            assert(tree_ok(vs[vs.len() - 1], n));
        }
        if trees_ok(vs, n) {
            assert forall|a: int| 0 <= a < vs.len() implies #[trigger] tree_ok(vs[a], n) by {
                if a < t.len() {
                    assert(t[a] == vs[a]);
                }
            }
        }
    }
}

pub proof fn lemma_entry_trees_ok(es: Seq<(Span, SVal)>, n: int)
    ensures
        entry_trees_ok(es, n) <==> forall|a: int| 0 <= a < es.len() ==> #[trigger] tree_ok(es[a].1, n),
    decreases es.len(),
{
    if es.len() > 0 {
        let t = es.drop_last();
        lemma_entry_trees_ok(t, n);
        if forall|a: int| 0 <= a < es.len() ==> #[trigger] tree_ok(es[a].1, n) {
            assert forall|a: int| 0 <= a < t.len() implies #[trigger] tree_ok(t[a].1, n) by {
                assert(t[a] == es[a]);
            }
            assert(tree_ok(es[es.len() - 1].1, n));
        }
        if entry_trees_ok(es, n) {
            assert forall|a: int| 0 <= a < es.len() implies #[trigger] tree_ok(es[a].1, n) by {
                if a < t.len() {
                    assert(t[a] == es[a]);
                }
            }
        }
    }
}

pub proof fn lemma_indexed_trees_ok(ps: Seq<(u64, SVal)>, n: int)
    ensures
        indexed_trees_ok(ps, n) <==> forall|a: int| 0 <= a < ps.len() ==> #[trigger] tree_ok(ps[a].1, n),
    decreases ps.len(),
{
    if ps.len() > 0 {
        let t = ps.drop_last();
        lemma_indexed_trees_ok(t, n);
        if forall|a: int| 0 <= a < ps.len() ==> #[trigger] tree_ok(ps[a].1, n) {
            assert forall|a: int| 0 <= a < t.len() implies #[trigger] tree_ok(t[a].1, n) by {
                assert(t[a] == ps[a]);
            }
            assert(tree_ok(ps[ps.len() - 1].1, n));
        }
        if indexed_trees_ok(ps, n) {
            assert forall|a: int| 0 <= a < ps.len() implies #[trigger] tree_ok(ps[a].1, n) by {
                if a < t.len() {
                    assert(t[a] == ps[a]);
                }
            }
        }
    }
}

/// The keys lie within the input and their starts strictly increase.
pub open spec fn entries_ok(es: Seq<(Span, SVal)>, n: int) -> bool {
    &&& forall|a: int| 0 <= a < es.len() ==> span_ok(#[trigger] es[a].0, n)
    &&& forall|a: int, b: int| 0 <= a < b < es.len() ==> #[trigger] es[a].0.start < #[trigger] es[b].0.start
}

pub open spec fn indexes_sorted(ps: Seq<(u64, SVal)>) -> bool {
    forall|a: int, b: int| 0 <= a < b < ps.len() ==> #[trigger] ps[a].0 <= #[trigger] ps[b].0
}

} // verus!
