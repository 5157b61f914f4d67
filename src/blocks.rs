//! Splitting a document into top-level records, and parsing only the records asked for.
use vstd::prelude::*;
use crate::classify::{
    in_class, in_class_exec, is_identifier_byte, run_end, take_simd_identifier, CharClass,
};
use crate::grammar::{dict_list_spec, dict_tail_spec, entry_spec, key_spec, sp, span, Outcome, ParseError};
use crate::path::text;
use crate::parser::{hash_map, opt_space, Parsed};
use crate::val::{lemma_view_entries_index, view_entries, SVal, Span, Val};

verus! {

broadcast use crate::classify::lemma_run_end_bounds;

/// A top-level record starts at `p`: at the start of a line, a run of identifier bytes
/// followed by `=`.
pub open spec fn is_record_start(s: Seq<u8>, p: int) -> bool {
    &&& 0 < p < s.len()
    &&& s[p - 1] == 0x0a
    &&& is_identifier_byte(s[p])
    &&& run_end(s, p, CharClass::Identifier) < s.len()
    &&& s[run_end(s, p, CharClass::Identifier)] == 0x3d
}

/// The records from the one that starts at `a`, looking for the next start from `p` on.
pub open spec fn blocks_from(s: Seq<u8>, a: int, p: int) -> Seq<Span>
    decreases s.len() - p,
{
    if p >= s.len() {
        if 0 <= a < s.len() {
            seq![span(a, s.len() as int)]
        } else {
            Seq::empty()
        }
    } else if is_record_start(s, p) {
        seq![span(a, p)] + blocks_from(s, p, p + 1)
    } else {
        blocks_from(s, a, p + 1)
    }
}

/// The records of a document: it is cut before each record start, and the last record runs
/// to the end.
pub open spec fn blocks(s: Seq<u8>) -> Seq<Span> {
    blocks_from(s, 0, 1)
}

fn record_start(input: &[u8], p: usize) -> (r: bool)
    requires
        p <= input@.len(),
    ensures
        r == is_record_start(input@, p as int),
{
    if !(0 < p && p < input.len() && input[p - 1] == 0x0a && in_class_exec(
        CharClass::Identifier,
        input[p],
    )) {
        return false;
    }
    let e = take_simd_identifier(input, p);
    e < input.len() && input[e] == 0x3d
}

/// Cuts a document into its top-level records, in order.
pub fn split_blocks(input: &[u8]) -> (r: Vec<Span>)
    ensures
        r@ == blocks(input@),
        forall|c: int| 0 <= c < r@.len() ==> (#[trigger] r@[c]).start <= r@[c].end <= input@.len(),
{
    let mut out: Vec<Span> = Vec::new();
    if input.len() == 0 {
        return out;
    }
    let mut a: usize = 0;
    let mut p: usize = 1;
    while p < input.len()
        invariant
            a < p <= input@.len(),
            out@ + blocks_from(input@, a as int, p as int) == blocks(input@),
            forall|c: int| 0 <= c < out@.len() ==> (#[trigger] out@[c]).start <= out@[c].end <= a,
        decreases input@.len() - p,
    {
        if record_start(input, p) {
            proof {
                assert(out@.push(span(a as int, p as int)) + blocks_from(input@, p as int, p + 1)
                    =~= out@ + blocks_from(input@, a as int, p as int));
            }
            out.push(Span { start: a, end: p });
            a = p;
        }
        p = p + 1;
    }
    proof {
        assert(out@.push(span(a as int, p as int)) =~= out@ + blocks_from(input@, a as int, p as int));
    }
    out.push(Span { start: a, end: p });
    out
}

/// The record `b` begins with the key `k` and then `=`.
pub open spec fn starts_with_key(s: Seq<u8>, b: Span, k: Seq<u8>) -> bool {
    &&& b.start + k.len() < b.end <= s.len()
    &&& s.subrange(b.start as int, b.start + k.len()) == k
    &&& s[b.start + k.len()] == 0x3d
}

/// The record `b` begins with one of the keys `ks[i..]`.
pub open spec fn wanted_from(s: Seq<u8>, b: Span, ks: Seq<Seq<u8>>, i: int) -> bool
    decreases ks.len() - i,
{
    if !(0 <= i < ks.len()) {
        false
    } else {
        starts_with_key(s, b, ks[i]) || wanted_from(s, b, ks, i + 1)
    }
}

pub open spec fn key_views(keys: Seq<Vec<u8>>) -> Seq<Seq<u8>> {
    Seq::new(keys.len(), |i: int| keys[i]@)
}

fn begins_with_key(input: &[u8], b: Span, k: &Vec<u8>) -> (r: bool)
    requires
        b.start <= b.end <= input@.len(),
    ensures
        r == starts_with_key(input@, b, k@),
{
    if !(k.len() < b.end - b.start) {
        return false;
    }
    let mut i: usize = 0;
    while i < k.len()
        invariant
            i <= k@.len(),
            b.start + k@.len() < b.end <= input@.len(),
            forall|j: int| 0 <= j < i ==> #[trigger] input@[b.start + j] == k@[j],
        decreases k@.len() - i,
    {
        if input[b.start + i] != k[i] {
            proof {
                assert(input@.subrange(b.start as int, b.start + k@.len())[i as int] != k@[i as int]);
            }
            return false;
        }
        i = i + 1;
    }
    proof {
        assert forall|j: int| 0 <= j < k@.len() implies input@.subrange(
            b.start as int,
            b.start + k@.len(),
        )[j] == k@[j] by {
            assert(input@[b.start + j] == k@[j]);
        }
        assert(input@.subrange(b.start as int, b.start + k@.len()) =~= k@);
    }
    input[b.start + k.len()] == 0x3d
}

/// The records of `bs` that begin with one of the keys, in order.
pub open spec fn wanted_blocks_spec(s: Seq<u8>, bs: Seq<Span>, ks: Seq<Seq<u8>>) -> Seq<Span>
    decreases bs.len(),
{
    if bs.len() == 0 {
        Seq::empty()
    } else if wanted_from(s, bs.last(), ks, 0) {
        wanted_blocks_spec(s, bs.drop_last(), ks).push(bs.last())
    } else {
        wanted_blocks_spec(s, bs.drop_last(), ks)
    }
}

/// Keeps the records that begin with `key=` for one of the keys.
pub fn wanted_blocks(input: &[u8], bs: &Vec<Span>, keys: &Vec<Vec<u8>>) -> (r: Vec<Span>)
    requires
        forall|a: int| 0 <= a < bs@.len() ==> (#[trigger] bs@[a]).start <= bs@[a].end <= input@.len(),
    ensures
        r@ == wanted_blocks_spec(input@, bs@, key_views(keys@)),
        forall|c: int| 0 <= c < r@.len() ==> (#[trigger] r@[c]).start <= r@[c].end <= input@.len(),
{
    let ghost ks = key_views(keys@);
    let mut out: Vec<Span> = Vec::new();
    let mut a: usize = 0;
    while a < bs.len()
        invariant
            a <= bs@.len(),
            ks == key_views(keys@),
            forall|c: int| 0 <= c < bs@.len() ==> (#[trigger] bs@[c]).start <= bs@[c].end <= input@.len(),
            out@ == wanted_blocks_spec(input@, bs@.take(a as int), ks),
            forall|c: int| 0 <= c < out@.len() ==> (#[trigger] out@[c]).start <= out@[c].end <= input@.len(),
        decreases bs@.len() - a,
    {
        let b = bs[a];
        proof {
            assert(bs@[a as int].start <= bs@[a as int].end <= input@.len());
        }
        let mut i: usize = 0;
        let mut found = false;
        while i < keys.len() && !found
            invariant
                i <= keys@.len(),
                ks == key_views(keys@),
                b.start <= b.end <= input@.len(),
                wanted_from(input@, b, ks, 0) == (found || wanted_from(input@, b, ks, i as int)),
            decreases keys@.len() - i,
        {
            found = begins_with_key(input, b, &keys[i]);
            i = i + 1;
        }
        proof {
            assert(bs@.take(a + 1).drop_last() =~= bs@.take(a as int));
            assert(bs@.take(a + 1).last() == b);
        }
        if found {
            out.push(b);
        }
        proof {
            assert forall|c: int| 0 <= c < out@.len() implies #[trigger] out@[c].start <= out@[c].end
                <= input@.len() by {
                if c == out@.len() - 1 && found {
                    assert(out@[c] == b);
                }
            }
        }
        a = a + 1;
    }
    proof {
        assert(bs@.take(bs@.len() as int) =~= bs@);
    }
    out
}

/// The entries of the record `b`, parsed as a document that ends where the record ends;
/// `None` where that fails or leaves part of the record unparsed.
pub open spec fn block_entries(s: Seq<u8>, b: Span) -> Option<Seq<(Span, SVal)>> {
    let t = s.subrange(0, b.end as int);
    match dict_list_spec(t, sp(t, b.start as int)) {
        Outcome::Done(es, k) => if sp(t, k) == b.end {
            Some(es)
        } else {
            None
        },
        _ => None,
    }
}

/// Parses the record `b` of `input`. The spans of the result are offsets into `input`.
pub fn parse_block(input: &[u8], b: Span) -> (r: Option<Vec<(Span, Val)>>)
    requires
        b.start <= b.end <= input@.len(),
    ensures
        match r {
            Some(es) => block_entries(input@, b) == Some(view_entries(es@)),
            None => block_entries(input@, b) is None,
        },
{
    let t = vstd::slice::slice_subrange(input, 0, b.end);
    let start = opt_space(t, b.start);
    match hash_map(t, start) {
        Parsed::Done(es, k) => {
            if opt_space(t, k) == b.end {
                Some(es)
            } else {
                None
            }
        },
        _ => None,
    }
}

/// The entries of the parsed records, in order, skipping those that failed.
pub open spec fn merged(parts: Seq<Option<Seq<(Span, SVal)>>>) -> Seq<(Span, SVal)>
    decreases parts.len(),
{
    if parts.len() == 0 {
        Seq::empty()
    } else {
        merged(parts.drop_last()) + match parts.last() {
            Some(es) => es,
            None => Seq::empty(),
        }
    }
}

pub open spec fn parts_view(parts: Seq<Option<Vec<(Span, Val)>>>) -> Seq<
    Option<Seq<(Span, SVal)>>,
> {
    Seq::new(
        parts.len(),
        |i: int|
            match parts[i] {
                Some(es) => Some(view_entries(es@)),
                None => None,
            },
    )
}

proof fn lemma_view_entries_append(a: Seq<(Span, Val)>, b: Seq<(Span, Val)>)
    ensures
        view_entries(a + b) == view_entries(a) + view_entries(b),
{
    lemma_view_entries_index(a);
    lemma_view_entries_index(b);
    lemma_view_entries_index(a + b);
    assert(view_entries(a + b) =~= view_entries(a) + view_entries(b));
}

/// Joins the entries of parsed records into one dictionary, in order; records that failed
/// to parse are left out.
pub fn merge_blocks(parts: Vec<Option<Vec<(Span, Val)>>>) -> (r: Val)
    ensures
        r@ == SVal::Dict(merged(parts_view(parts@))),
{
    let ghost orig = parts@;
    let mut parts = parts;
    let mut rev: Vec<Option<Vec<(Span, Val)>>> = Vec::new();
    while parts.len() > 0
        invariant
            parts@.len() + rev@.len() == orig.len(),
            forall|a: int| 0 <= a < parts@.len() ==> #[trigger] parts@[a] == orig[a],
            forall|a: int| 0 <= a < rev@.len() ==> #[trigger] rev@[a] == orig[orig.len() - 1 - a],
        decreases parts@.len(),
    {
        let x = parts.pop().unwrap();
        rev.push(x);
    }
    let mut out: Vec<(Span, Val)> = Vec::new();
    proof {
        assert(parts_view(orig).take(0) =~= Seq::<Option<Seq<(Span, SVal)>>>::empty());
    }
    while rev.len() > 0
        invariant
            rev@.len() <= orig.len(),
            forall|a: int| 0 <= a < rev@.len() ==> #[trigger] rev@[a] == orig[orig.len() - 1 - a],
            view_entries(out@) == merged(parts_view(orig).take(orig.len() - rev@.len())),
        decreases rev@.len(),
    {
        let ghost done = orig.len() - rev@.len();
        let x = rev.pop().unwrap();
        proof {
            assert(parts_view(orig).take(done + 1).drop_last() =~= parts_view(orig).take(done));
            assert(parts_view(orig).take(done + 1).last() == parts_view(orig)[done]);
        }
        match x {
            Some(mut es) => {
                proof {
                    lemma_view_entries_append(out@, es@);
                }
                out.append(&mut es);
            },
            None => {
                proof {
                    assert(view_entries(out@) + Seq::<(Span, SVal)>::empty() =~= view_entries(out@));
                }
            },
        }
    }
    proof {
        assert(parts_view(orig).take(orig.len() as int) =~= parts_view(orig));
    }
    Val::Dict(out)
}

/// The dictionary of the records that begin with one of the keys `ks`.
pub open spec fn cheat_root_spec(s: Seq<u8>, ks: Seq<Seq<u8>>) -> SVal {
    let ws = wanted_blocks_spec(s, blocks(s), ks);
    SVal::Dict(merged(Seq::new(ws.len(), |i: int| block_entries(s, ws[i]))))
}

/// Parses only the top-level records that begin with `key=` for one of `keys`, and joins
/// their entries in source order. Records that fail to parse are left out. Yields the
/// offset of the end of the input, and the dictionary.
pub fn cheat_root(input: &[u8], keys: &Vec<Vec<u8>>) -> (r: Result<(usize, Val), ParseError>)
    ensures
        r matches Ok((k, v)) && k == input@.len() && v@ == cheat_root_spec(input@, key_views(keys@)),
{
    let bs = split_blocks(input);
    let ws = wanted_blocks(input, &bs, keys);
    let mut parts: Vec<Option<Vec<(Span, Val)>>> = Vec::new();
    let mut i: usize = 0;
    while i < ws.len()
        invariant
            i <= ws@.len(),
            forall|c: int| 0 <= c < ws@.len() ==> (#[trigger] ws@[c]).start <= ws@[c].end <= input@.len(),
            parts@.len() == i,
            parts_view(parts@) == Seq::new(i as nat, |j: int| block_entries(input@, ws@[j])),
        decreases ws@.len() - i,
    {
        let part = parse_block(input, ws[i]);
        proof {
            let want = Seq::new((i + 1) as nat, |j: int| block_entries(input@, ws@[j]));
            let got = parts_view(parts@.push(part));
            assert forall|j: int| 0 <= j < i + 1 implies got[j] == want[j] by {
                if j < i {
                    assert(parts@.push(part)[j] == parts@[j]);
                    assert(parts_view(parts@)[j] == got[j]);
                } else {
                    assert(parts@.push(part)[j] == part);
                }
            }
            assert(got =~= want);
        }
        parts.push(part);
        i = i + 1;
    }
    Ok((input.len(), merge_blocks(parts)))
}

proof fn lemma_run_end_at(s: Seq<u8>, i: int, e: int, c: CharClass)
    requires
        0 <= i <= e <= s.len(),
        forall|j: int| i <= j < e ==> in_class(c, #[trigger] s[j]),
        e == s.len() || !in_class(c, s[e]),
    ensures
        run_end(s, i, c) == e,
    decreases e - i,
{
    if i < e {
        lemma_run_end_at(s, i + 1, e, c);
    }
}

proof fn lemma_wanted_from(s: Seq<u8>, b: Span, ks: Seq<Seq<u8>>, i: int, j: int)
    requires
        0 <= j <= i < ks.len(),
        starts_with_key(s, b, ks[i]),
    ensures
        wanted_from(s, b, ks, j),
    decreases i - j,
{
    if j < i {
        lemma_wanted_from(s, b, ks, i, j + 1);
    }
}

proof fn lemma_wanted_blocks_keep(s: Seq<u8>, bs: Seq<Span>, ks: Seq<Seq<u8>>, b: int)
    requires
        0 <= b < bs.len(),
        wanted_from(s, bs[b], ks, 0),
    ensures
        wanted_blocks_spec(s, bs, ks).contains(bs[b]),
    decreases bs.len(),
{
    let t = bs.drop_last();
    let w = wanted_blocks_spec(s, t, ks);
    if b == bs.len() - 1 {
        assert(w.push(bs.last())[w.len() as int] == bs[b]);
    } else {
        lemma_wanted_blocks_keep(s, t, ks, b);
        assert(t[b] == bs[b]);
        if wanted_from(s, bs.last(), ks, 0) {
            let a = choose|a: int| 0 <= a < w.len() && w[a] == bs[b];
            assert(w.push(bs.last())[a] == bs[b]);
        }
    }
}

proof fn lemma_merged_keeps(parts: Seq<Option<Seq<(Span, SVal)>>>, w: int, es: Seq<(Span, SVal)>, a: int)
    requires
        0 <= w < parts.len(),
        parts[w] == Some(es),
        0 <= a < es.len(),
    ensures
        merged(parts).contains(es[a]),
    decreases parts.len(),
{
    let t = parts.drop_last();
    let m = merged(t);
    let tail = match parts.last() {
        Some(x) => x,
        None => Seq::<(Span, SVal)>::empty(),
    };
    if w == parts.len() - 1 {
        assert((m + tail)[m.len() + a] == es[a]);
    } else {
        lemma_merged_keeps(t, w, es, a);
        assert(t[w] == parts[w]);
        let i = choose|i: int| 0 <= i < m.len() && m[i] == es[a];
        assert((m + tail)[i] == es[a]);
    }
}

proof fn lemma_dict_tail_prefix(s: Seq<u8>, k: int, acc: Seq<(Span, SVal)>)
    requires
        dict_tail_spec(s, k, acc) is Done,
    ensures
        match dict_tail_spec(s, k, acc) {
            Outcome::Done(es, _) => es.len() >= acc.len() && es.subrange(0, acc.len() as int) == acc,
            _ => false,
        },
    decreases s.len() - k,
{
    let m = sp(s, k);
    if 0 <= k <= s.len() && m != k {
        match entry_spec(s, m) {
            Outcome::Done(e, k2) => {
                if k < k2 <= s.len() {
                    lemma_dict_tail_prefix(s, k2, acc.push(e));
                    match dict_tail_spec(s, k2, acc.push(e)) {
                        Outcome::Done(es, _) => {
                            assert(es.subrange(0, acc.len() as int) =~= es.subrange(
                                0,
                                acc.len() + 1 as int,
                            ).subrange(0, acc.len() as int));
                            assert(acc.push(e).subrange(0, acc.len() as int) =~= acc);
                        },
                        _ => {},
                    }
                } else {
                    assert(acc.push(e).subrange(0, acc.len() as int) =~= acc);
                }
            },
            _ => {
                assert(acc.subrange(0, acc.len() as int) =~= acc);
            },
        }
    } else {
        assert(acc.subrange(0, acc.len() as int) =~= acc);
    }
}

/// The first entry of a record that begins with `key=`, where the key is a run of
/// identifier bytes and the record parses, has that key.
proof fn lemma_block_first_key(s: Seq<u8>, b: Span, k: Seq<u8>)
    requires
        k.len() > 0,
        forall|j: int| 0 <= j < k.len() ==> is_identifier_byte(#[trigger] k[j]),
        starts_with_key(s, b, k),
        block_entries(s, b) is Some,
    ensures
        match block_entries(s, b) {
            Some(es) => es.len() > 0 && text(s, es[0].0) == k,
            None => false,
        },
{
    let t = s.subrange(0, b.end as int);
    let st = b.start as int;
    let e = st + k.len();
    assert(t[st] == k[0]);
    assert(sp(t, st) == st);
    assert forall|j: int| st <= j < e implies in_class(CharClass::Identifier, #[trigger] t[j]) by {
        assert(t[j] == s.subrange(st, e)[j - st]);
        assert(k[j - st] == t[j]);
    }
    assert(t[e] == 0x3d);
    lemma_run_end_at(t, st, e, CharClass::Identifier);
    assert(key_spec(t, st) == Outcome::Done(span(st, e), e));
    match entry_spec(t, st) {
        Outcome::Done(en, k1) => {
            assert(en.0 == span(st, e));
            if st < k1 <= t.len() {
                lemma_dict_tail_prefix(t, k1, seq![en]);
                match dict_tail_spec(t, k1, seq![en]) {
                    Outcome::Done(es, _) => {
                        assert(es.subrange(0, 1)[0] == en);
                    },
                    _ => {},
                }
            }
            assert(text(s, en.0) =~= s.subrange(st, e));
        },
        _ => {},
    }
}

/// Some entry of `es` has the key `k`.
pub open spec fn has_key(s: Seq<u8>, es: Seq<(Span, SVal)>, k: Seq<u8>) -> bool {
    exists|a: int| 0 <= a < es.len() && text(s, (#[trigger] es[a]).0) == k
}

/// A record asked for is never lost: where a record begins with `key=` for a requested key
/// made of identifier bytes, and parses, that key is among the top-level keys of
/// [`cheat_root`]'s result.
pub proof fn lemma_requested_records_kept(s: Seq<u8>, ks: Seq<Seq<u8>>, i: int, b: int)
    requires
        0 <= i < ks.len(),
        ks[i].len() > 0,
        forall|j: int| 0 <= j < ks[i].len() ==> is_identifier_byte(#[trigger] ks[i][j]),
        0 <= b < blocks(s).len(),
        starts_with_key(s, blocks(s)[b], ks[i]),
        block_entries(s, blocks(s)[b]) is Some,
    ensures
        cheat_root_spec(s, ks) is Dict,
        has_key(s, cheat_root_spec(s, ks)->Dict_0, ks[i]),
{
    let bs = blocks(s);
    let bl = bs[b];
    lemma_wanted_from(s, bl, ks, i, 0);
    lemma_wanted_blocks_keep(s, bs, ks, b);
    let ws = wanted_blocks_spec(s, bs, ks);
    let w = choose|w: int| 0 <= w < ws.len() && ws[w] == bl;
    let parts = Seq::new(ws.len(), |j: int| block_entries(s, ws[j]));
    lemma_block_first_key(s, bl, ks[i]);
    let es = block_entries(s, bl)->Some_0;
    assert(parts[w] == Some(es));
    lemma_merged_keeps(parts, w, es, 0);
    let m = merged(parts);
    let a = choose|a: int| 0 <= a < m.len() && m[a] == es[0];
    assert(text(s, m[a].0) == ks[i]);
    assert(cheat_root_spec(s, ks) == SVal::Dict(m));
    assert(has_key(s, m, ks[i]));
}

} // verus!
