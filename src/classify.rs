//! Byte classes of the format and the scanners that consume runs of them.
//!
//! Each scanner's contract is the longest run of its class; they compare one byte at a
//! time, which meets the same contract as a vectorised range comparison would.
use vstd::prelude::*;

verus! {

/// The character classes that the scanners consume.
#[derive(Clone, Copy, PartialEq, Eq, Structural, Debug)]
pub enum CharClass {
    Space,
    Identifier,
    StringBody,
    NotToken,
    Digit,
    /// Any byte but the dot that separates the components of a path.
    PathComponent,
}

pub open spec fn is_space_byte(b: u8) -> bool {
    (0x01 <= b && b <= 0x20) || b == 0xff
}

pub open spec fn is_token_byte(b: u8) -> bool {
    b == 0x3d || b == 0x7b || b == 0x7d
}

pub open spec fn is_identifier_byte(b: u8) -> bool {
    0x21 <= b && b <= 0x7e && !is_token_byte(b) && b != 0x22
}

pub open spec fn is_digit_byte(b: u8) -> bool {
    0x30 <= b && b <= 0x39
}

pub open spec fn in_class(c: CharClass, b: u8) -> bool {
    match c {
        CharClass::Space => is_space_byte(b),
        CharClass::Identifier => is_identifier_byte(b),
        CharClass::StringBody => b != 0x22,
        CharClass::NotToken => !is_token_byte(b),
        CharClass::Digit => is_digit_byte(b),
        CharClass::PathComponent => b != 0x2e,
    }
}

/// The end of the longest run of bytes of class `c` that starts at `i`.
pub open spec fn run_end(s: Seq<u8>, i: int, c: CharClass) -> int
    decreases s.len() - i,
{
    if 0 <= i < s.len() && in_class(c, s[i]) {
        run_end(s, i + 1, c)
    } else {
        i
    }
}

pub proof fn lemma_run_end(s: Seq<u8>, i: int, c: CharClass)
    requires
        0 <= i <= s.len(),
    ensures
        i <= run_end(s, i, c) <= s.len(),
        forall|j: int| i <= j < run_end(s, i, c) ==> in_class(c, #[trigger] s[j]),
        run_end(s, i, c) < s.len() ==> !in_class(c, s[run_end(s, i, c)]),
    decreases s.len() - i,
{
    if i < s.len() && in_class(c, s[i]) {
        lemma_run_end(s, i + 1, c);
    }
}

pub broadcast proof fn lemma_run_end_bounds(s: Seq<u8>, i: int, c: CharClass)
    ensures
        i <= #[trigger] run_end(s, i, c),
        i <= s.len() ==> run_end(s, i, c) <= s.len(),
    decreases s.len() - i,
{
    if 0 <= i < s.len() && in_class(c, s[i]) {
        lemma_run_end_bounds(s, i + 1, c);
    }
}

pub fn in_class_exec(c: CharClass, b: u8) -> (r: bool)
    ensures
        r == in_class(c, b),
{
    match c {
        CharClass::Space => (0x01 <= b && b <= 0x20) || b == 0xff,
        CharClass::Identifier => 0x21 <= b && b <= 0x7e && b != 0x3d && b != 0x7b && b != 0x7d
            && b != 0x22,
        CharClass::StringBody => b != 0x22,
        CharClass::NotToken => !(b == 0x3d || b == 0x7b || b == 0x7d),
        CharClass::Digit => 0x30 <= b && b <= 0x39,
        CharClass::PathComponent => b != 0x2e,
    }
}

/// Consumes the longest run of bytes of class `c` from `pos`, and returns where it ends.
/// An empty run is no failure: the result is then `pos`.
pub fn take_while(input: &[u8], pos: usize, c: CharClass) -> (r: usize)
    requires
        pos <= input@.len(),
    ensures
        r == run_end(input@, pos as int, c),
{
    let mut i: usize = pos;
    while i < input.len() && in_class_exec(c, input[i])
        invariant
            pos <= i <= input@.len(),
            run_end(input@, pos as int, c) == run_end(input@, i as int, c),
        decreases input@.len() - i,
    {
        i = i + 1;
    }
    i
}

/// The run of whitespace from `pos`: where it ends.
pub fn take_simd_space(input: &[u8], pos: usize) -> (r: usize)
    requires
        pos <= input@.len(),
    ensures
        r == run_end(input@, pos as int, CharClass::Space),
{
    take_while(input, pos, CharClass::Space)
}

/// The run of identifier bytes from `pos`: where it ends.
pub fn take_simd_identifier(input: &[u8], pos: usize) -> (r: usize)
    requires
        pos <= input@.len(),
    ensures
        r == run_end(input@, pos as int, CharClass::Identifier),
{
    take_while(input, pos, CharClass::Identifier)
}

/// The run of bytes that may stand inside a string literal, from `pos`: where it ends.
pub fn take_simd_string_literal(input: &[u8], pos: usize) -> (r: usize)
    requires
        pos <= input@.len(),
    ensures
        r == run_end(input@, pos as int, CharClass::StringBody),
{
    take_while(input, pos, CharClass::StringBody)
}

/// The run of bytes other than `=`, `{` and `}` from `pos`: where it ends.
pub fn take_simd_not_token(input: &[u8], pos: usize) -> (r: usize)
    requires
        pos <= input@.len(),
    ensures
        r == run_end(input@, pos as int, CharClass::NotToken),
{
    take_while(input, pos, CharClass::NotToken)
}

} // verus!
