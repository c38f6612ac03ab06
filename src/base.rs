//! The 2-bit nucleotide codec: A=0, C=1, G=2, T=3.
use vstd::prelude::*;

verus! {

/// A base in its 2-bit form.
pub type Base = u64;

pub const A: Base = 0;

pub const C: Base = 1;

pub const G: Base = 2;

pub const T: Base = 3;

/// What the unchecked byte encoder returns for a byte outside `ACGTacgt`.
pub const INVALID_BASE: Base = 0xFFFF_FFFF_FFFF_FFFF;

/// `c` is one of `ACGTacgt`.
pub open spec fn is_nuc_byte(c: u8) -> bool {
    c == 65u8 || c == 97u8 || c == 67u8 || c == 99u8 || c == 71u8 || c == 103u8 || c == 84u8
        || c == 116u8
}

/// The 2-bit code of a byte; bytes outside `ACGTacgt` get the sentinel.
pub open spec fn byte_code(c: u8) -> Base {
    if c == 65u8 || c == 97u8 {
        A
    } else if c == 67u8 || c == 99u8 {
        C
    } else if c == 71u8 || c == 103u8 {
        G
    } else if c == 84u8 || c == 116u8 {
        T
    } else {
        INVALID_BASE
    }
}

/// `c` is one of `ACGTacgt`.
pub open spec fn is_nuc_char(c: char) -> bool {
    c == 'A' || c == 'a' || c == 'C' || c == 'c' || c == 'G' || c == 'g' || c == 'T' || c == 't'
}

/// The 2-bit code of a nucleotide character.
pub open spec fn char_code(c: char) -> Base {
    if c == 'A' || c == 'a' {
        A
    } else if c == 'C' || c == 'c' {
        C
    } else if c == 'G' || c == 'g' {
        G
    } else if c == 'T' || c == 't' {
        T
    } else {
        INVALID_BASE
    }
}

/// The upper-case letter of a 2-bit code.
pub open spec fn upper_byte(b: Base) -> u8 {
    if b == A {
        65u8
    } else if b == C {
        67u8
    } else if b == G {
        71u8
    } else {
        84u8
    }
}

/// The lower-case letter of a 2-bit code.
pub open spec fn lower_char(b: Base) -> char {
    if b == A {
        'a'
    } else if b == C {
        'c'
    } else if b == G {
        'g'
    } else {
        't'
    }
}

/// The upper-case form of a nucleotide byte.
pub open spec fn to_upper_nuc(c: u8) -> u8 {
    if 97u8 <= c && c <= 122u8 {
        (c - 32) as u8
    } else {
        c
    }
}

/// The 2-bit codes of a byte string, invalid bytes mapped to the sentinel.
pub open spec fn byte_codes(s: Seq<u8>) -> Seq<Base> {
    s.map_values(|c: u8| byte_code(c))
}

/// Every byte is one of `ACGTacgt`.
pub open spec fn all_nuc_bytes(s: Seq<u8>) -> bool {
    forall|i: int| 0 <= i < s.len() ==> is_nuc_byte(#[trigger] s[i])
}

/// Relies on `String::push`: appends one character.
#[verifier::external_body]
pub(crate) fn push_char(s: &mut String, c: char)
    ensures
        final(s)@ == old(s)@.push(c),
{
    s.push(c)
}

/// Encodes a nucleotide character; any other character is a caller error.
pub fn encode_binary(c: char) -> (r: Base)
    requires
        is_nuc_char(c),
    ensures
        r == char_code(c),
        r < 4,
{
    match c {
        'A' | 'a' => A,
        'C' | 'c' => C,
        'G' | 'g' => G,
        _ => T,
    }
}

/// Encodes a nucleotide byte; any other byte yields `INVALID_BASE`.
pub fn encode_binary_u8(c: u8) -> (r: Base)
    ensures
        r == byte_code(c),
        is_nuc_byte(c) <==> r < 4,
{
    match c {
        65 | 97 => A,
        67 | 99 => C,
        71 | 103 => G,
        84 | 116 => T,
        _ => INVALID_BASE,
    }
}

/// Encodes the complement of a nucleotide byte; any other byte yields `INVALID_BASE`.
pub fn encode_complement_binary_u8(c: u8) -> (r: Base)
    ensures
        is_nuc_byte(c) ==> r == 3 - byte_code(c),
        !is_nuc_byte(c) ==> r == INVALID_BASE,
{
    match c {
        65 | 97 => T,
        67 | 99 => G,
        71 | 103 => C,
        84 | 116 => A,
        _ => INVALID_BASE,
    }
}

/// Encodes the complement of a nucleotide character; any other character is a caller error.
pub fn encode_complement_binary(c: char) -> (r: Base)
    requires
        is_nuc_char(c),
    ensures
        r == 3 - char_code(c),
{
    match c {
        'A' | 'a' => T,
        'C' | 'c' => G,
        'G' | 'g' => C,
        _ => A,
    }
}

/// The complement of a base: `3 - b`.
pub fn complement_base(b: Base) -> (r: Base)
    requires
        b < 4,
    ensures
        r == 3 - b,
{
    3 - b
}

/// Whether `b` is a 2-bit base code.
pub fn is_valid_nuc(b: Base) -> (r: bool)
    ensures
        r == (b < 4),
{
    b < 4
}

} // verus!
