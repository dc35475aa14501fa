//! Classes of bytes, and comparison of names without regard to ASCII case.

use vstd::prelude::*;
use vstd::string::StringSliceAdditionalSpecFns;

verus! {

/// Tab, line feed, form feed, carriage return or space.
pub open spec fn is_whitespace(b: u8) -> bool {
    b == 0x09 || b == 0x0A || b == 0x0C || b == 0x0D || b == 0x20
}

/// An ASCII letter.
pub open spec fn is_alpha(b: u8) -> bool {
    (0x41 <= b && b <= 0x5A) || (0x61 <= b && b <= 0x7A)
}

/// The byte with an ASCII upper case letter turned to lower case.
pub open spec fn lower(b: u8) -> u8 {
    if 0x41 <= b && b <= 0x5A {
        (b + 0x20) as u8
    } else {
        b
    }
}

/// The bytes with every ASCII upper case letter turned to lower case.
pub open spec fn lower_seq(s: Seq<u8>) -> Seq<u8> {
    Seq::new(s.len(), |i: int| lower(s[i]))
}

/// Whether a byte ends a tag name: whitespace, `/` or `>`.
pub open spec fn ends_name(b: u8) -> bool {
    is_whitespace(b) || b == 0x2F || b == 0x3E
}

#[verifier::when_used_as_spec(is_whitespace)]
pub fn is_whitespace_byte(b: u8) -> (r: bool)
    ensures
        r == is_whitespace(b),
{
    b == 0x09 || b == 0x0A || b == 0x0C || b == 0x0D || b == 0x20
}

#[verifier::when_used_as_spec(is_alpha)]
pub fn is_alpha_byte(b: u8) -> (r: bool)
    ensures
        r == is_alpha(b),
{
    (0x41 <= b && b <= 0x5A) || (0x61 <= b && b <= 0x7A)
}

#[verifier::when_used_as_spec(lower)]
pub fn lower_byte(b: u8) -> (r: u8)
    ensures
        r == lower(b),
{
    if 0x41 <= b && b <= 0x5A {
        b + 0x20
    } else {
        b
    }
}

#[verifier::when_used_as_spec(ends_name)]
pub fn ends_name_byte(b: u8) -> (r: bool)
    ensures
        r == ends_name(b),
{
    is_whitespace_byte(b) || b == 0x2F || b == 0x3E
}

/// A copy of `bytes[from..to]` with ASCII upper case letters turned to lower
/// case.
pub fn lowered(bytes: &[u8], from: usize, to: usize) -> (r: Vec<u8>)
    requires
        from <= to <= bytes@.len(),
    ensures
        r@ == lower_seq(bytes@.subrange(from as int, to as int)),
{
    let mut out: Vec<u8> = Vec::new();
    let mut i: usize = from;
    while i < to
        invariant
            from <= i <= to <= bytes@.len(),
            out@ == lower_seq(bytes@.subrange(from as int, i as int)),
        decreases to - i,
    {
        out.push(lower_byte(bytes[i]));
        i = i + 1;
        assert(out@ =~= lower_seq(bytes@.subrange(from as int, i as int)));
    }
    out
}

/// A copy of `bytes[from..to]`.
pub fn copied(bytes: &[u8], from: usize, to: usize) -> (r: Vec<u8>)
    requires
        from <= to <= bytes@.len(),
    ensures
        r@ == bytes@.subrange(from as int, to as int),
{
    let mut out: Vec<u8> = Vec::new();
    let mut i: usize = from;
    while i < to
        invariant
            from <= i <= to <= bytes@.len(),
            out@ == bytes@.subrange(from as int, i as int),
        decreases to - i,
    {
        out.push(bytes[i]);
        i = i + 1;
        assert(out@ =~= bytes@.subrange(from as int, i as int));
    }
    out
}

/// Whether two byte strings are equal.
pub fn same_bytes(a: &[u8], b: &[u8]) -> (r: bool)
    ensures
        r == (a@ == b@),
{
    if a.len() != b.len() {
        return false;
    }
    let mut i: usize = 0;
    while i < a.len()
        invariant
            a@.len() == b@.len(),
            i <= a@.len(),
            a@.subrange(0, i as int) == b@.subrange(0, i as int),
        decreases a@.len() - i,
    {
        if a[i] != b[i] {
            assert(a@[i as int] != b@[i as int]);
            return false;
        }
        i = i + 1;
        assert(a@.subrange(0, i as int) =~= a@.subrange(0, i - 1).push(a@[i - 1]));
        assert(b@.subrange(0, i as int) =~= b@.subrange(0, i - 1).push(b@[i - 1]));
    }
    assert(a@ =~= a@.subrange(0, i as int));
    assert(b@ =~= b@.subrange(0, i as int));
    true
}

/// Whether two byte strings are equal once ASCII upper case is turned to lower
/// case.
pub fn same_ignoring_case(a: &[u8], b: &[u8]) -> (r: bool)
    ensures
        r == (lower_seq(a@) == lower_seq(b@)),
{
    if a.len() != b.len() {
        assert(lower_seq(a@).len() != lower_seq(b@).len());
        return false;
    }
    let mut i: usize = 0;
    while i < a.len()
        invariant
            a@.len() == b@.len(),
            i <= a@.len(),
            forall|j: int| 0 <= j < i ==> lower(a@[j]) == lower(b@[j]),
        decreases a@.len() - i,
    {
        if lower_byte(a[i]) != lower_byte(b[i]) {
            assert(lower_seq(a@)[i as int] != lower_seq(b@)[i as int]);
            return false;
        }
        i = i + 1;
    }
    assert(lower_seq(a@) =~= lower_seq(b@));
    true
}

/// Whether the bytes are those of the text, which is written in lower case,
/// once ASCII upper case in the bytes is turned to lower case.
pub fn is_name(bytes: &[u8], name: &str) -> (r: bool)
    ensures
        r == (lower_seq(bytes@) == name.spec_bytes()),
{
    let lowered_bytes = lowered(bytes, 0, bytes.len());
    assert(bytes@.subrange(0, bytes@.len() as int) =~= bytes@);
    same_bytes(lowered_bytes.as_slice(), name.as_bytes())
}

} // verus!
