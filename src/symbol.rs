//! Symbols with a fixed-size byte form, as the code tree stores them.

use vstd::prelude::*;

verus! {

/// A symbol type with a fixed-size byte form: what the compressed format stores for
/// each leaf of the code tree.
pub trait BinaryCodable: Sized {
    /// The number of bytes of the fixed-size form.
    spec fn width() -> nat;

    /// The fixed-size form of `self`.
    spec fn fixed_bytes(&self) -> Seq<u8>;

    /// Every value has a form of `width()` bytes, and no two values share one.
    proof fn lemma_fixed_bytes(a: Self, b: Self)
        ensures
            a.fixed_bytes().len() == Self::width(),
            a.fixed_bytes() == b.fixed_bytes() ==> a == b,
    ;

    fn fixed_size() -> (r: usize)
        ensures
            r == Self::width(),
    ;

    fn to_fixed_bytes(&self) -> (r: Vec<u8>)
        ensures
            r@ == self.fixed_bytes(),
    ;

    /// The value whose form is `bytes`, if there is one.
    fn from_fixed_bytes(bytes: &[u8]) -> (r: Option<Self>)
        requires
            bytes@.len() == Self::width(),
        ensures
            match r {
                Some(v) => v.fixed_bytes() == bytes@,
                None => forall|v: Self| #[trigger] v.fixed_bytes() != bytes@,
            },
    ;

    /// Equality of symbols.
    fn same(&self, other: &Self) -> (r: bool)
        ensures
            r == (*self == *other),
    ;

    /// A copy of the symbol.
    fn duplicate(&self) -> (r: Self)
        ensures
            r == *self,
    ;
}

/// The four little-endian bytes of `n`.
pub open spec fn le_bytes_u32(n: u32) -> Seq<u8> {
    seq![(n & 0xff) as u8, ((n >> 8u32) & 0xff) as u8, ((n >> 16u32) & 0xff) as u8, ((n >> 24u32) & 0xff) as u8]
}

/// The number whose little-endian bytes are `b0 .. b3`.
pub open spec fn le_value_u32(b0: u8, b1: u8, b2: u8, b3: u8) -> u32 {
    (b0 as u32) | ((b1 as u32) << 8u32) | ((b2 as u32) << 16u32) | ((b3 as u32) << 24u32)
}

/// Little-endian bytes and numbers are each other's inverse.
proof fn lemma_le_u32(n: u32, b0: u8, b1: u8, b2: u8, b3: u8)
    ensures
        le_bytes_u32(le_value_u32(b0, b1, b2, b3)) == seq![b0, b1, b2, b3],
        le_value_u32(
            (n & 0xff) as u8,
            ((n >> 8u32) & 0xff) as u8,
            ((n >> 16u32) & 0xff) as u8,
            ((n >> 24u32) & 0xff) as u8,
        ) == n,
{
    let v = le_value_u32(b0, b1, b2, b3);
    assert(((v & 0xff) as u8 == b0) && (((v >> 8u32) & 0xff) as u8 == b1) && (((v >> 16u32) & 0xff)
        as u8 == b2) && (((v >> 24u32) & 0xff) as u8 == b3)) by (bit_vector)
        requires
            v == (b0 as u32) | ((b1 as u32) << 8u32) | ((b2 as u32) << 16u32) | ((b3 as u32)
                << 24u32),
    ;
    assert(le_bytes_u32(v) =~= seq![b0, b1, b2, b3]);
    assert((((n & 0xff) as u8) as u32) | (((((n >> 8u32) & 0xff) as u8) as u32) << 8u32) | (((((n
        >> 16u32) & 0xff) as u8) as u32) << 16u32) | (((((n >> 24u32) & 0xff) as u8) as u32)
        << 24u32) == n) by (bit_vector);
}

fn u32_to_le(n: u32) -> (r: Vec<u8>)
    ensures
        r@ == le_bytes_u32(n),
{
    let mut r: Vec<u8> = Vec::with_capacity(4);
    r.push((n & 0xff) as u8);
    r.push(((n >> 8) & 0xff) as u8);
    r.push(((n >> 16) & 0xff) as u8);
    r.push(((n >> 24) & 0xff) as u8);
    assert(r@ =~= le_bytes_u32(n));
    r
}

fn u32_from_le(bytes: &[u8]) -> (r: u32)
    requires
        bytes@.len() == 4,
    ensures
        le_bytes_u32(r) == bytes@,
{
    let r = (bytes[0] as u32) | ((bytes[1] as u32) << 8) | ((bytes[2] as u32) << 16) | ((
    bytes[3] as u32) << 24);
    proof {
        lemma_le_u32(r, bytes@[0], bytes@[1], bytes@[2], bytes@[3]);
        assert(bytes@ =~= seq![bytes@[0], bytes@[1], bytes@[2], bytes@[3]]);
    }
    r
}

/// Different numbers have different little-endian bytes.
proof fn lemma_le_u32_injective(a: u32, b: u32)
    ensures
        le_bytes_u32(a) == le_bytes_u32(b) ==> a == b,
{
    if le_bytes_u32(a) == le_bytes_u32(b) {
        lemma_le_u32(a, 0, 0, 0, 0);
        lemma_le_u32(b, 0, 0, 0, 0);
        assert(le_bytes_u32(a)[0] == le_bytes_u32(b)[0]);
        assert(le_bytes_u32(a)[1] == le_bytes_u32(b)[1]);
        assert(le_bytes_u32(a)[2] == le_bytes_u32(b)[2]);
        assert(le_bytes_u32(a)[3] == le_bytes_u32(b)[3]);
    }
}

impl BinaryCodable for u8 {
    open spec fn width() -> nat {
        1
    }

    open spec fn fixed_bytes(&self) -> Seq<u8> {
        seq![*self]
    }

    proof fn lemma_fixed_bytes(a: Self, b: Self) {
        if a.fixed_bytes() == b.fixed_bytes() {
            assert(a.fixed_bytes()[0] == b.fixed_bytes()[0]);
        }
    }

    fn fixed_size() -> (r: usize) {
        1
    }

    fn to_fixed_bytes(&self) -> (r: Vec<u8>) {
        let mut r: Vec<u8> = Vec::with_capacity(1);
        r.push(*self);
        assert(r@ =~= seq![*self]);
        r
    }

    fn from_fixed_bytes(bytes: &[u8]) -> (r: Option<Self>) {
        assert(bytes@ =~= seq![bytes@[0]]);
        Some(bytes[0])
    }

    fn same(&self, other: &Self) -> (r: bool) {
        *self == *other
    }

    fn duplicate(&self) -> (r: Self) {
        *self
    }
}

impl BinaryCodable for u32 {
    /// Little-endian, as the value lies in memory on common machines.
    open spec fn width() -> nat {
        4
    }

    open spec fn fixed_bytes(&self) -> Seq<u8> {
        le_bytes_u32(*self)
    }

    proof fn lemma_fixed_bytes(a: Self, b: Self) {
        lemma_le_u32_injective(a, b);
    }

    fn fixed_size() -> (r: usize) {
        4
    }

    fn to_fixed_bytes(&self) -> (r: Vec<u8>) {
        u32_to_le(*self)
    }

    fn from_fixed_bytes(bytes: &[u8]) -> (r: Option<Self>) {
        Some(u32_from_le(bytes))
    }

    fn same(&self, other: &Self) -> (r: bool) {
        *self == *other
    }

    fn duplicate(&self) -> (r: Self) {
        *self
    }
}

/// A Unicode scalar value: at most 0x10FFFF, and not a surrogate.
pub open spec fn is_scalar_value(n: u32) -> bool {
    n <= 0xD7FF || (0xE000 <= n && n <= 0x10FFFF)
}

/// Relies on `char::from_u32`: `Some` exactly for the Unicode scalar values, holding the
/// character with that number.
pub assume_specification[ char::from_u32 ](i: u32) -> (r: Option<char>)
    ensures
        r == (if is_scalar_value(i) { Some(i as char) } else { None::<char> }),
;

impl BinaryCodable for char {
    /// The scalar value as four little-endian bytes.
    open spec fn width() -> nat {
        4
    }

    open spec fn fixed_bytes(&self) -> Seq<u8> {
        le_bytes_u32(*self as u32)
    }

    proof fn lemma_fixed_bytes(a: Self, b: Self) {
        lemma_le_u32_injective(a as u32, b as u32);
        vstd::utf8::char_u32_cast(a, a as u32);
        vstd::utf8::char_u32_cast(b, b as u32);
    }

    fn fixed_size() -> (r: usize) {
        4
    }

    fn to_fixed_bytes(&self) -> (r: Vec<u8>) {
        u32_to_le(*self as u32)
    }

    fn from_fixed_bytes(bytes: &[u8]) -> (r: Option<Self>) {
        let n = u32_from_le(bytes);
        let r = char::from_u32(n);
        proof {
            assert forall|v: char| #[trigger] v.fixed_bytes() != bytes@ || is_scalar_value(n) by {
                if v.fixed_bytes() == bytes@ {
                    lemma_le_u32_injective(v as u32, n);
                    vstd::utf8::char_is_scalar(v);
                }
            }
        }
        r
    }

    fn same(&self, other: &Self) -> (r: bool) {
        *self == *other
    }

    fn duplicate(&self) -> (r: Self) {
        *self
    }
}

} // verus!
