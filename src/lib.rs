//! A lossless compressor: a frequency-weighted binary code tree over fixed-size symbols,
//! a bit-packed code stream, and one self-describing byte blob holding both.

use vstd::prelude::*;

pub mod bitvec;
pub mod coding;
pub mod frequency;
pub mod symbol;
pub mod tree;

use vstd::arithmetic::power2::{lemma2_to64_rest, lemma_pow2_strictly_increases, lemma_pow2_unfold};

use crate::bitvec::{
    lemma_parse_serialized_bits, lemma_unpack_pack, lemma_unpack_prefix, pack, parse_bits,
    serialized_bits, BitVec, BitView,
};
use crate::coding::{
    bits_value, code_bits, code_tree, count_bits, decoded_stored, lemma_bits_value_bound,
    lemma_code_bits_leaf, lemma_code_tree, lemma_decode_encoded, lemma_decode_prefix,
    stored_bits, DecodingTree, EncodingTree,
};
use crate::frequency::frequencies;
use crate::symbol::BinaryCodable;
use crate::tree::{
    lemma_height_below_leaves, lemma_parse_len, Node, lemma_parse_serialized, lemma_parse_truncated, parse_node, DecodingError,
    NodeDeserializationError,
};

verus! {

/// Why a byte blob could not be decompressed.
#[derive(Debug, Clone, Copy, PartialEq, Eq, Structural)]
pub enum DecompressionError {
    /// The bytes after the tree are not a bit buffer: no padding byte, a padding over
    /// 7, or a padding that is not 0 with no data after it.
    InvalidBitCode,
    /// The blob does not start with a code tree.
    InvalidDecodingTree(NodeDeserializationError),
    /// The bit buffer is not a code sequence of the tree.
    BitCodeDecodingError(DecodingError),
}

/// The compressed form of `s`: the serialized code tree, then the serialized bit buffer
/// of the coded symbols (for a tree of a single leaf, of the number of symbols);
/// nothing at all for an empty `s`.
pub open spec fn compressed<U: BinaryCodable>(s: Seq<U>) -> Seq<u8> {
    match code_tree(s) {
        None => Seq::empty(),
        Some(t) => t.serialized() + serialized_bits(stored_bits(t, s)),
    }
}

/// What `b` decompresses to.
pub open spec fn decompressed<U: BinaryCodable>(b: Seq<u8>) -> Result<Seq<U>, DecompressionError> {
    if b.len() == 0 {
        Ok(Seq::empty())
    } else {
        match parse_node::<U>(b) {
            Err(e) => Err(DecompressionError::InvalidDecodingTree(e)),
            Ok((t, n)) => match parse_bits(b.skip(n as int)) {
                Err(_) => Err(DecompressionError::InvalidBitCode),
                Ok(bits) => match decoded_stored(t, bits) {
                    Err(e) => Err(DecompressionError::BitCodeDecodingError(e)),
                    Ok(s) => Ok(s),
                },
            },
        }
    }
}

/// The size of a compressed blob with the given tree and bit buffer:
/// `(1 + symbol_size) * leaves + parents` for the tree and `1 + bit_bytes` for the
/// buffer; 0 when that does not fit in `usize`.
fn capacity_hint(symbol_size: usize, leaves: usize, parents: usize, bit_bytes: usize) -> (r: usize)
    ensures
        (1 + symbol_size) * leaves + parents + 1 + bit_bytes <= usize::MAX ==> r == (1
            + symbol_size) * leaves + parents + 1 + bit_bytes,
        (1 + symbol_size) * leaves + parents + 1 + bit_bytes > usize::MAX ==> r == 0,
{
    proof {
        assert((1 + symbol_size) * leaves >= 0) by (nonlinear_arith);
    }
    let leaf_bytes = if leaves == 0 {
        Some(0usize)
    } else {
        match symbol_size.checked_add(1) {
            Some(per_leaf) => per_leaf.checked_mul(leaves),
            None => None,
        }
    };
    match leaf_bytes {
        Some(leaf_bytes) => match leaf_bytes.checked_add(parents) {
            Some(tree_bytes) => match tree_bytes.checked_add(1) {
                Some(with_padding) => match with_padding.checked_add(bit_bytes) {
                    Some(total) => total,
                    None => 0,
                },
                None => 0,
            },
            None => 0,
        },
        None => {
            proof {
                if symbol_size == usize::MAX {
                    assert((1 + symbol_size) * leaves >= 1 + symbol_size) by (nonlinear_arith)
                        requires leaves >= 1;
                }
            }
            0
        },
    }
}

/// Appends the 64 bits of `n`, most significant first.
fn append_count(bits: &mut BitVec, n: u64)
    requires
        old(bits).wf(),
        old(bits)@.len() + 72 <= usize::MAX,
    ensures
        final(bits).wf(),
        final(bits)@ == old(bits)@ + count_bits(n),
{
    let mut k: usize = 0;
    while k < 64
        invariant
            k <= 64,
            bits.wf(),
            bits@ == old(bits)@ + count_bits(n).take(k as int),
            old(bits)@.len() + 72 <= usize::MAX,
        decreases 64 - k,
    {
        bits.append_bit((n >> (63 - k as u64)) & 1 == 1);
        k += 1;
        assert(bits@ =~= old(bits)@ + count_bits(n).take(k as int));
    }
    assert(count_bits(n).take(64) =~= count_bits(n));
}

/// The number written by exactly 64 bits, most significant first.
fn read_count(bitcode: &BitView) -> (r: Option<u64>)
    requires
        bitcode.wf(),
    ensures
        r == if bitcode@.len() == 64 {
            Some(bits_value(bitcode@) as u64)
        } else {
            None::<u64>
        },
        r matches Some(n) ==> n == bits_value(bitcode@),
{
    if bitcode.len_bits() != 64 {
        return None;
    }
    let ghost bits = bitcode@;
    let mut count: u64 = 0;
    let mut i: usize = 0;
    while i < 64
        invariant
            i <= 64,
            bitcode.wf(),
            bits == bitcode@,
            bits.len() == 64,
            count == bits_value(bits.take(i as int)),
        decreases 64 - i,
    {
        proof {
            lemma_bits_value_bound(bits.take(i as int));
            lemma_pow2_unfold((i + 1) as nat);
            if i + 1 < 64 {
                lemma_pow2_strictly_increases((i + 1) as nat, 64);
            }
            lemma2_to64_rest();
            assert(bits.take(i + 1).drop_last() =~= bits.take(i as int));
        }
        let b = bitcode.bit_at(i);
        count = count * 2 + if b { 1 } else { 0 };
        i += 1;
    }
    assert(bits.take(64) =~= bits);
    Some(count)
}

/// `n` copies of `value`.
fn repeat<U: BinaryCodable>(value: &U, n: u64) -> (r: Vec<U>)
    ensures
        r@ == Seq::new(n as nat, |j: int| *value),
{
    let mut out: Vec<U> = Vec::new();
    let mut k: u64 = 0;
    while k < n
        invariant
            k <= n,
            out@ == Seq::new(k as nat, |j: int| *value),
        decreases n - k,
    {
        out.push(value.duplicate());
        k += 1;
        assert(out@ =~= Seq::new(k as nat, |j: int| *value));
    }
    out
}

/// Compresses `input` into one byte blob. A code is shorter than the number of
/// distinct symbols, so the coded bits fit in a `usize` when the bound below holds.
pub fn compress<U: BinaryCodable>(input: &[U]) -> (r: Vec<u8>)
    requires
        input@.len() * frequencies(input@).len() + 64 <= usize::MAX,
    ensures
        r@ == compressed(input@),
{
    let n = input.len();
    let (encoder, mut bitcode) = EncodingTree::encode(input);
    proof {
        lemma_code_tree(input@);
        if let Some(Node::Parent { left, right, .. }) = code_tree(input@) {
            lemma_height_below_leaves(*left);
            lemma_height_below_leaves(*right);
        }
        if let Some(t) = code_tree(input@) {
            if t is Leaf {
                lemma_code_bits_leaf(t, input@);
            }
        }
    }
    if encoder.leaf_node_count() == 1 {
        // One leaf codes its symbol with no bits: store how many there are instead.
        append_count(&mut bitcode, n as u64);
        assert(bitcode@ =~= count_bits(n as u64));
    }
    let hint = capacity_hint(
        U::fixed_size(),
        encoder.leaf_node_count(),
        encoder.parent_node_count(),
        bitcode.least_len_bytes(),
    );
    match encoder.into_decoder() {
        None => Vec::new(),
        Some(decoder) => {
            let mut res: Vec<u8> = Vec::with_capacity(hint);
            decoder.serialize(&mut res);
            let mut bits = bitcode.serialize();
            res.append(&mut bits);
            res
        },
    }
}

/// Decompresses a blob written by `compress`.
pub fn decompress<U: BinaryCodable>(input: &[u8]) -> (r: Result<Vec<U>, DecompressionError>)
    requires
        input@.len() * 8 <= usize::MAX,
    ensures
        match (r, decompressed::<U>(input@)) {
            (Ok(v), Ok(s)) => v@ == s,
            (Err(e), Err(e2)) => e == e2,
            _ => false,
        },
{
    if input.len() == 0 {
        return Ok(Vec::new());
    }
    let (decoder, read) = match DecodingTree::<U>::deserialize(input) {
        Ok(parsed) => parsed,
        Err(e) => return Err(DecompressionError::InvalidDecodingTree(e)),
    };
    proof {
        lemma_parse_len::<U>(input@);
    }
    let rest = vstd::slice::slice_subrange(input, read, input.len());
    assert(rest@ =~= input@.skip(read as int));
    let bitcode = match BitVec::deserialize(rest) {
        Ok(b) => b,
        Err(_) => return Err(DecompressionError::InvalidBitCode),
    };
    match decoder.single_leaf_value() {
        Some(value) => match read_count(&bitcode.as_bit_view()) {
            // A single leaf: the bits are the number of its occurrences.
            Some(n) => Ok(repeat(&value, n)),
            None => Err(DecompressionError::BitCodeDecodingError(DecodingError::InvalidEncoding)),
        },
        None => match decoder.decode(&bitcode.as_bit_view()) {
            Ok(v) => Ok(v),
            Err(e) => Err(DecompressionError::BitCodeDecodingError(e)),
        },
    }
}

/// Decompressing the compressed form of a sequence gives back the sequence, for every
/// sequence that fits in memory, the empty one included.
pub proof fn lemma_round_trip<U: BinaryCodable>(s: Seq<U>)
    requires
        s.len() <= usize::MAX,
    ensures
        decompressed::<U>(compressed(s)) == Ok::<Seq<U>, DecompressionError>(s),
{
    lemma_code_tree(s);
    match code_tree(s) {
        None => {
            assert(s =~= Seq::<U>::empty());
        },
        Some(t) => {
            let bits = stored_bits(t, s);
            let sb = serialized_bits(bits);
            let b = t.serialized() + sb;
            let n = t.serialized().len();
            lemma_parse_serialized(t, sb);
            assert(parse_node::<U>(b) == Ok::<(tree::Node<U>, nat), NodeDeserializationError>(
                (t.shape(), n),
            ));
            assert(b.skip(n as int) =~= sb);
            lemma_parse_serialized_bits(bits);
            assert forall|i: int| 0 <= i < s.len() implies t.holds(#[trigger] s[i]) by {
                assert(s.contains(s[i]));
            }
            lemma_decode_encoded(t, s);
            assert(decoded_stored(t.shape(), bits) == Ok::<Seq<U>, DecodingError>(s));
            assert(b.len() > 0);
        },
    }
}

/// Compressing equal sequences gives byte-identical blobs: the tree shape and the bit
/// packing depend on the symbols alone.
pub proof fn lemma_deterministic<U: BinaryCodable>(a: Seq<U>, b: Seq<U>)
    requires
        a == b,
    ensures
        compressed(a) == compressed(b),
{
}

/// Cutting bytes off the end of a compressed blob never yields a wrong decoding: the
/// result is an error, or a prefix of the input symbols.
pub proof fn lemma_truncation<U: BinaryCodable>(s: Seq<U>, k: int)
    requires
        s.len() <= usize::MAX,
        0 <= k <= compressed(s).len(),
    ensures
        decompressed::<U>(compressed(s).take(k)) matches Ok(x) ==> x.len() <= s.len() && x
            == s.take(x.len() as int),
{
    lemma_code_tree(s);
    let c = compressed(s).take(k);
    if k == 0 {
        assert(s.take(0) =~= Seq::<U>::empty());
    } else if let Some(t) = code_tree(s) {
        let bits = stored_bits(t, s);
        let sb = serialized_bits(bits);
        let ts = t.serialized();
        let n = ts.len();
        if k < n {
            assert(c =~= ts.take(k));
            lemma_parse_truncated(t, k);
        } else {
            let m = k - n;
            assert(c =~= ts + sb.take(m));
            lemma_parse_serialized(t, sb.take(m));
            assert(c.skip(n as int) =~= sb.take(m));
            if m >= 1 {
                let p = pack(bits);
                let pad = sb[0];
                assert(sb.take(m).skip(1) =~= p.take(m - 1));
                lemma_unpack_pack(bits);
                let got = if m == 1 {
                    Seq::<bool>::empty()
                } else {
                    unpack_of(p, pad, m - 1)
                };
                if m - 1 >= 1 {
                    lemma_unpack_prefix(p, pad, m - 1);
                } else {
                    assert(got =~= bits.take(0));
                }
                assert forall|i: int| 0 <= i < s.len() implies t.holds(#[trigger] s[i]) by {
                    assert(s.contains(s[i]));
                }
                lemma_decode_prefix(t, s, got.len() as int);
                assert(got =~= bits.take(got.len() as int));
            }
        }
    }
}

/// The bits held by the first `j` bytes of `p` under `pad` padding bits.
spec fn unpack_of(p: Seq<u8>, pad: u8, j: int) -> Seq<bool> {
    crate::bitvec::unpack(p.take(j), pad)
}

} // verus!
