//! Bit buffers: bits packed into bytes, most significant bit first, with the count
//! of unused bits in the last byte, and their wire form.

use vstd::prelude::*;

verus! {

/// Bit `k` of byte `b`, counting from the most significant bit (`k == 0`).
pub open spec fn byte_bit(b: u8, k: u8) -> bool {
    (b >> (7u8 - k) as u8) & 1u8 == 1u8
}

/// The low `padding` bits of `b` are clear.
pub open spec fn padding_clear(b: u8, padding: u8) -> bool {
    ((b >> padding) << padding) as u8 == b
}

/// The bits held by `bytes`, most significant first, leaving out the last `padding` bits.
pub open spec fn unpack(bytes: Seq<u8>, padding: u8) -> Seq<bool> {
    Seq::new(
        (bytes.len() * 8 - padding) as nat,
        |i: int| byte_bit(bytes[i / 8], (i % 8) as u8),
    )
}

/// Number of unused low bits in the last byte that holds `n` bits.
pub open spec fn padding_for(n: nat) -> u8 {
    ((8 - n % 8) % 8) as u8
}

/// Number of bytes needed to hold `bit_count` bits.
pub fn least_bytes_repr_for_bits(bit_count: usize) -> (r: usize)
    ensures
        r == (bit_count as int + 7) / 8,
{
    bit_count / 8 + if bit_count % 8 != 0 { 1 } else { 0 }
}

/// An append-only sequence of bits stored in bytes, most significant bit first.
#[derive(Debug, PartialEq, Eq)]
pub struct BitVec {
    /// The bytes that hold the bits.
    raw_data: Vec<u8>,
    /// How many low bits of the last byte are padding; padding bits are kept clear.
    last_byte_padding: u8,
}

impl View for BitVec {
    type V = Seq<bool>;

    closed spec fn view(&self) -> Seq<bool> {
        unpack(self.raw_data@, self.last_byte_padding)
    }
}

/// A fresh byte holding one bit at the top.
proof fn lemma_new_byte(x: u8)
    requires
        x <= 1,
    ensures
        byte_bit((x << 7u8) as u8, 0) == (x == 1),
        padding_clear((x << 7u8) as u8, 7),
{
    assert(byte_bit((x << 7u8) as u8, 0) == (x == 1)) by (bit_vector)
        requires x <= 1;
    assert(padding_clear((x << 7u8) as u8, 7)) by (bit_vector)
        requires x <= 1;
}

/// Writing a bit into the first padding bit of a byte.
proof fn lemma_set_bit(b: u8, p: u8, x: u8, k: u8)
    requires
        1 <= p <= 7,
        x <= 1,
        k < 8,
        padding_clear(b, p),
    ensures
        padding_clear((b | (x << (p - 1) as u8)) as u8, (p - 1) as u8),
        k + p < 8 ==> byte_bit((b | (x << (p - 1) as u8)) as u8, k) == byte_bit(b, k),
        k + p == 8 ==> byte_bit((b | (x << (p - 1) as u8)) as u8, k) == (x == 1),
{
    assert(padding_clear((b | (x << (p - 1) as u8)) as u8, (p - 1) as u8)) by (bit_vector)
        requires 1 <= p <= 7, x <= 1, ((b >> p) << p) as u8 == b;
    assert(k + p < 8 ==> byte_bit((b | (x << (p - 1) as u8)) as u8, k) == byte_bit(b, k)) by (bit_vector)
        requires 1 <= p <= 7, x <= 1, k < 8, ((b >> p) << p) as u8 == b;
    assert(k + p == 8 ==> byte_bit((b | (x << (p - 1) as u8)) as u8, k) == (x == 1)) by (bit_vector)
        requires 1 <= p <= 7, x <= 1, k < 8, ((b >> p) << p) as u8 == b;
}


/// 1 where bit `i` of `bits` is set, else 0 (also 0 past the end).
pub open spec fn bit_value(bits: Seq<bool>, i: int) -> u8 {
    if 0 <= i < bits.len() && bits[i] { 1 } else { 0 }
}

/// Byte `j` of the packed form of `bits`.
pub open spec fn packed_byte(bits: Seq<bool>, j: int) -> u8 {
    (bit_value(bits, 8 * j) * 128 + bit_value(bits, 8 * j + 1) * 64 + bit_value(bits, 8 * j + 2) * 32
        + bit_value(bits, 8 * j + 3) * 16 + bit_value(bits, 8 * j + 4) * 8 + bit_value(
        bits,
        8 * j + 5,
    ) * 4 + bit_value(bits, 8 * j + 6) * 2 + bit_value(bits, 8 * j + 7)) as u8
}

/// `bits` packed into bytes, most significant bit first, with the padding bits clear.
pub open spec fn pack(bits: Seq<bool>) -> Seq<u8> {
    Seq::new(((bits.len() + 7) / 8) as nat, |j: int| packed_byte(bits, j))
}

/// The wire form of a bit sequence: the padding count, then the packed bytes.
pub open spec fn serialized_bits(bits: Seq<bool>) -> Seq<u8> {
    seq![padding_for(bits.len())] + pack(bits)
}

/// Why a byte string is not the wire form of a bit sequence.
#[derive(Debug, Clone, Copy, PartialEq, Eq, Structural)]
pub enum BitVecDeserializationError {
    /// The input holds no padding byte.
    MissingPadding,
    /// The padding byte is over 7, or is not 0 while no data byte follows it.
    InvalidPadding(u8),
}

/// What the wire form `input` holds. An empty buffer has padding 0, so a lone padding
/// byte must be 0.
pub open spec fn parse_bits(input: Seq<u8>) -> Result<Seq<bool>, BitVecDeserializationError> {
    if input.len() == 0 {
        Err(BitVecDeserializationError::MissingPadding)
    } else if input[0] >= 8 || (input.len() == 1 && input[0] != 0) {
        Err(BitVecDeserializationError::InvalidPadding(input[0]))
    } else {
        Ok(unpack(input.skip(1), input[0]))
    }
}

/// A byte whose low padding bits are clear is the sum of its other bits.
proof fn lemma_byte_from_bits(b: u8, p: u8, x0: u8, x1: u8, x2: u8, x3: u8, x4: u8, x5: u8, x6: u8, x7: u8)
    requires
        p < 8,
        padding_clear(b, p),
        x0 == (if 0 + p < 8 && byte_bit(b, 0) { 1u8 } else { 0u8 }),
        x1 == (if 1 + p < 8 && byte_bit(b, 1) { 1u8 } else { 0u8 }),
        x2 == (if 2 + p < 8 && byte_bit(b, 2) { 1u8 } else { 0u8 }),
        x3 == (if 3 + p < 8 && byte_bit(b, 3) { 1u8 } else { 0u8 }),
        x4 == (if 4 + p < 8 && byte_bit(b, 4) { 1u8 } else { 0u8 }),
        x5 == (if 5 + p < 8 && byte_bit(b, 5) { 1u8 } else { 0u8 }),
        x6 == (if 6 + p < 8 && byte_bit(b, 6) { 1u8 } else { 0u8 }),
        x7 == (if 7 + p < 8 && byte_bit(b, 7) { 1u8 } else { 0u8 }),
    ensures
        b == (x0 * 128 + x1 * 64 + x2 * 32 + x3 * 16 + x4 * 8 + x5 * 4 + x6 * 2 + x7) as u8,
{
    assert(b == (x0 * 128 + x1 * 64 + x2 * 32 + x3 * 16 + x4 * 8 + x5 * 4 + x6 * 2 + x7) as u8)
        by (bit_vector)
        requires
            p < 8,
            ((b >> p) << p) as u8 == b,
            x0 == (if 0 + p < 8 && (b >> 7u8) & 1u8 == 1u8 { 1u8 } else { 0u8 }),
            x1 == (if 1 + p < 8 && (b >> 6u8) & 1u8 == 1u8 { 1u8 } else { 0u8 }),
            x2 == (if 2 + p < 8 && (b >> 5u8) & 1u8 == 1u8 { 1u8 } else { 0u8 }),
            x3 == (if 3 + p < 8 && (b >> 4u8) & 1u8 == 1u8 { 1u8 } else { 0u8 }),
            x4 == (if 4 + p < 8 && (b >> 3u8) & 1u8 == 1u8 { 1u8 } else { 0u8 }),
            x5 == (if 5 + p < 8 && (b >> 2u8) & 1u8 == 1u8 { 1u8 } else { 0u8 }),
            x6 == (if 6 + p < 8 && (b >> 1u8) & 1u8 == 1u8 { 1u8 } else { 0u8 }),
            x7 == (if 7 + p < 8 && (b >> 0u8) & 1u8 == 1u8 { 1u8 } else { 0u8 }),
    ;
}

/// The bits of a byte built from eight bits.
proof fn lemma_bits_of_byte(x0: u8, x1: u8, x2: u8, x3: u8, x4: u8, x5: u8, x6: u8, x7: u8)
    requires
        x0 <= 1, x1 <= 1, x2 <= 1, x3 <= 1, x4 <= 1, x5 <= 1, x6 <= 1, x7 <= 1,
    ensures
        ({
            let b = (x0 * 128 + x1 * 64 + x2 * 32 + x3 * 16 + x4 * 8 + x5 * 4 + x6 * 2 + x7) as u8;
            &&& byte_bit(b, 0) == (x0 == 1)
            &&& byte_bit(b, 1) == (x1 == 1)
            &&& byte_bit(b, 2) == (x2 == 1)
            &&& byte_bit(b, 3) == (x3 == 1)
            &&& byte_bit(b, 4) == (x4 == 1)
            &&& byte_bit(b, 5) == (x5 == 1)
            &&& byte_bit(b, 6) == (x6 == 1)
            &&& byte_bit(b, 7) == (x7 == 1)
        }),
{
    let b = (x0 * 128 + x1 * 64 + x2 * 32 + x3 * 16 + x4 * 8 + x5 * 4 + x6 * 2 + x7) as u8;
    assert({
        &&& (b >> 7u8) & 1u8 == 1u8 <==> x0 == 1
        &&& (b >> 6u8) & 1u8 == 1u8 <==> x1 == 1
        &&& (b >> 5u8) & 1u8 == 1u8 <==> x2 == 1
        &&& (b >> 4u8) & 1u8 == 1u8 <==> x3 == 1
        &&& (b >> 3u8) & 1u8 == 1u8 <==> x4 == 1
        &&& (b >> 2u8) & 1u8 == 1u8 <==> x5 == 1
        &&& (b >> 1u8) & 1u8 == 1u8 <==> x6 == 1
        &&& (b >> 0u8) & 1u8 == 1u8 <==> x7 == 1
    }) by (bit_vector)
        requires
            x0 <= 1, x1 <= 1, x2 <= 1, x3 <= 1, x4 <= 1, x5 <= 1, x6 <= 1, x7 <= 1,
            b == (x0 * 128 + x1 * 64 + x2 * 32 + x3 * 16 + x4 * 8 + x5 * 4 + x6 * 2 + x7) as u8,
    ;
}

/// Clearing the low `p` bits of a byte keeps the others.
proof fn lemma_clear_padding(b: u8, p: u8, k: u8)
    requires
        p < 8,
        k < 8,
    ensures
        padding_clear(((b >> p) << p) as u8, p),
        k + p < 8 ==> byte_bit(((b >> p) << p) as u8, k) == byte_bit(b, k),
{
    assert(padding_clear(((b >> p) << p) as u8, p)) by (bit_vector)
        requires p < 8;
    assert(k + p < 8 ==> byte_bit(((b >> p) << p) as u8, k) == byte_bit(b, k)) by (bit_vector)
        requires p < 8, k < 8;
}

/// Packing and then reading the bits back gives the same bits.
pub proof fn lemma_unpack_pack(bits: Seq<bool>)
    ensures
        unpack(pack(bits), padding_for(bits.len())) == bits,
{
    let u = unpack(pack(bits), padding_for(bits.len()));
    assert(u.len() == bits.len());
    assert forall|i: int| 0 <= i < bits.len() implies u[i] == bits[i] by {
        let j = i / 8;
        assert(i == 8 * j + i % 8);
        lemma_bits_of_byte(
            bit_value(bits, 8 * j), bit_value(bits, 8 * j + 1), bit_value(bits, 8 * j + 2),
            bit_value(bits, 8 * j + 3), bit_value(bits, 8 * j + 4), bit_value(bits, 8 * j + 5),
            bit_value(bits, 8 * j + 6), bit_value(bits, 8 * j + 7),
        );
    }
    assert(u =~= bits);
}

/// Reading the wire form of a bit sequence gives the sequence back.
pub proof fn lemma_parse_serialized_bits(bits: Seq<bool>)
    ensures
        parse_bits(serialized_bits(bits)) == Ok::<Seq<bool>, BitVecDeserializationError>(bits),
{
    let sb = serialized_bits(bits);
    assert(sb.skip(1) =~= pack(bits));
    if bits.len() == 0 {
        assert(bits =~= Seq::<bool>::empty());
    }
    assert(sb[0] == padding_for(bits.len()));
    lemma_unpack_pack(bits);
}

/// The bits of the first `j` packed bytes are a prefix of the bits of all of them.
pub proof fn lemma_unpack_prefix(bytes: Seq<u8>, padding: u8, j: int)
    requires
        padding < 8,
        1 <= j <= bytes.len(),
    ensures
        unpack(bytes.take(j), padding) == unpack(bytes, padding).take(8 * j - padding),
{
    let a = unpack(bytes.take(j), padding);
    let b = unpack(bytes, padding).take(8 * j - padding);
    assert forall|i: int| 0 <= i < a.len() implies a[i] == b[i] by {
        assert(i / 8 < j);
    }
    assert(a =~= b);
}

/// After any sequence of appends, a buffer of `n` bits reports (through
/// `as_padded_bytes` and `serialize`) a padding below 8, which is 0 when the buffer is
/// empty, and bytes that hold exactly `n` bits once the padding is left out.
pub proof fn lemma_padding_bound(bits: Seq<bool>)
    ensures
        padding_for(bits.len()) <= 7,
        bits.len() == 0 ==> padding_for(bits.len()) == 0,
        pack(bits).len() * 8 - padding_for(bits.len()) == bits.len(),
{
}

impl BitVec {
    /// The representation invariant.
    pub closed spec fn wf(&self) -> bool {
        &&& self.last_byte_padding < 8
        &&& self.raw_data@.len() == 0 ==> self.last_byte_padding == 0
        &&& self.raw_data@.len() * 8 <= usize::MAX
        &&& self.raw_data@.len() > 0 ==> padding_clear(
            self.raw_data@.last(),
            self.last_byte_padding,
        )
    }

    proof fn lemma_len(&self)
        requires
            self.wf(),
        ensures
            self@.len() == self.raw_data@.len() * 8 - self.last_byte_padding,
            self.last_byte_padding == padding_for(self@.len()),
            self.raw_data@.len() == (self@.len() + 7) / 8,
    {
    }


    proof fn lemma_canonical(&self)
        requires
            self.wf(),
        ensures
            self.raw_data@ == pack(self@),
    {
        let raw = self.raw_data@;
        let bits = self@;
        let p = self.last_byte_padding;
        self.lemma_len();
        assert forall|j: int| 0 <= j < raw.len() implies raw[j] == packed_byte(bits, j) by {
            let q: u8 = if j == raw.len() - 1 { p } else { 0 };
            if q != 0 {
                assert(raw[j] == raw.last());
            }
            assert(padding_clear(raw[j], q)) by {
                if q == 0 {
                    let b = raw[j];
                    assert(padding_clear(b, 0)) by (bit_vector);
                }
            }
            assert forall|k: int| 0 <= k < 8 implies #[trigger] bit_value(bits, 8 * j + k) == (if k + q < 8
                && byte_bit(raw[j], k as u8) { 1u8 } else { 0u8 }) by {
                assert((8 * j + k) / 8 == j);
                assert((8 * j + k) % 8 == k);
            }
            lemma_byte_from_bits(
                raw[j], q, bit_value(bits, 8 * j), bit_value(bits, 8 * j + 1),
                bit_value(bits, 8 * j + 2), bit_value(bits, 8 * j + 3), bit_value(bits, 8 * j + 4),
                bit_value(bits, 8 * j + 5), bit_value(bits, 8 * j + 6), bit_value(bits, 8 * j + 7),
            );
        }
        assert(raw =~= pack(bits));
    }

    pub fn new() -> (r: Self)
        ensures
            r.wf(),
            r@ == Seq::<bool>::empty(),
    {
        let r = BitVec { raw_data: Vec::new(), last_byte_padding: 0 };
        assert(r@ =~= Seq::<bool>::empty());
        r
    }

    pub fn with_capacity(capacity: usize) -> (r: Self)
        ensures
            r.wf(),
            r@ == Seq::<bool>::empty(),
    {
        let r = BitVec {
            raw_data: Vec::with_capacity(least_bytes_repr_for_bits(capacity)),
            last_byte_padding: 0,
        };
        assert(r@ =~= Seq::<bool>::empty());
        r
    }

    pub fn len_bits(&self) -> (r: usize)
        requires
            self.wf(),
        ensures
            r == self@.len(),
    {
        self.raw_data.len() * 8 - self.last_byte_padding as usize
    }

    pub fn least_len_bytes(&self) -> (r: usize)
        requires
            self.wf(),
        ensures
            r == (self@.len() + 7) / 8,
    {
        proof { self.lemma_len(); }
        self.raw_data.len()
    }

    /// A copy of this buffer.
    pub fn duplicate(&self) -> (r: Self)
        requires
            self.wf(),
        ensures
            r.wf(),
            r@ == self@,
    {
        let mut raw_data: Vec<u8> = Vec::with_capacity(self.raw_data.len());
        let mut j: usize = 0;
        while j < self.raw_data.len()
            invariant
                j <= self.raw_data@.len(),
                raw_data@ == self.raw_data@.take(j as int),
            decreases self.raw_data@.len() - j,
        {
            raw_data.push(self.raw_data[j]);
            j += 1;
            assert(raw_data@ =~= self.raw_data@.take(j as int));
        }
        assert(raw_data@ =~= self.raw_data@);
        BitVec { raw_data, last_byte_padding: self.last_byte_padding }
    }

    /// Appends every bit of `bit_view`, in order.
    pub fn extend_from_bits(&mut self, bit_view: &BitView)
        requires
            old(self).wf(),
            bit_view.wf(),
            old(self)@.len() + bit_view@.len() + 8 <= usize::MAX,
        ensures
            final(self).wf(),
            final(self)@ == old(self)@ + bit_view@,
    {
        proof { self.lemma_len(); }
        if self.last_byte_padding == 0 {
            // Aligned: the bytes can be copied as they are.
            let m0 = self.raw_data.len();
            let src = bit_view.raw_data;
            let mut j: usize = 0;
            while j < src.len()
                invariant
                    j <= src@.len(),
                    m0 == old(self).raw_data@.len(),
                    self.raw_data@ == old(self).raw_data@ + src@.take(j as int),
                    self.last_byte_padding == 0,
                decreases src@.len() - j,
            {
                self.raw_data.push(src[j]);
                j += 1;
                assert(self.raw_data@ =~= old(self).raw_data@ + src@.take(j as int));
            }
            assert(src@.take(j as int) =~= src@);
            let p = bit_view.last_byte_padding;
            if src.len() > 0 {
                let last = self.raw_data.len() - 1;
                let b = self.raw_data[last];
                self.raw_data.set(last, (b >> p) << p);
                proof { lemma_clear_padding(b, p, 0); }
            }
            self.last_byte_padding = p;
            proof {
                let n0 = old(self)@.len();
                assert(n0 == 8 * m0);
                assert forall|i: int| 0 <= i < self@.len() implies self@[i] == (old(self)@
                    + bit_view@)[i] by {
                    let k = (i % 8) as u8;
                    assert(i == 8 * (i / 8) + i % 8);
                    if i < n0 {
                        assert(i / 8 < m0);
                    } else {
                        let i2 = i - n0;
                        assert(i2 / 8 == i / 8 - m0);
                        assert(i2 % 8 == i % 8);
                        if i / 8 == self.raw_data@.len() - 1 {
                            let b = src@[src@.len() - 1];
                            lemma_clear_padding(b, p, k);
                        }
                    }
                }
                assert(self@ =~= old(self)@ + bit_view@);
            }
        } else {
            // Not aligned: bit by bit.
            let n = bit_view.len_bits();
            let mut j: usize = 0;
            while j < n
                invariant
                    j <= n,
                    n == bit_view@.len(),
                    bit_view.wf(),
                    self.wf(),
                    self@ == old(self)@ + bit_view@.take(j as int),
                    old(self)@.len() + bit_view@.len() + 8 <= usize::MAX,
                decreases n - j,
            {
                let bit = bit_view.bit_at(j);
                self.append_bit(bit);
                j += 1;
                assert(self@ =~= old(self)@ + bit_view@.take(j as int));
            }
            assert(bit_view@.take(n as int) =~= bit_view@);
        }
    }

    /// A borrowed view of the bits.
    pub fn as_bit_view(&self) -> (r: BitView<'_>)
        requires
            self.wf(),
        ensures
            r.wf(),
            r@ == self@,
    {
        BitView { raw_data: self.raw_data.as_slice(), last_byte_padding: self.last_byte_padding }
    }

    /// An iterator over the bits, first to last.
    pub fn iter_bits(&self) -> (r: BitIterator<'_>)
        requires
            self.wf(),
        ensures
            r.wf(),
            r.bits() == self@,
            r.pos() == 0,
    {
        BitIterator { bits: self.as_bit_view(), i: 0 }
    }

    /// The packed bytes and the number of padding bits in the last one.
    pub fn as_padded_bytes(&self) -> (r: (&[u8], u8))
        requires
            self.wf(),
        ensures
            r.0@ == pack(self@),
            r.1 == padding_for(self@.len()),
    {
        proof {
            self.lemma_canonical();
            self.lemma_len();
        }
        (self.raw_data.as_slice(), self.last_byte_padding)
    }

    pub fn from_bool_slice(bools: &[bool]) -> (r: Self)
        requires
            bools@.len() + 8 <= usize::MAX,
        ensures
            r.wf(),
            r@ == bools@,
    {
        let mut res = Self::with_capacity(bools.len());
        let mut j: usize = 0;
        while j < bools.len()
            invariant
                j <= bools@.len(),
                bools@.len() + 8 <= usize::MAX,
                res.wf(),
                res@ == bools@.take(j as int),
            decreases bools@.len() - j,
        {
            res.append_bit(bools[j]);
            j += 1;
            assert(res@ =~= bools@.take(j as int));
        }
        assert(bools@.take(j as int) =~= bools@);
        res
    }

    pub fn to_bool_slice(&self) -> (r: Vec<bool>)
        requires
            self.wf(),
        ensures
            r@ == self@,
    {
        self.as_bit_view().to_bool_slice()
    }

    /// The wire form: one byte with the padding count, then the packed bytes.
    pub fn serialize(&self) -> (r: Vec<u8>)
        requires
            self.wf(),
        ensures
            r@ == serialized_bits(self@),
    {
        proof {
            self.lemma_canonical();
            self.lemma_len();
        }
        let mut buf: Vec<u8> = Vec::with_capacity(1 + self.raw_data.len());
        buf.push(self.last_byte_padding);
        let mut j: usize = 0;
        while j < self.raw_data.len()
            invariant
                j <= self.raw_data@.len(),
                buf@ == seq![self.last_byte_padding] + self.raw_data@.take(j as int),
            decreases self.raw_data@.len() - j,
        {
            buf.push(self.raw_data[j]);
            j += 1;
            assert(buf@ =~= seq![self.last_byte_padding] + self.raw_data@.take(j as int));
        }
        assert(self.raw_data@.take(j as int) =~= self.raw_data@);
        buf
    }

    /// Reads the wire form written by `serialize`.
    pub fn deserialize(input: &[u8]) -> (r: Result<Self, BitVecDeserializationError>)
        requires
            input@.len() * 8 <= usize::MAX,
        ensures
            match r {
                Ok(v) => v.wf() && parse_bits(input@) == Ok::<Seq<bool>, BitVecDeserializationError>(v@),
                Err(e) => parse_bits(input@) == Err::<Seq<bool>, BitVecDeserializationError>(e),
            },
    {
        if input.len() == 0 {
            return Err(BitVecDeserializationError::MissingPadding);
        }
        let p = input[0];
        if p >= 8 || (input.len() == 1 && p != 0) {
            return Err(BitVecDeserializationError::InvalidPadding(p));
        }
        let mut raw_data: Vec<u8> = Vec::with_capacity(input.len() - 1);
        let mut j: usize = 1;
        while j < input.len()
            invariant
                1 <= j <= input@.len(),
                raw_data@ == input@.subrange(1, j as int),
            decreases input@.len() - j,
        {
            raw_data.push(input[j]);
            j += 1;
            assert(raw_data@ =~= input@.subrange(1, j as int));
        }
        let ghost data = input@.skip(1);
        assert(raw_data@ =~= data);
        if raw_data.len() > 0 {
            let last = raw_data.len() - 1;
            let b = raw_data[last];
            raw_data.set(last, (b >> p) << p);
            proof {
                lemma_clear_padding(b, p, 0);
                assert forall|i: int| 0 <= i < unpack(data, p).len() implies unpack(raw_data@, p)[i]
                    == unpack(data, p)[i] by {
                    let k = (i % 8) as u8;
                    if i / 8 == last as int {
                        lemma_clear_padding(b, p, k);
                    }
                }
                assert(unpack(raw_data@, p) =~= unpack(data, p));
            }
        }
        Ok(BitVec { raw_data, last_byte_padding: p })
    }

    pub fn append_bit(&mut self, bit: bool)
        requires
            old(self).wf(),
            old(self)@.len() + 8 <= usize::MAX,
        ensures
            final(self).wf(),
            final(self)@ == old(self)@.push(bit),
    {
        proof { self.lemma_len(); }
        let x: u8 = if bit { 1 } else { 0 };
        if self.last_byte_padding == 0 {
            self.raw_data.push(x << 7);
            self.last_byte_padding = 7;
            proof {
                lemma_new_byte(x);
                assert(self@ =~= old(self)@.push(bit));
            }
        } else {
            let last = self.raw_data.len() - 1;
            let p = self.last_byte_padding;
            let b = self.raw_data[last];
            self.raw_data.set(last, b | (x << (p - 1)));
            self.last_byte_padding = p - 1;
            proof {
                lemma_set_bit(b, p, x, 0);
                let n = old(self)@.len();
                assert(n == 8 * (last as int) + 8 - p);
                assert forall|i: int| 0 <= i < self@.len() implies self@[i] == old(self)@.push(bit)[i] by {
                    let k = (i % 8) as u8;
                    assert(i == 8 * (i / 8) + i % 8);
                    lemma_set_bit(b, p, x, k);
                    if i / 8 == last as int {
                        if i < n {
                            assert(k + p < 8);
                        } else {
                            assert(k + p == 8);
                        }
                    } else {
                        assert(i / 8 < last as int);
                    }
                }
                assert(self@ =~= old(self)@.push(bit));
            }
        }
    }
}

/// A borrowed sequence of bits: bytes read most significant bit first, without the
/// last `last_byte_padding` bits.
#[derive(Clone, Copy)]
pub struct BitView<'a> {
    raw_data: &'a [u8],
    last_byte_padding: u8,
}

impl<'a> View for BitView<'a> {
    type V = Seq<bool>;

    closed spec fn view(&self) -> Seq<bool> {
        unpack(self.raw_data@, self.last_byte_padding)
    }
}

impl<'a> BitView<'a> {
    /// The representation invariant.
    pub closed spec fn wf(&self) -> bool {
        &&& self.last_byte_padding < 8
        &&& self.raw_data@.len() == 0 ==> self.last_byte_padding == 0
        &&& self.raw_data@.len() * 8 <= usize::MAX
    }

    pub fn from_padded_bytes(bytes: &'a [u8], last_byte_padding: u8) -> (r: BitView<'a>)
        requires
            last_byte_padding < 8,
            bytes@.len() == 0 ==> last_byte_padding == 0,
            bytes@.len() * 8 <= usize::MAX,
        ensures
            r.wf(),
            r@ == unpack(bytes@, last_byte_padding),
    {
        BitView { raw_data: bytes, last_byte_padding }
    }

    /// The number of bits.
    pub fn len_bits(&self) -> (r: usize)
        requires
            self.wf(),
        ensures
            r == self@.len(),
    {
        self.raw_data.len() * 8 - self.last_byte_padding as usize
    }

    /// Bit `i`.
    pub fn bit_at(&self, i: usize) -> (r: bool)
        requires
            self.wf(),
            i < self@.len(),
        ensures
            r == self@[i as int],
    {
        let byte = self.raw_data[i / 8];
        let k = (i % 8) as u8;
        (byte >> (7 - k)) & 1 == 1
    }

    /// An iterator over the bits, first to last.
    pub fn iter_bits(&self) -> (r: BitIterator<'a>)
        requires
            self.wf(),
        ensures
            r.wf(),
            r.bits() == self@,
            r.pos() == 0,
    {
        BitIterator { bits: *self, i: 0 }
    }

    pub fn to_bool_slice(&self) -> (r: Vec<bool>)
        requires
            self.wf(),
        ensures
            r@ == self@,
    {
        let n = self.len_bits();
        let mut res: Vec<bool> = Vec::with_capacity(n);
        let mut j: usize = 0;
        while j < n
            invariant
                j <= n,
                n == self@.len(),
                self.wf(),
                res@ == self@.take(j as int),
            decreases n - j,
        {
            res.push(self.bit_at(j));
            j += 1;
            assert(res@ =~= self@.take(j as int));
        }
        assert(self@.take(n as int) =~= self@);
        res
    }
}

/// Walks the bits of a view, first to last.
pub struct BitIterator<'a> {
    bits: BitView<'a>,
    i: usize,
}

impl<'a> BitIterator<'a> {
    /// The bits walked over.
    pub closed spec fn bits(&self) -> Seq<bool> {
        self.bits@
    }

    /// The index of the next bit.
    pub closed spec fn pos(&self) -> int {
        self.i as int
    }

    pub closed spec fn wf(&self) -> bool {
        self.bits.wf() && self.i <= self.bits@.len()
    }

    /// The next bit's index lies between 0 and the number of bits.
    pub proof fn lemma_pos_bound(&self)
        requires
            self.wf(),
        ensures
            0 <= self.pos() <= self.bits().len(),
    {
    }

    /// The next bit, if any is left.
    pub fn next(&mut self) -> (r: Option<bool>)
        requires
            old(self).wf(),
        ensures
            final(self).wf(),
            final(self).bits() == old(self).bits(),
            0 <= old(self).pos() <= old(self).bits().len(),
            0 <= final(self).pos() <= final(self).bits().len(),
            old(self).pos() < old(self).bits().len() ==> r == Some(old(self).bits()[old(self).pos()])
                && final(self).pos() == old(self).pos() + 1,
            old(self).pos() == old(self).bits().len() ==> r is None && final(self).pos()
                == old(self).pos(),
    {
        if self.i < self.bits.len_bits() {
            let b = self.bits.bit_at(self.i);
            self.i += 1;
            Some(b)
        } else {
            None
        }
    }
}

} // verus!
