use vstd::prelude::*;

use crate::codec::Error;

verus! {

/// Bit `k` of a byte stream read most-significant bit first; past the end the
/// stream reads as zero.
pub open spec fn stream_bit(input: Seq<u8>, k: int) -> u32 {
    if 0 <= k && k / 8 < input.len() {
        ((input[k / 8] >> ((7 - k % 8) as u8)) & 1) as u32
    } else {
        0
    }
}

/// The `n` bits of the stream starting at bit `pos`, as a big-endian number.
pub open spec fn peek_bits(input: Seq<u8>, pos: int, n: nat) -> nat
    decreases n,
{
    if n == 0 {
        0
    } else {
        (peek_bits(input, pos, (n - 1) as nat) * 2 + stream_bit(input, pos + n - 1)) as nat
    }
}

pub proof fn lemma_stream_bit_le_1(input: Seq<u8>, k: int)
    ensures
        stream_bit(input, k) <= 1,
{
    if 0 <= k && k / 8 < input.len() {
        let b = input[k / 8];
        let s = (7 - k % 8) as u8;
        assert((b >> s) & 1 <= 1) by (bit_vector);
    }
}

pub proof fn lemma_peek_bits_bound(input: Seq<u8>, pos: int, n: nat)
    ensures
        peek_bits(input, pos, n) < vstd::arithmetic::power2::pow2(n),
    decreases n,
{
    if n == 0 {
        vstd::arithmetic::power2::lemma2_to64();
    } else {
        lemma_peek_bits_bound(input, pos, (n - 1) as nat);
        lemma_stream_bit_le_1(input, pos + n - 1);
        vstd::arithmetic::power2::lemma_pow2_unfold(n);
    }
}

/// Reads a byte stream bit by bit, most significant bit first.
#[derive(Clone)]
pub struct BitReader {
    input: Vec<u8>,
    bit_pos: usize,
    final_input: bool,
}

impl BitReader {
    /// The bytes buffered so far.
    pub closed spec fn data(&self) -> Seq<u8> {
        self.input@
    }

    /// The position of the next unread bit.
    pub closed spec fn pos(&self) -> int {
        self.bit_pos as int
    }

    /// The read position is a machine word.
    pub proof fn lemma_pos_range(&self)
        ensures
            0 <= self.pos() <= usize::MAX,
    {
    }

    /// Whether no more input will arrive; missing bits then read as zero.
    pub closed spec fn is_final(&self) -> bool {
        self.final_input
    }

    /// A reader over `input` that expects more input to follow.
    pub fn new(input: &[u8]) -> (r: BitReader)
        ensures
            r.data() == input@,
            r.pos() == 0,
            !r.is_final(),
    {
        BitReader { input: crate::bytes::copy_bytes(input), bit_pos: 0, final_input: false }
    }

    /// A reader over the complete input.
    pub fn new_final(input: &[u8]) -> (r: BitReader)
        ensures
            r.data() == input@,
            r.pos() == 0,
            r.is_final(),
    {
        BitReader { input: crate::bytes::copy_bytes(input), bit_pos: 0, final_input: true }
    }

    /// Whether the input is complete.
    pub fn is_final_exec(&self) -> (f: bool)
        ensures
            f == self.is_final(),
    {
        self.final_input
    }

    /// Appends more input.
    pub fn append(&mut self, input: &[u8])
        ensures
            final(self).data() == old(self).data() + input@,
            final(self).data().len() <= usize::MAX,
            final(self).pos() == old(self).pos(),
            final(self).is_final() == old(self).is_final(),
    {
        self.input.extend_from_slice(input);
        proof {
            assert(self.input@ =~= old(self).input@ + input@);
        }
        let _ = self.input.len();
    }

    /// Marks the input as complete.
    pub fn finish(&mut self)
        ensures
            final(self).data() == old(self).data(),
            final(self).pos() == old(self).pos(),
            final(self).is_final(),
    {
        self.final_input = true;
    }

    /// Whether the 16 bits at the current position lie past the buffered input.
    pub open spec fn needs_more(&self) -> bool {
        !self.is_final() && (self.pos() + 15) / 8 >= self.data().len()
    }

    /// The next 16 bits, without consuming them.
    pub fn get_bits(&self) -> (r: Result<u32, Error>)
        ensures
            r is Err <==> self.needs_more(),
            r matches Err(e) ==> e == Error::NeedMoreInput,
            r matches Ok(v) ==> v == peek_bits(self.data(), self.pos(), 16) && v < 0x10000,
    {
        let mut value: u32 = 0;
        let mut i: usize = 0;
        let byte_base = self.bit_pos / 8;
        let off = self.bit_pos % 8;
        proof {
            lemma_peek_bits_bound(self.input@, self.bit_pos as int, 0);
        }
        while i < 16
            invariant
                i <= 16,
                byte_base == self.bit_pos / 8,
                off == self.bit_pos % 8,
                value == peek_bits(self.input@, self.bit_pos as int, i as nat),
                value < vstd::arithmetic::power2::pow2(i as nat),
                i > 0 ==> (self.final_input || (self.bit_pos + i - 1) / 8 < self.input@.len()),
            decreases 16 - i,
        {
            let byte_index = byte_base + (off + i) / 8;
            let k: Ghost<int> = Ghost(self.bit_pos + i);
            assert(byte_index == k@ / 8) by (nonlinear_arith)
                requires
                    byte_base == self.bit_pos / 8,
                    off == self.bit_pos % 8,
                    byte_index == byte_base + (off + i) / 8,
                    k@ == self.bit_pos + i,
            ;
            let shift: u8 = (7 - (off + i) % 8) as u8;
            assert(shift == 7 - k@ % 8) by (nonlinear_arith)
                requires
                    off == self.bit_pos % 8,
                    shift == 7 - (off + i) % 8,
                    k@ == self.bit_pos + i,
            ;
            let bit: u32 = if byte_index < self.input.len() {
                ((self.input[byte_index] >> shift) & 1) as u32
            } else if self.final_input {
                0
            } else {
                return Err(Error::NeedMoreInput);
            };
            proof {
                lemma_stream_bit_le_1(self.input@, k@);
                vstd::arithmetic::power2::lemma_pow2_unfold((i + 1) as nat);
                vstd::arithmetic::power2::lemma2_to64();
                if i < 15 {
                    vstd::arithmetic::power2::lemma_pow2_strictly_increases(i as nat, 15);
                }
            }
            value = value * 2 + bit;
            i = i + 1;
        }
        proof {
            vstd::arithmetic::power2::lemma2_to64();
        }
        Ok(value)
    }

    /// The position of the next unread bit.
    pub fn position(&self) -> (p: usize)
        ensures
            p == self.pos(),
    {
        self.bit_pos
    }

    /// Consumes `count` bits.
    pub fn add_bits(&mut self, count: usize)
        ensures
            final(self).data() == old(self).data(),
            final(self).is_final() == old(self).is_final(),
            final(self).pos() >= old(self).pos(),
            old(self).pos() < usize::MAX && count >= 1 ==> final(self).pos() > old(self).pos(),
            final(self).pos() == if old(self).pos() + count > usize::MAX {
                usize::MAX as int
            } else {
                old(self).pos() + count
            },
    {
        self.bit_pos = self.bit_pos.saturating_add(count);
    }
}

/// The `count` low bits of `value`, most significant first.
pub open spec fn value_bits(value: u32, count: nat) -> Seq<bool> {
    Seq::new(count, |i: int| (value >> ((count - 1 - i) as u32)) & 1 == 1)
}

/// Bit `j` (0 = most significant) of a byte.
pub open spec fn byte_bit(b: u8, j: int) -> bool {
    (b >> ((7 - j) as u8)) & 1 == 1
}

/// `out` holds exactly the bits `bits`, most significant bit first, with the
/// last byte padded by zero bits.
pub open spec fn packs(out: Seq<u8>, bits: Seq<bool>) -> bool {
    &&& out.len() == (bits.len() + 7) / 8
    &&& forall|k: int| 0 <= k < bits.len() ==> byte_bit(#[trigger] out[k / 8], k % 8) == bits[k]
    &&& forall|k: int| bits.len() <= k < 8 * out.len() ==> !byte_bit(#[trigger] out[k / 8], k % 8)
}

proof fn lemma_set_bit(b: u8, j: u8, m: u8)
    requires
        j < 8,
        m < 8,
    ensures
        ((b | (1u8 << ((7 - j) as u8))) >> ((7 - m) as u8)) & 1 == if m == j {
            1u8
        } else {
            (b >> ((7 - m) as u8)) & 1
        },
{
    assert(((b | (1u8 << ((7 - j) as u8))) >> ((7 - m) as u8)) & 1 == if m == j {
        1u8
    } else {
        (b >> ((7 - m) as u8)) & 1
    }) by (bit_vector)
        requires
            j < 8,
            m < 8,
    ;
}

proof fn lemma_zero_bits(m: u8)
    requires
        m < 8,
    ensures
        (0u8 >> ((7 - m) as u8)) & 1 == 0,
{
    assert((0u8 >> ((7 - m) as u8)) & 1 == 0) by (bit_vector);
}

/// Writes bits most significant first into a growing byte buffer.
pub struct BitWriter {
    output: Vec<u8>,
    used: u8,
    bits: Ghost<Seq<bool>>,
}

impl BitWriter {
    /// The bits written so far.
    pub closed spec fn view_bits(&self) -> Seq<bool> {
        self.bits@
    }

    pub closed spec fn wf(&self) -> bool {
        &&& 1 <= self.used <= 8
        &&& (self.output@.len() == 0 ==> self.used == 8)
        &&& self.bits@.len() == if self.output@.len() == 0 {
            0
        } else {
            8 * self.output@.len() - 8 + self.used
        }
        &&& packs(self.output@, self.bits@)
    }

    pub fn new() -> (w: BitWriter)
        ensures
            w.wf(),
            w.view_bits() == Seq::<bool>::empty(),
    {
        BitWriter { output: Vec::new(), used: 8, bits: Ghost(Seq::empty()) }
    }

    /// Appends one bit.
    pub fn write_bit(&mut self, bit: bool)
        requires
            old(self).wf(),
        ensures
            final(self).wf(),
            final(self).view_bits() == old(self).view_bits().push(bit),
    {
        let ghost old_bits = self.bits@;
        let ghost old_out = self.output@;
        if self.used == 8 {
            self.output.push(0);
            self.used = 0;
            proof {
                assert forall|k: int| 0 <= k < old_bits.len() implies byte_bit(
                    #[trigger] self.output@[k / 8],
                    k % 8,
                ) == old_bits[k] by {
                    assert(k / 8 < old_out.len());
                }
                assert forall|k: int| old_bits.len() <= k < 8 * self.output@.len() implies !byte_bit(
                    #[trigger] self.output@[k / 8],
                    k % 8,
                ) by {
                    assert(k / 8 == old_out.len());
                    lemma_zero_bits((k % 8) as u8);
                }
            }
        }
        let last = self.output.len() - 1;
        let j = self.used;
        if bit {
            let b = self.output[last];
            self.output.set(last, b | (1u8 << (7 - j)));
            proof {
                assert forall|m: u8| m < 8 implies #[trigger] ((b | (1u8 << ((7 - j) as u8))) >> ((7 - m) as u8)) & 1 == if m
                    == j {
                    1u8
                } else {
                    (b >> ((7 - m) as u8)) & 1
                } by {
                    lemma_set_bit(b, j, m);
                }
            }
        }
        self.used = self.used + 1;
        self.bits = Ghost(old_bits.push(bit));
        proof {
            let nb = self.bits@;
            let out = self.output@;
            assert(nb.len() == old_bits.len() + 1);
            assert(old_bits.len() == 8 * last + j);
            assert forall|k: int| 0 <= k < nb.len() implies byte_bit(#[trigger] out[k / 8], k % 8)
                == nb[k] by {
                if k / 8 < last {
                } else {
                    assert(k / 8 == last);
                    let m = (k % 8) as u8;
                    if k < old_bits.len() {
                        assert(m != j);
                    } else {
                        assert(m == j);
                    }
                }
            }
            assert forall|k: int| nb.len() <= k < 8 * out.len() implies !byte_bit(
                #[trigger] out[k / 8],
                k % 8,
            ) by {
                assert(k / 8 == last);
                let m = (k % 8) as u8;
                assert(m != j);
            }
        }
    }

    /// Appends the `count` low bits of `value`, most significant first.
    pub fn write_bits(&mut self, value: u32, count: usize)
        requires
            old(self).wf(),
            count <= 32,
        ensures
            final(self).wf(),
            final(self).view_bits() == old(self).view_bits() + value_bits(value, count as nat),
    {
        let ghost start = self.bits@;
        let mut i: usize = count;
        while i > 0
            invariant
                self.wf(),
                i <= count,
                count <= 32,
                self.bits@ == start + value_bits(value, count as nat).subrange(
                    0,
                    (count - i) as int,
                ),
            decreases i,
        {
            i = i - 1;
            let bit = (value >> (i as u32)) & 1 == 1;
            self.write_bit(bit);
            proof {
                let vb = value_bits(value, count as nat);
                assert(vb[(count - 1 - i) as int] == bit);
                assert(self.bits@ =~= start + vb.subrange(0, (count - i) as int));
            }
        }
        proof {
            assert(value_bits(value, count as nat).subrange(0, count as int) =~= value_bits(
                value,
                count as nat,
            ));
        }
    }

    /// The bytes written, the last one padded with zero bits.
    pub fn finish(self) -> (out: Vec<u8>)
        requires
            self.wf(),
        ensures
            packs(out@, self.view_bits()),
    {
        self.output
    }
}


/// What the bit writer packs, the bit reader reads back: each written bit at
/// its position, and zero bits after the last one.
pub proof fn lemma_packed_bits_read_back(out: Seq<u8>, bits: Seq<bool>)
    requires
        packs(out, bits),
    ensures
        forall|k: int|
            0 <= k < bits.len() ==> #[trigger] stream_bit(out, k) == if bits[k] {
                1u32
            } else {
                0u32
            },
        forall|k: int| bits.len() <= k ==> #[trigger] stream_bit(out, k) == 0,
{
    assert forall|k: int| 0 <= k < bits.len() implies #[trigger] stream_bit(out, k) == if bits[k] {
        1u32
    } else {
        0u32
    } by {
        let b = out[k / 8];
        let sh = (7 - k % 8) as u8;
        assert(byte_bit(b, k % 8) == bits[k]);
        assert(((b >> sh) & 1) as u32 == if (b >> sh) & 1 == 1 {
            1u32
        } else {
            0u32
        }) by (bit_vector);
    }
    assert forall|k: int| bits.len() <= k implies #[trigger] stream_bit(out, k) == 0 by {
        if k / 8 < out.len() {
            let b = out[k / 8];
            let sh = (7 - k % 8) as u8;
            assert(!byte_bit(b, k % 8));
            assert((b >> sh) & 1 != 1 ==> ((b >> sh) & 1) as u32 == 0u32) by (bit_vector);
        }
    }
}


/// Reading `a + b` bits is reading `a` bits, then `b` more.
pub proof fn lemma_peek_split(input: Seq<u8>, pos: int, a: nat, b: nat)
    ensures
        peek_bits(input, pos, a + b) == peek_bits(input, pos, a) * vstd::arithmetic::power2::pow2(b)
            + peek_bits(input, pos + a, b),
    decreases b,
{
    vstd::arithmetic::power2::lemma2_to64();
    if b > 0 {
        lemma_peek_split(input, pos, a, (b - 1) as nat);
        vstd::arithmetic::power2::lemma_pow2_unfold(b);
        let n1 = (a + b - 1) as nat;
        assert(n1 == a + (b - 1) as nat);
        let x = peek_bits(input, pos, a);
        let y = peek_bits(input, pos + a, (b - 1) as nat);
        let pb = vstd::arithmetic::power2::pow2((b - 1) as nat);
        let bit = stream_bit(input, pos + a + b - 1);
        assert(peek_bits(input, pos, n1) == x * pb + y);
        assert(peek_bits(input, pos, a + b) == peek_bits(input, pos, n1) * 2 + bit);
        assert(peek_bits(input, pos + a, b) == y * 2 + bit);
        assert((x * pb + y) * 2 + bit == x * (2 * pb) + (y * 2 + bit)) by (nonlinear_arith);
    } else {
        assert(a + b == a);
        assert(peek_bits(input, pos + a, b) == 0);
    }
}

/// Where the packed bits hold the bits of `code`, most significant first,
/// reading them gives `code` back.
pub proof fn lemma_peek_packed_value(
    out: Seq<u8>,
    before: Seq<bool>,
    code: u32,
    len: nat,
    after: Seq<bool>,
)
    requires
        len <= 16,
        packs(out, before + value_bits(code, len) + after),
        code < vstd::arithmetic::power2::pow2(len),
    ensures
        peek_bits(out, before.len() as int, len) == code,
{
    let w = before + value_bits(code, len) + after;
    lemma_packed_bits_read_back(out, w);
    let p = before.len() as int;
    lemma_peek_prefix_value(out, w, p, code, len, len);
    vstd::bits::lemma_u32_shr_is_div(code, 0);
    vstd::arithmetic::power2::lemma2_to64();
}

/// The first `n` of the `len` bits of `code` read back as its top `n` bits.
proof fn lemma_peek_prefix_value(
    out: Seq<u8>,
    w: Seq<bool>,
    p: int,
    code: u32,
    len: nat,
    n: nat,
)
    requires
        len <= 16,
        n <= len,
        0 <= p,
        code < vstd::arithmetic::power2::pow2(len),
        p + len <= w.len(),
        forall|i: int| 0 <= i < len ==> w[p + i] == value_bits(code, len)[i],
        forall|k: int|
            0 <= k < w.len() ==> #[trigger] stream_bit(out, k) == if w[k] {
                1u32
            } else {
                0u32
            },
    ensures
        peek_bits(out, p, n) == (code >> ((len - n) as u32)),
    decreases n,
{
    if n == 0 {
        vstd::bits::lemma_u32_shr_is_div(code, len as u32);
        vstd::arithmetic::div_mod::lemma_basic_div(
            code as int,
            vstd::arithmetic::power2::pow2(len) as int,
        );
        assert((len - n) as u32 == len as u32);
        assert(code >> (len as u32) == 0);
    } else {
        lemma_peek_prefix_value(out, w, p, code, len, (n - 1) as nat);
        let i = n - 1;
        let m = (len - n) as u32;
        assert(w[p + i] == value_bits(code, len)[i]);
        assert(value_bits(code, len)[i] == ((code >> m) & 1 == 1));
        let bit = stream_bit(out, p + i);
        assert(bit == if (code >> m) & 1 == 1 {
            1u32
        } else {
            0u32
        });
        assert(((code >> m) & 1) == if (code >> m) & 1 == 1 {
            1u32
        } else {
            0u32
        }) by (bit_vector);
        assert((len - (n - 1) as nat) as u32 == (m + 1) as u32);
        assert(((code >> (m + 1) as u32) * 2 + ((code >> m) & 1)) == code >> m) by (bit_vector)
            requires
                m < 16,
        ;
        assert(peek_bits(out, p, n) == peek_bits(out, p, (n - 1) as nat) * 2 + bit);
    }
}

} // verus!
