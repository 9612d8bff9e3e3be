use vstd::prelude::*;

verus! {

/// Rotates a 16-bit value left by one bit.
pub open spec fn rotl16(v: u16) -> u16 {
    ((v % 0x8000) * 2 + v / 0x8000) as u16
}

/// The rolling checksum of `data` started from `init`: each byte is added
/// (modulo 2^16) and the sum rotated left by one bit.
pub open spec fn checksum_from(init: u16, data: Seq<u8>) -> u16
    decreases data.len(),
{
    if data.len() == 0 {
        init
    } else {
        rotl16(((checksum_from(init, data.drop_last()) + data.last()) % 0x10000) as u16)
    }
}

/// The RAR 1.3 file checksum of `data`.
pub open spec fn checksum_of(data: Seq<u8>) -> u16 {
    checksum_from(0, data)
}

/// Checksumming in two pieces equals checksumming the whole.
pub proof fn lemma_checksum_append(init: u16, a: Seq<u8>, b: Seq<u8>)
    ensures
        checksum_from(init, a + b) == checksum_from(checksum_from(init, a), b),
    decreases b.len(),
{
    if b.len() == 0 {
        assert(a + b =~= a);
    } else {
        assert((a + b).drop_last() =~= a + b.drop_last());
        lemma_checksum_append(init, a, b.drop_last());
    }
}

/// Each byte, taken as a number from 0 to 255, is added to the running sum
/// modulo 2^16, and the sum is rotated left by one bit: its top bit becomes
/// its lowest.
pub proof fn lemma_checksum_push(init: u16, s: Seq<u8>, b: u8)
    ensures
        ({
            let sum = (checksum_from(init, s) + b) % 0x10000;
            checksum_from(init, s.push(b)) == (sum * 2) % 0x10000 + sum / 0x8000
        }),
{
    assert(s.push(b).drop_last() =~= s);
}

/// The rotation by bits: the sum shifted left by one, with its top bit
/// brought round to the bottom.
pub proof fn lemma_checksum_push_bits(init: u16, s: Seq<u8>, b: u8)
    ensures
        ({
            let sum: u16 = ((checksum_from(init, s) + b) % 0x10000) as u16;
            checksum_from(init, s.push(b)) == ((sum << 1u16) | (sum >> 15u16))
        }),
{
    lemma_checksum_push(init, s, b);
    let sum: u16 = ((checksum_from(init, s) + b) % 0x10000) as u16;
    assert(((sum * 2) % 0x10000 + sum / 0x8000) as u16 == ((sum << 1u16) | (sum >> 15u16)))
        by (bit_vector);
}

/// Running RAR 1.3 checksum state.
pub struct Rar13Checksum {
    value: u16,
}

impl Rar13Checksum {
    pub fn new() -> (c: Rar13Checksum)
        ensures
            c.spec_value() == 0,
    {
        Rar13Checksum { value: 0 }
    }

    pub closed spec fn spec_value(&self) -> u16 {
        self.value
    }

    /// Feeds `input` into the checksum.
    pub fn update(&mut self, input: &[u8])
        ensures
            final(self).spec_value() == checksum_from(old(self).spec_value(), input@),
    {
        let ghost init = self.value;
        let mut i: usize = 0;
        while i < input.len()
            invariant
                i <= input.len(),
                self.value == checksum_from(init, input@.subrange(0, i as int)),
            decreases input.len() - i,
        {
            proof {
                let s = input@.subrange(0, i + 1);
                assert(s.drop_last() =~= input@.subrange(0, i as int));
            }
            let sum: u16 = ((self.value as u32 + input[i] as u32) % 0x10000) as u16;
            self.value = ((sum % 0x8000) * 2 + sum / 0x8000) as u16;
            i = i + 1;
        }
        assert(input@.subrange(0, input@.len() as int) =~= input@);
    }

    pub fn finish(self) -> (v: u16)
        ensures
            v == self.spec_value(),
    {
        self.value
    }
}

/// The RAR 1.3 file checksum of `input`.
pub fn file_checksum(input: &[u8]) -> (sum: u16)
    ensures
        sum == checksum_of(input@),
{
    let mut checksum = Rar13Checksum::new();
    checksum.update(input);
    checksum.finish()
}

} // verus!
