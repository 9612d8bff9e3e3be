use vstd::prelude::*;
use vstd::arithmetic::power2::{lemma2_to64, pow2};

use crate::bitio::{
    lemma_peek_bits_bound, lemma_peek_packed_value, lemma_peek_split, packs, peek_bits, value_bits,
    BitWriter,
};

pub use crate::pack::{unpack15_encode, Unpack15Encoder};
pub use crate::unpack::{unpack15_decode, Unpack15};

verus! {

/// Failures of the Unpack15 codec.
#[derive(Debug, PartialEq, Eq)]
pub enum Error {
    InvalidData(&'static str),
    NeedMoreInput,
}

/// The decoding tables of the RAR 1.3 codec: each pairs a table of code
/// boundaries with a table of first symbol numbers per code length.
#[derive(Debug, Clone, Copy, PartialEq, Eq, Structural)]
pub enum Table {
    L1,
    L2,
    Hf0,
    Hf1,
    Hf2,
    Hf3,
    Hf4,
}

/// The upper code boundaries of a table.
pub open spec fn dec_table(t: Table) -> Seq<u16> {
    match t {
        Table::L1 => seq![
            0x8000u16,
            0xa000,
            0xc000,
            0xd000,
            0xe000,
            0xea00,
            0xee00,
            0xf000,
            0xf200,
            0xf200,
            0xffff,
        ],
        Table::L2 => seq![
            0xa000u16,
            0xc000,
            0xd000,
            0xe000,
            0xea00,
            0xee00,
            0xf000,
            0xf200,
            0xf240,
            0xffff,
        ],
        Table::Hf0 => seq![0x8000u16, 0xc000, 0xe000, 0xf200, 0xf200, 0xf200, 0xf200, 0xf200, 0xffff],
        Table::Hf1 => seq![0x2000u16, 0xc000, 0xe000, 0xf000, 0xf200, 0xf200, 0xf7e0, 0xffff],
        Table::Hf2 => seq![0x1000u16, 0x2400, 0x8000, 0xc000, 0xfa00, 0xffff, 0xffff, 0xffff],
        Table::Hf3 => seq![0x0800u16, 0x2400, 0xee00, 0xfe80, 0xffff, 0xffff, 0xffff],
        Table::Hf4 => seq![0xff00u16, 0xffff, 0xffff, 0xffff, 0xffff, 0xffff],
    }
}

/// The first symbol number of each code length of a table.
pub open spec fn pos_table(t: Table) -> Seq<u16> {
    match t {
        Table::L1 => seq![0u16, 0, 0, 2, 3, 5, 7, 11, 16, 20, 24, 32, 32],
        Table::L2 => seq![0u16, 0, 0, 0, 5, 7, 9, 13, 18, 22, 26, 34, 36],
        Table::Hf0 => seq![0u16, 0, 0, 0, 0, 8, 16, 24, 33, 33, 33, 33, 33],
        Table::Hf1 => seq![0u16, 0, 0, 0, 0, 0, 4, 44, 60, 76, 80, 80, 127],
        Table::Hf2 => seq![0u16, 0, 0, 0, 0, 0, 2, 7, 53, 117, 233, 0, 0],
        Table::Hf3 => seq![0u16, 0, 0, 0, 0, 0, 0, 2, 16, 218, 251, 0, 0],
        Table::Hf4 => seq![0u16, 0, 0, 0, 0, 0, 0, 0, 0, 255, 0, 0, 0],
    }
}

/// The shortest code length of a table.
pub open spec fn table_start(t: Table) -> nat {
    match t {
        Table::L1 => 2,
        Table::L2 => 3,
        Table::Hf0 => 4,
        Table::Hf1 => 5,
        Table::Hf2 => 5,
        Table::Hf3 => 6,
        Table::Hf4 => 8,
    }
}

/// The index of the first boundary above `num`, searching from `i`.
pub open spec fn boundary_index(dec: Seq<u16>, num: int, i: int) -> int
    decreases dec.len() - i,
{
    if i < 0 || i >= dec.len() || dec[i] > num {
        i
    } else {
        boundary_index(dec, num, i + 1)
    }
}

/// What the decoder reads from a 16-bit bit field with table `t`: the symbol
/// number and the number of bits the code occupies.
pub open spec fn decode_num_spec(t: Table, bit_field: u32) -> (u32, u32) {
    let num = (bit_field & 0xfff0) as int;
    let dec = dec_table(t);
    let i = boundary_index(dec, num, 0);
    let sp = table_start(t) + i;
    let base: int = if i > 0 {
        dec[i - 1] as int
    } else {
        0
    };
    (
        ((((num - base) as u32) >> ((16 - sp) as u32)) + pos_table(t)[sp]) as u32,
        sp as u32,
    )
}

/// The index of the first full boundary `0xffff` of a table.
pub open spec fn first_full(t: Table) -> int {
    match t {
        Table::L1 => 10,
        Table::L2 => 9,
        Table::Hf0 => 8,
        Table::Hf1 => 7,
        Table::Hf2 => 5,
        Table::Hf3 => 4,
        Table::Hf4 => 1,
    }
}

proof fn lemma_table_shape(t: Table)
    ensures
        0 <= first_full(t) < dec_table(t).len(),
        dec_table(t)[first_full(t)] == 0xffff,
        table_start(t) + first_full(t) <= 12,
        pos_table(t).len() == 13,
        table_start(t) >= 2,
        forall|j: int| 0 <= j < 13 ==> #[trigger] pos_table(t)[j] <= 255,
{
    match t {
        Table::L1 => {
            assert(dec_table(t).len() == 11);
        },
        Table::L2 => {
            assert(dec_table(t).len() == 10);
        },
        Table::Hf0 => {
            assert(dec_table(t).len() == 9);
        },
        Table::Hf1 => {
            assert(dec_table(t).len() == 8);
        },
        Table::Hf2 => {
            assert(dec_table(t).len() == 8);
        },
        Table::Hf3 => {
            assert(dec_table(t).len() == 7);
        },
        Table::Hf4 => {
            assert(dec_table(t).len() == 6);
        },
    }
}

/// Every boundary of a table below its full one falls on the start of a code
/// of its length.
proof fn lemma_boundary_aligned(t: Table, i: int)
    requires
        0 <= i < first_full(t),
    ensures
        dec_table(t)[i] as nat % pow2((16 - (table_start(t) + i)) as nat) == 0,
{
    lemma2_to64();
    match t {
        Table::L1 => {
            assert(table_start(t) == 2);
            if i == 0 {
                assert(dec_table(t)[0] == 0x8000u16);
                assert(pow2(14) == 16384);
                assert(32768nat % 16384nat == 0);
            } else if i == 1 {
                assert(dec_table(t)[1] == 0xa000u16);
                assert(pow2(13) == 8192);
                assert(40960nat % 8192nat == 0);
            } else if i == 2 {
                assert(dec_table(t)[2] == 0xc000u16);
                assert(pow2(12) == 4096);
                assert(49152nat % 4096nat == 0);
            } else if i == 3 {
                assert(dec_table(t)[3] == 0xd000u16);
                assert(pow2(11) == 2048);
                assert(53248nat % 2048nat == 0);
            } else if i == 4 {
                assert(dec_table(t)[4] == 0xe000u16);
                assert(pow2(10) == 1024);
                assert(57344nat % 1024nat == 0);
            } else if i == 5 {
                assert(dec_table(t)[5] == 0xea00u16);
                assert(pow2(9) == 512);
                assert(59904nat % 512nat == 0);
            } else if i == 6 {
                assert(dec_table(t)[6] == 0xee00u16);
                assert(pow2(8) == 256);
                assert(60928nat % 256nat == 0);
            } else if i == 7 {
                assert(dec_table(t)[7] == 0xf000u16);
                assert(pow2(7) == 128);
                assert(61440nat % 128nat == 0);
            } else if i == 8 {
                assert(dec_table(t)[8] == 0xf200u16);
                assert(pow2(6) == 64);
                assert(61952nat % 64nat == 0);
            } else if i == 9 {
                assert(dec_table(t)[9] == 0xf200u16);
                assert(pow2(5) == 32);
                assert(61952nat % 32nat == 0);
            }
        },
        Table::L2 => {
            assert(table_start(t) == 3);
            if i == 0 {
                assert(dec_table(t)[0] == 0xa000u16);
                assert(pow2(13) == 8192);
                assert(40960nat % 8192nat == 0);
            } else if i == 1 {
                assert(dec_table(t)[1] == 0xc000u16);
                assert(pow2(12) == 4096);
                assert(49152nat % 4096nat == 0);
            } else if i == 2 {
                assert(dec_table(t)[2] == 0xd000u16);
                assert(pow2(11) == 2048);
                assert(53248nat % 2048nat == 0);
            } else if i == 3 {
                assert(dec_table(t)[3] == 0xe000u16);
                assert(pow2(10) == 1024);
                assert(57344nat % 1024nat == 0);
            } else if i == 4 {
                assert(dec_table(t)[4] == 0xea00u16);
                assert(pow2(9) == 512);
                assert(59904nat % 512nat == 0);
            } else if i == 5 {
                assert(dec_table(t)[5] == 0xee00u16);
                assert(pow2(8) == 256);
                assert(60928nat % 256nat == 0);
            } else if i == 6 {
                assert(dec_table(t)[6] == 0xf000u16);
                assert(pow2(7) == 128);
                assert(61440nat % 128nat == 0);
            } else if i == 7 {
                assert(dec_table(t)[7] == 0xf200u16);
                assert(pow2(6) == 64);
                assert(61952nat % 64nat == 0);
            } else if i == 8 {
                assert(dec_table(t)[8] == 0xf240u16);
                assert(pow2(5) == 32);
                assert(62016nat % 32nat == 0);
            }
        },
        Table::Hf0 => {
            assert(table_start(t) == 4);
            if i == 0 {
                assert(dec_table(t)[0] == 0x8000u16);
                assert(pow2(12) == 4096);
                assert(32768nat % 4096nat == 0);
            } else if i == 1 {
                assert(dec_table(t)[1] == 0xc000u16);
                assert(pow2(11) == 2048);
                assert(49152nat % 2048nat == 0);
            } else if i == 2 {
                assert(dec_table(t)[2] == 0xe000u16);
                assert(pow2(10) == 1024);
                assert(57344nat % 1024nat == 0);
            } else if i == 3 {
                assert(dec_table(t)[3] == 0xf200u16);
                assert(pow2(9) == 512);
                assert(61952nat % 512nat == 0);
            } else if i == 4 {
                assert(dec_table(t)[4] == 0xf200u16);
                assert(pow2(8) == 256);
                assert(61952nat % 256nat == 0);
            } else if i == 5 {
                assert(dec_table(t)[5] == 0xf200u16);
                assert(pow2(7) == 128);
                assert(61952nat % 128nat == 0);
            } else if i == 6 {
                assert(dec_table(t)[6] == 0xf200u16);
                assert(pow2(6) == 64);
                assert(61952nat % 64nat == 0);
            } else if i == 7 {
                assert(dec_table(t)[7] == 0xf200u16);
                assert(pow2(5) == 32);
                assert(61952nat % 32nat == 0);
            }
        },
        Table::Hf1 => {
            assert(table_start(t) == 5);
            if i == 0 {
                assert(dec_table(t)[0] == 0x2000u16);
                assert(pow2(11) == 2048);
                assert(8192nat % 2048nat == 0);
            } else if i == 1 {
                assert(dec_table(t)[1] == 0xc000u16);
                assert(pow2(10) == 1024);
                assert(49152nat % 1024nat == 0);
            } else if i == 2 {
                assert(dec_table(t)[2] == 0xe000u16);
                assert(pow2(9) == 512);
                assert(57344nat % 512nat == 0);
            } else if i == 3 {
                assert(dec_table(t)[3] == 0xf000u16);
                assert(pow2(8) == 256);
                assert(61440nat % 256nat == 0);
            } else if i == 4 {
                assert(dec_table(t)[4] == 0xf200u16);
                assert(pow2(7) == 128);
                assert(61952nat % 128nat == 0);
            } else if i == 5 {
                assert(dec_table(t)[5] == 0xf200u16);
                assert(pow2(6) == 64);
                assert(61952nat % 64nat == 0);
            } else if i == 6 {
                assert(dec_table(t)[6] == 0xf7e0u16);
                assert(pow2(5) == 32);
                assert(63456nat % 32nat == 0);
            }
        },
        Table::Hf2 => {
            assert(table_start(t) == 5);
            if i == 0 {
                assert(dec_table(t)[0] == 0x1000u16);
                assert(pow2(11) == 2048);
                assert(4096nat % 2048nat == 0);
            } else if i == 1 {
                assert(dec_table(t)[1] == 0x2400u16);
                assert(pow2(10) == 1024);
                assert(9216nat % 1024nat == 0);
            } else if i == 2 {
                assert(dec_table(t)[2] == 0x8000u16);
                assert(pow2(9) == 512);
                assert(32768nat % 512nat == 0);
            } else if i == 3 {
                assert(dec_table(t)[3] == 0xc000u16);
                assert(pow2(8) == 256);
                assert(49152nat % 256nat == 0);
            } else if i == 4 {
                assert(dec_table(t)[4] == 0xfa00u16);
                assert(pow2(7) == 128);
                assert(64000nat % 128nat == 0);
            }
        },
        Table::Hf3 => {
            assert(table_start(t) == 6);
            if i == 0 {
                assert(dec_table(t)[0] == 0x800u16);
                assert(pow2(10) == 1024);
                assert(2048nat % 1024nat == 0);
            } else if i == 1 {
                assert(dec_table(t)[1] == 0x2400u16);
                assert(pow2(9) == 512);
                assert(9216nat % 512nat == 0);
            } else if i == 2 {
                assert(dec_table(t)[2] == 0xee00u16);
                assert(pow2(8) == 256);
                assert(60928nat % 256nat == 0);
            } else if i == 3 {
                assert(dec_table(t)[3] == 0xfe80u16);
                assert(pow2(7) == 128);
                assert(65152nat % 128nat == 0);
            }
        },
        Table::Hf4 => {
            assert(table_start(t) == 8);
            if i == 0 {
                assert(dec_table(t)[0] == 0xff00u16);
                assert(pow2(8) == 256);
                assert(65280nat % 256nat == 0);
            }
        },
    }
}

proof fn lemma_boundary_index(dec: Seq<u16>, num: int, i: int, k: int)
    requires
        0 <= i <= k < dec.len(),
        dec[k] > num,
        forall|j: int| 0 <= j < i ==> dec[j] <= num,
    ensures
        i <= boundary_index(dec, num, i) <= k,
        forall|j: int| 0 <= j < boundary_index(dec, num, i) ==> dec[j] <= num,
        dec[boundary_index(dec, num, i)] > num,
    decreases k - i,
{
    if dec[i] > num {
    } else {
        lemma_boundary_index(dec, num, i + 1, k);
    }
}

/// The decoded symbol is below 4352 and the code length between 2 and 12.
pub proof fn lemma_decode_num_bounds(t: Table, bit_field: u32)
    ensures
        decode_num_spec(t, bit_field).0 < 4352,
        2 <= decode_num_spec(t, bit_field).1 <= 12,
{
    lemma_table_shape(t);
    let num = (bit_field & 0xfff0) as int;
    assert((bit_field & 0xfff0) <= 0xfff0) by (bit_vector);
    lemma_boundary_index(dec_table(t), num, 0, first_full(t));
    let i = boundary_index(dec_table(t), num, 0);
    let sp = table_start(t) + i;
    let base: int = if i > 0 {
        dec_table(t)[i - 1] as int
    } else {
        0
    };
    let x = (num - base) as u32;
    let s = (16 - sp) as u32;
    assert(x <= 0xfff0);
    assert(4 <= s <= 16);
    assert(x >> s <= 0xfff) by (bit_vector)
        requires
            x <= 0xfff0,
            4 <= s,
    ;
    assert(pos_table(t)[sp] <= 255);
}

fn dec_at(t: Table, i: usize) -> (v: u16)
    requires
        i < dec_table(t).len(),
    ensures
        v == dec_table(t)[i as int],
{
    match t {
        Table::L1 => {
            let a: [u16; 11] = [
                0x8000,
                0xa000,
                0xc000,
                0xd000,
                0xe000,
                0xea00,
                0xee00,
                0xf000,
                0xf200,
                0xf200,
                0xffff,
            ];
            assert(a@ =~= dec_table(t));
            a[i]
        },
        Table::L2 => {
            let a: [u16; 10] = [
                0xa000,
                0xc000,
                0xd000,
                0xe000,
                0xea00,
                0xee00,
                0xf000,
                0xf200,
                0xf240,
                0xffff,
            ];
            assert(a@ =~= dec_table(t));
            a[i]
        },
        Table::Hf0 => {
            let a: [u16; 9] = [
                0x8000,
                0xc000,
                0xe000,
                0xf200,
                0xf200,
                0xf200,
                0xf200,
                0xf200,
                0xffff,
            ];
            assert(a@ =~= dec_table(t));
            a[i]
        },
        Table::Hf1 => {
            let a: [u16; 8] = [0x2000, 0xc000, 0xe000, 0xf000, 0xf200, 0xf200, 0xf7e0, 0xffff];
            assert(a@ =~= dec_table(t));
            a[i]
        },
        Table::Hf2 => {
            let a: [u16; 8] = [0x1000, 0x2400, 0x8000, 0xc000, 0xfa00, 0xffff, 0xffff, 0xffff];
            assert(a@ =~= dec_table(t));
            a[i]
        },
        Table::Hf3 => {
            let a: [u16; 7] = [0x0800, 0x2400, 0xee00, 0xfe80, 0xffff, 0xffff, 0xffff];
            assert(a@ =~= dec_table(t));
            a[i]
        },
        Table::Hf4 => {
            let a: [u16; 6] = [0xff00, 0xffff, 0xffff, 0xffff, 0xffff, 0xffff];
            assert(a@ =~= dec_table(t));
            a[i]
        },
    }
}

fn pos_at(t: Table, i: usize) -> (v: u16)
    requires
        i < 13,
    ensures
        v == pos_table(t)[i as int],
{
    let a: [u16; 13] = match t {
        Table::L1 => [0, 0, 0, 2, 3, 5, 7, 11, 16, 20, 24, 32, 32],
        Table::L2 => [0, 0, 0, 0, 5, 7, 9, 13, 18, 22, 26, 34, 36],
        Table::Hf0 => [0, 0, 0, 0, 0, 8, 16, 24, 33, 33, 33, 33, 33],
        Table::Hf1 => [0, 0, 0, 0, 0, 0, 4, 44, 60, 76, 80, 80, 127],
        Table::Hf2 => [0, 0, 0, 0, 0, 0, 2, 7, 53, 117, 233, 0, 0],
        Table::Hf3 => [0, 0, 0, 0, 0, 0, 0, 2, 16, 218, 251, 0, 0],
        Table::Hf4 => [0, 0, 0, 0, 0, 0, 0, 0, 0, 255, 0, 0, 0],
    };
    assert(a@ =~= pos_table(t));
    a[i]
}

/// The shortest code length of a table.
pub fn start_of(t: Table) -> (s: u32)
    ensures
        s == table_start(t),
{
    match t {
        Table::L1 => 2,
        Table::L2 => 3,
        Table::Hf0 => 4,
        Table::Hf1 => 5,
        Table::Hf2 => 5,
        Table::Hf3 => 6,
        Table::Hf4 => 8,
    }
}

/// Decodes one table symbol from a 16-bit bit field: the symbol number and the
/// number of bits its code takes.
pub fn simulate_decode_num(bit_field: u32, t: Table) -> (r: (u32, u32))
    ensures
        r == decode_num_spec(t, bit_field),
        r.0 < 4352,
        2 <= r.1 <= 12,
{
    proof {
        lemma_table_shape(t);
        lemma_decode_num_bounds(t, bit_field);
        assert((bit_field & 0xfff0) <= 0xfff0) by (bit_vector);
        lemma_boundary_index(dec_table(t), (bit_field & 0xfff0) as int, 0, first_full(t));
    }
    let num = bit_field & 0xfff0;
    let mut start_pos = start_of(t);
    let mut i: usize = 0;
    while dec_at(t, i) as u32 <= num
        invariant
            i < dec_table(t).len(),
            start_pos == table_start(t) + i,
            forall|j: int| 0 <= j < i ==> dec_table(t)[j] <= num,
            boundary_index(dec_table(t), num as int, 0) >= i,
            dec_table(t)[boundary_index(dec_table(t), num as int, 0)] > num,
            boundary_index(dec_table(t), num as int, 0) <= first_full(t),
            0 <= first_full(t) < dec_table(t).len(),
            table_start(t) + first_full(t) <= 12,
            forall|j: int|
                0 <= j < boundary_index(dec_table(t), num as int, 0) ==> dec_table(t)[j] <= num,
        decreases dec_table(t).len() - i,
    {
        start_pos = start_pos + 1;
        i = i + 1;
    }
    let base: u32 = if i > 0 {
        dec_at(t, i - 1) as u32
    } else {
        0
    };
    assert(base <= num);
    assert(start_pos <= 12);
    let diff = num - base;
    let shift = 16 - start_pos;
    assert(diff >> shift <= 0xfff) by (bit_vector)
        requires
            diff <= 0xfff0,
            shift >= 4,
    ;
    let value = (diff >> shift) + pos_at(t, start_pos as usize) as u32;
    (value, start_pos)
}

/// Resets the adaptive ranks of a symbol table: the low byte of each entry
/// becomes the rank of its 32-entry block (7 for the first block down to 0),
/// and the rank-to-place table points at the start of each block.
pub fn corr_huff(char_set: &mut Vec<u16>, num_to_place: &mut Vec<u8>)
    requires
        old(char_set)@.len() == 256,
        old(num_to_place)@.len() == 256,
    ensures
        final(char_set)@.len() == 256,
        final(num_to_place)@.len() == 256,
        forall|i: int|
            0 <= i < 256 ==> #[trigger] final(char_set)@[i] == (old(char_set)@[i] & 0xff00) | (7
                - i / 32) as u16,
        forall|r: int|
            0 <= r < 256 ==> #[trigger] final(num_to_place)@[r] == if r < 7 {
                ((7 - r) * 32) as u8
            } else {
                0u8
            },
{
    let ghost orig = char_set@;
    let mut pos: usize = 0;
    while pos < 256
        invariant
            pos <= 256,
            char_set@.len() == 256,
            forall|i: int|
                0 <= i < pos ==> #[trigger] char_set@[i] == (orig[i] & 0xff00) | (7 - i / 32) as u16,
            forall|i: int| pos <= i < 256 ==> #[trigger] char_set@[i] == orig[i],
        decreases 256 - pos,
    {
        let rank: u16 = (7 - pos / 32) as u16;
        let v = char_set[pos];
        char_set.set(pos, (v & 0xff00) | rank);
        pos = pos + 1;
    }
    let mut r: usize = 0;
    while r < 256
        invariant
            r <= 256,
            num_to_place@.len() == 256,
            forall|j: int|
                0 <= j < r ==> #[trigger] num_to_place@[j] == if j < 7 {
                    ((7 - j) * 32) as u8
                } else {
                    0u8
                },
        decreases 256 - r,
    {
        if r < 7 {
            num_to_place.set(r, ((7 - r) * 32) as u8);
        } else {
            num_to_place.set(r, 0);
        }
        r = r + 1;
    }
}

/// The low byte of an entry after `corr_huff` is its rank, at most 7, and the
/// high byte is unchanged.
pub proof fn lemma_corr_entry(v: u16, rank: u16)
    requires
        rank <= 7,
    ensures
        ((v & 0xff00) | rank) & 0xff == rank,
        ((v & 0xff00) | rank) >> 8 == v >> 8,
{
    assert(((v & 0xff00) | rank) & 0xff == rank && ((v & 0xff00) | rank) >> 8 == v >> 8)
        by (bit_vector)
        requires
            rank <= 7,
    ;
}

/// A match against earlier input: copy `length` bytes from `distance` back.
#[derive(Debug, Clone, Copy, PartialEq, Eq, Structural)]
pub struct LongLz {
    pub distance: u32,
    pub length: u32,
}

/// A short-distance match (distance at most 256, length at most 10).
#[derive(Debug, Clone, Copy, PartialEq, Eq, Structural)]
pub struct ShortLz {
    pub distance: u32,
    pub length: u32,
}

/// How many bytes from `pos` on repeat the bytes `d` earlier, counting from
/// `l` and stopping at `max`.
pub open spec fn run_len(input: Seq<u8>, pos: int, d: int, max: int, l: int) -> int
    decreases max - l,
{
    if l < max && pos + l < input.len() && input[pos + l] == input[pos + l - d] {
        run_len(input, pos, d, max, l + 1)
    } else {
        l
    }
}

/// The length (at most `max`) of the match at distance `d` for position `pos`.
pub open spec fn match_len(input: Seq<u8>, pos: int, d: int, max: int) -> int {
    run_len(input, pos, d, max, 0)
}

/// The best match among distances `lo..=hi`: `m` is a match of at least three
/// bytes, no distance in range matches longer, and no shorter distance matches
/// as long.
pub open spec fn is_best_match(
    input: Seq<u8>,
    pos: int,
    lo: int,
    hi: int,
    max: int,
    d: int,
    len: int,
) -> bool {
    &&& lo <= d <= hi
    &&& len >= 3
    &&& len == match_len(input, pos, d, max)
    &&& forall|e: int| lo <= e <= hi ==> #[trigger] match_len(input, pos, e, max) <= len
    &&& forall|e: int| lo <= e < d ==> #[trigger] match_len(input, pos, e, max) < len
}

/// No distance in `lo..=hi` gives a match of three bytes.
pub open spec fn no_match(input: Seq<u8>, pos: int, lo: int, hi: int, max: int) -> bool {
    forall|e: int| lo <= e <= hi ==> #[trigger] match_len(input, pos, e, max) < 3
}

proof fn lemma_run_len_bounds(input: Seq<u8>, pos: int, d: int, max: int, l: int)
    requires
        0 <= l <= max,
    ensures
        l <= run_len(input, pos, d, max, l) <= max,
    decreases max - l,
{
    if l < max && pos + l < input.len() && input[pos + l] == input[pos + l - d] {
        lemma_run_len_bounds(input, pos, d, max, l + 1);
    }
}

/// The length of the match at distance `distance`, at most `max`.
fn measure_match(input: &[u8], pos: usize, distance: usize, max: usize) -> (len: usize)
    requires
        1 <= distance <= pos,
        pos <= input@.len(),
        max <= 18,
    ensures
        len == match_len(input@, pos as int, distance as int, max as int),
        len <= max,
        len <= input@.len() - pos,
{
    let mut length: usize = 0;
    proof {
        lemma_run_len_bounds(input@, pos as int, distance as int, max as int, 0);
    }
    while length < max && length < input.len() - pos && input[pos + length] == input[pos + length
        - distance]
        invariant
            length <= max,
            pos <= input@.len(),
            length <= input@.len() - pos,
            1 <= distance <= pos,
            run_len(input@, pos as int, distance as int, max as int, 0) == run_len(
                input@,
                pos as int,
                distance as int,
                max as int,
                length as int,
            ),
        decreases max - length,
    {
        length = length + 1;
    }
    length
}

/// Searches distances `lo..=hi` for the best match of at most `max` bytes.
fn best_match(input: &[u8], pos: usize, lo: usize, hi: usize, max: usize) -> (best: (usize, usize))
    requires
        1 <= lo <= hi,
        hi <= 0x8000,
        hi <= pos,
        pos <= input@.len(),
        3 <= max <= 18,
    ensures
        best.1 >= 3 ==> is_best_match(
            input@,
            pos as int,
            lo as int,
            hi as int,
            max as int,
            best.0 as int,
            best.1 as int,
        ),
        best.1 < 3 ==> no_match(input@, pos as int, lo as int, hi as int, max as int),
        best.1 <= max,
        best.1 <= input@.len() - pos,
{
    let mut best_distance: usize = 0;
    let mut best_length: usize = 0;
    let mut distance = lo;
    while distance <= hi
        invariant
            1 <= lo <= distance,
            hi <= 0x8000,
            hi <= pos <= input@.len(),
            3 <= max <= 18,
            distance <= hi + 1,
            best_length <= max,
            best_length <= input@.len() - pos,
            best_length >= 3 ==> is_best_match(
                input@,
                pos as int,
                lo as int,
                (distance - 1) as int,
                max as int,
                best_distance as int,
                best_length as int,
            ),
            best_length < 3 ==> best_length == 0 && no_match(
                input@,
                pos as int,
                lo as int,
                (distance - 1) as int,
                max as int,
            ),
        decreases hi + 1 - distance,
    {
        let length = measure_match(input, pos, distance, max);
        if length >= 3 && length > best_length {
            best_distance = distance;
            best_length = length;
        }
        distance = distance + 1;
    }
    (best_distance, best_length)
}

/// Finds the best short match at `pos`: distances 1 to 256, 3 to 10 bytes.
pub fn find_short_lz(input: &[u8], pos: usize) -> (r: Option<ShortLz>)
    ensures
        pos > input@.len() ==> r is None,
        r matches Some(m) ==> m.length <= input@.len() - pos && 3 <= m.length <= 10 && 1
            <= m.distance <= 256,
        pos <= input@.len() ==> match r {
            Some(m) => pos >= 2 && is_best_match(
                input@,
                pos as int,
                1,
                if pos < 256 {
                    pos as int
                } else {
                    256
                },
                10,
                m.distance as int,
                m.length as int,
            ),
            None => pos < 2 || no_match(
                input@,
                pos as int,
                1,
                if pos < 256 {
                    pos as int
                } else {
                    256
                },
                10,
            ),
        },
{
    if pos < 2 || pos > input.len() {
        return None;
    }
    let max_distance = if pos < 256 {
        pos
    } else {
        256
    };
    let (distance, length) = best_match(input, pos, 1, max_distance, 10);
    if length >= 3 {
        Some(ShortLz { distance: distance as u32, length: length as u32 })
    } else {
        None
    }
}

/// Finds the best long match at `pos`: distances 257 to 32768, 3 to 18 bytes.
pub fn find_long_lz(input: &[u8], pos: usize) -> (r: Option<LongLz>)
    ensures
        pos > input@.len() ==> r is None,
        r matches Some(m) ==> m.length <= input@.len() - pos && 3 <= m.length <= 18 && 257
            <= m.distance <= 0x8000,
        pos <= input@.len() ==> match r {
            Some(m) => pos >= 257 && is_best_match(
                input@,
                pos as int,
                257,
                if pos < 0x8000 {
                    pos as int
                } else {
                    0x8000
                },
                18,
                m.distance as int,
                m.length as int,
            ),
            None => pos < 257 || no_match(
                input@,
                pos as int,
                257,
                if pos < 0x8000 {
                    pos as int
                } else {
                    0x8000
                },
                18,
            ),
        },
{
    if pos < 257 || pos > input.len() {
        return None;
    }
    let max_distance = if pos < 0x8000 {
        pos
    } else {
        0x8000
    };
    let (distance, length) = best_match(input, pos, 257, max_distance, 18);
    if length >= 3 {
        Some(LongLz { distance: distance as u32, length: length as u32 })
    } else {
        None
    }
}

/// Table `t` has a code that the decoder reads as `target`.
pub open spec fn has_code(t: Table, target: u32) -> bool {
    exists|len: u32, code: u32|
        #![trigger decode_num_spec(t, code << (16 - len) as u32)]
        table_start(t) <= len <= 16 && code < (1u32 << len) && decode_num_spec(
            t,
            code << (16 - len) as u32,
        ) == (target, len)
}

/// `after` is `before` followed by a code of table `t` that the decoder reads
/// as `target`.
pub open spec fn appends_code(before: Seq<bool>, after: Seq<bool>, t: Table, target: u32) -> bool {
    exists|len: u32, code: u32|
        #![trigger value_bits(code, len as nat)]
        table_start(t) <= len <= 16 && code < (1u32 << len) && decode_num_spec(
            t,
            code << (16 - len) as u32,
        ) == (target, len) && after == before + value_bits(code, len as nat)
}

/// The first `i` boundaries of a table, at most ten of them, lie at or
/// below `base`.
pub open spec fn dec_below(dec: Seq<u16>, i: int, base: int) -> bool {
    &&& i <= 10
    &&& (i <= 0 || dec[0] <= base)
    &&& (i <= 1 || dec[1] <= base)
    &&& (i <= 2 || dec[2] <= base)
    &&& (i <= 3 || dec[3] <= base)
    &&& (i <= 4 || dec[4] <= base)
    &&& (i <= 5 || dec[5] <= base)
    &&& (i <= 6 || dec[6] <= base)
    &&& (i <= 7 || dec[7] <= base)
    &&& (i <= 8 || dec[8] <= base)
    &&& (i <= 9 || dec[9] <= base)
}

/// Place `p` has a code of length `table_start(t) + i` in table `t` when it
/// lies among the places that length covers: its code starts at the boundary
/// below, `p - pos` codes on, and stays under the boundary above.
proof fn lemma_place_has_code(t: Table, i: int, p: u32)
    requires
        0 <= i < dec_table(t).len(),
        4 <= 16 - (table_start(t) + i) <= 14,
        pos_table(t).len() == 13,
        pos_table(t)[table_start(t) + i] <= p,
        ({
            let sh = (16 - (table_start(t) + i)) as nat;
            let base: int = if i > 0 {
                dec_table(t)[i - 1] as int
            } else {
                0
            };
            &&& base % pow2(sh) as int == 0
            &&& base + (p - pos_table(t)[table_start(t) + i]) * pow2(sh) < dec_table(t)[i]
            &&& dec_below(dec_table(t), i, base)
        }),
    ensures
        has_code(t, p),
{
    assert forall|j: int| 0 <= j < i implies #[trigger] dec_table(t)[j] <= (if i > 0 {
        dec_table(t)[i - 1] as int
    } else {
        0
    }) by {
        if j == 0 {
        } else if j == 1 {
        } else if j == 2 {
        } else if j == 3 {
        } else if j == 4 {
        } else if j == 5 {
        } else if j == 6 {
        } else if j == 7 {
        } else if j == 8 {
        } else {
            assert(j == 9);
        }
    }
    lemma2_to64();
    let dec = dec_table(t);
    let sp = table_start(t) + i;
    let sh = (16 - sp) as nat;
    let big_p = pow2(sh) as int;
    let base: int = if i > 0 {
        dec[i - 1] as int
    } else {
        0
    };
    let k: int = p - pos_table(t)[sp];
    vstd::arithmetic::power2::lemma_pow2_pos(sh);
    vstd::arithmetic::power2::lemma_pow2_adds(sp as nat, sh);
    assert(pow2(16) == 0x10000);
    assert(0 <= k * big_p) by (nonlinear_arith)
        requires
            k >= 0,
            big_p > 0,
    ;
    let y: int = base + k * big_p;
    assert(y < 0x10000);
    let q: int = base / big_p;
    assert(q * big_p == base) by (nonlinear_arith)
        requires
            big_p > 0,
            base % big_p == 0,
            q == base / big_p,
    ;
    let code_int: int = q + k;
    assert(code_int * big_p == y) by (nonlinear_arith)
        requires
            q * big_p == base,
            y == base + k * big_p,
            code_int == q + k,
    ;
    assert(code_int >= 0) by (nonlinear_arith)
        requires
            code_int * big_p == y,
            y >= 0,
            big_p > 0,
    ;
    assert(code_int < pow2(sp as nat)) by (nonlinear_arith)
        requires
            code_int * big_p == y,
            y < 0x10000,
            pow2(sp as nat) * big_p == 0x10000,
            big_p > 0,
    ;
    let code = code_int as u32;
    let len = sp as u32;
    vstd::bits::lemma_u32_shl_is_mul(1u32, len);
    assert(code < (1u32 << len));
    vstd::bits::lemma_u32_shl_is_mul(code, sh as u32);
    let field = code << (16 - len) as u32;
    assert(field == y);
    assert(big_p % 16 == 0) by {
        vstd::arithmetic::power2::lemma_pow2_adds(4, (sh - 4) as nat);
        assert(pow2(4) == 16);
        assert(big_p == 16 * pow2((sh - 4) as nat));
    }
    assert(big_p == 16 * pow2((sh - 4) as nat)) by {
        vstd::arithmetic::power2::lemma_pow2_adds(4, (sh - 4) as nat);
        assert(pow2(4) == 16);
    }
    let m = pow2((sh - 4) as nat) as int;
    assert(y == (code_int * m) * 16) by (nonlinear_arith)
        requires
            y == code_int * big_p,
            big_p == 16 * m,
    ;
    vstd::arithmetic::div_mod::lemma_mod_multiples_basic(code_int * m, 16);
    assert((field & 0xfff0) == field) by (bit_vector)
        requires
            field < 0x10000,
            field % 16 == 0,
    ;
    lemma_boundary_index(dec, y, 0, i);
    let bi = boundary_index(dec, y, 0);
    if bi < i {
        assert(dec[bi] <= base);
    }
    assert(bi == i);
    let x = (y - base) as u32;
    vstd::bits::lemma_u32_shr_is_div(x, sh as u32);
    assert(x as int == k * big_p);
    assert((k * big_p) / big_p == k) by (nonlinear_arith)
        requires
            big_p > 0,
    ;
    assert(decode_num_spec(t, field) == (p, len));
}

/// Every place of a byte has a code in each of the literal tables.
pub proof fn lemma_byte_tables_cover(t: Table, p: u32)
    requires
        !(t is L1) && !(t is L2),
        p < 256,
    ensures
        has_code(t, p),
{
    lemma2_to64();
    match t {
        Table::Hf0 => {
            let d = dec_table(t);
            let ps = pos_table(t);
            assert(d.len() == 9);
            assert(ps.len() == 13);
            assert(d[0] == 0x8000u16);
            assert(d[1] == 0xc000u16);
            assert(d[2] == 0xe000u16);
            assert(d[3] == 0xf200u16);
            assert(d[4] == 0xf200u16);
            assert(d[5] == 0xf200u16);
            assert(d[6] == 0xf200u16);
            assert(d[7] == 0xf200u16);
            assert(d[8] == 0xffffu16);
            assert(ps[0] == 0u16);
            assert(ps[1] == 0u16);
            assert(ps[2] == 0u16);
            assert(ps[3] == 0u16);
            assert(ps[4] == 0u16);
            assert(ps[5] == 8u16);
            assert(ps[6] == 16u16);
            assert(ps[7] == 24u16);
            assert(ps[8] == 33u16);
            assert(ps[9] == 33u16);
            assert(ps[10] == 33u16);
            assert(ps[11] == 33u16);
            assert(ps[12] == 33u16);
            if p < 8 {
                assert(pow2(12) == 4096);
                assert(0int % (pow2(12) as int) == 0);
                assert(0int + (p - ps[4]) * pow2(12) < d[0]);
                lemma_place_has_code(t, 0, p);
            } else if p < 16 {
                assert(pow2(11) == 2048);
                assert((d[0] as int) % (pow2(11) as int) == 0);
                assert((d[0] as int) + (p - ps[5]) * pow2(11) < d[1]);
                lemma_place_has_code(t, 1, p);
            } else if p < 24 {
                assert(pow2(10) == 1024);
                assert((d[1] as int) % (pow2(10) as int) == 0);
                assert((d[1] as int) + (p - ps[6]) * pow2(10) < d[2]);
                lemma_place_has_code(t, 2, p);
            } else if p < 33 {
                assert(pow2(9) == 512);
                assert((d[2] as int) % (pow2(9) as int) == 0);
                assert((d[2] as int) + (p - ps[7]) * pow2(9) < d[3]);
                lemma_place_has_code(t, 3, p);
            } else {
                assert(pow2(4) == 16);
                assert((d[7] as int) % (pow2(4) as int) == 0);
                assert((d[7] as int) + (p - ps[12]) * pow2(4) < d[8]);
                lemma_place_has_code(t, 8, p);
            }
        },
        Table::Hf1 => {
            let d = dec_table(t);
            let ps = pos_table(t);
            assert(d.len() == 8);
            assert(ps.len() == 13);
            assert(d[0] == 0x2000u16);
            assert(d[1] == 0xc000u16);
            assert(d[2] == 0xe000u16);
            assert(d[3] == 0xf000u16);
            assert(d[4] == 0xf200u16);
            assert(d[5] == 0xf200u16);
            assert(d[6] == 0xf7e0u16);
            assert(d[7] == 0xffffu16);
            assert(ps[0] == 0u16);
            assert(ps[1] == 0u16);
            assert(ps[2] == 0u16);
            assert(ps[3] == 0u16);
            assert(ps[4] == 0u16);
            assert(ps[5] == 0u16);
            assert(ps[6] == 4u16);
            assert(ps[7] == 44u16);
            assert(ps[8] == 60u16);
            assert(ps[9] == 76u16);
            assert(ps[10] == 80u16);
            assert(ps[11] == 80u16);
            assert(ps[12] == 127u16);
            if p < 4 {
                assert(pow2(11) == 2048);
                assert(0int % (pow2(11) as int) == 0);
                assert(0int + (p - ps[5]) * pow2(11) < d[0]);
                lemma_place_has_code(t, 0, p);
            } else if p < 44 {
                assert(pow2(10) == 1024);
                assert((d[0] as int) % (pow2(10) as int) == 0);
                assert((d[0] as int) + (p - ps[6]) * pow2(10) < d[1]);
                lemma_place_has_code(t, 1, p);
            } else if p < 60 {
                assert(pow2(9) == 512);
                assert((d[1] as int) % (pow2(9) as int) == 0);
                assert((d[1] as int) + (p - ps[7]) * pow2(9) < d[2]);
                lemma_place_has_code(t, 2, p);
            } else if p < 76 {
                assert(pow2(8) == 256);
                assert((d[2] as int) % (pow2(8) as int) == 0);
                assert((d[2] as int) + (p - ps[8]) * pow2(8) < d[3]);
                lemma_place_has_code(t, 3, p);
            } else if p < 80 {
                assert(pow2(7) == 128);
                assert((d[3] as int) % (pow2(7) as int) == 0);
                assert((d[3] as int) + (p - ps[9]) * pow2(7) < d[4]);
                lemma_place_has_code(t, 4, p);
            } else if p < 127 {
                assert(pow2(5) == 32);
                assert((d[5] as int) % (pow2(5) as int) == 0);
                assert((d[5] as int) + (p - ps[11]) * pow2(5) < d[6]);
                lemma_place_has_code(t, 6, p);
            } else {
                assert(pow2(4) == 16);
                assert((d[6] as int) % (pow2(4) as int) == 0);
                assert((d[6] as int) + (p - ps[12]) * pow2(4) < d[7]);
                lemma_place_has_code(t, 7, p);
            }
        },
        Table::Hf2 => {
            let d = dec_table(t);
            let ps = pos_table(t);
            assert(d.len() == 8);
            assert(ps.len() == 13);
            assert(d[0] == 0x1000u16);
            assert(d[1] == 0x2400u16);
            assert(d[2] == 0x8000u16);
            assert(d[3] == 0xc000u16);
            assert(d[4] == 0xfa00u16);
            assert(d[5] == 0xffffu16);
            assert(d[6] == 0xffffu16);
            assert(d[7] == 0xffffu16);
            assert(ps[0] == 0u16);
            assert(ps[1] == 0u16);
            assert(ps[2] == 0u16);
            assert(ps[3] == 0u16);
            assert(ps[4] == 0u16);
            assert(ps[5] == 0u16);
            assert(ps[6] == 2u16);
            assert(ps[7] == 7u16);
            assert(ps[8] == 53u16);
            assert(ps[9] == 117u16);
            assert(ps[10] == 233u16);
            assert(ps[11] == 0u16);
            assert(ps[12] == 0u16);
            if p < 2 {
                assert(pow2(11) == 2048);
                assert(0int % (pow2(11) as int) == 0);
                assert(0int + (p - ps[5]) * pow2(11) < d[0]);
                lemma_place_has_code(t, 0, p);
            } else if p < 7 {
                assert(pow2(10) == 1024);
                assert((d[0] as int) % (pow2(10) as int) == 0);
                assert((d[0] as int) + (p - ps[6]) * pow2(10) < d[1]);
                lemma_place_has_code(t, 1, p);
            } else if p < 53 {
                assert(pow2(9) == 512);
                assert((d[1] as int) % (pow2(9) as int) == 0);
                assert((d[1] as int) + (p - ps[7]) * pow2(9) < d[2]);
                lemma_place_has_code(t, 2, p);
            } else if p < 117 {
                assert(pow2(8) == 256);
                assert((d[2] as int) % (pow2(8) as int) == 0);
                assert((d[2] as int) + (p - ps[8]) * pow2(8) < d[3]);
                lemma_place_has_code(t, 3, p);
            } else if p < 233 {
                assert(pow2(7) == 128);
                assert((d[3] as int) % (pow2(7) as int) == 0);
                assert((d[3] as int) + (p - ps[9]) * pow2(7) < d[4]);
                lemma_place_has_code(t, 4, p);
            } else {
                assert(pow2(6) == 64);
                assert((d[4] as int) % (pow2(6) as int) == 0);
                assert((d[4] as int) + (p - ps[10]) * pow2(6) < d[5]);
                lemma_place_has_code(t, 5, p);
            }
        },
        Table::Hf3 => {
            let d = dec_table(t);
            let ps = pos_table(t);
            assert(d.len() == 7);
            assert(ps.len() == 13);
            assert(d[0] == 0x0800u16);
            assert(d[1] == 0x2400u16);
            assert(d[2] == 0xee00u16);
            assert(d[3] == 0xfe80u16);
            assert(d[4] == 0xffffu16);
            assert(d[5] == 0xffffu16);
            assert(d[6] == 0xffffu16);
            assert(ps[0] == 0u16);
            assert(ps[1] == 0u16);
            assert(ps[2] == 0u16);
            assert(ps[3] == 0u16);
            assert(ps[4] == 0u16);
            assert(ps[5] == 0u16);
            assert(ps[6] == 0u16);
            assert(ps[7] == 2u16);
            assert(ps[8] == 16u16);
            assert(ps[9] == 218u16);
            assert(ps[10] == 251u16);
            assert(ps[11] == 0u16);
            assert(ps[12] == 0u16);
            if p < 2 {
                assert(pow2(10) == 1024);
                assert(0int % (pow2(10) as int) == 0);
                assert(0int + (p - ps[6]) * pow2(10) < d[0]);
                lemma_place_has_code(t, 0, p);
            } else if p < 16 {
                assert(pow2(9) == 512);
                assert((d[0] as int) % (pow2(9) as int) == 0);
                assert((d[0] as int) + (p - ps[7]) * pow2(9) < d[1]);
                lemma_place_has_code(t, 1, p);
            } else if p < 218 {
                assert(pow2(8) == 256);
                assert((d[1] as int) % (pow2(8) as int) == 0);
                assert((d[1] as int) + (p - ps[8]) * pow2(8) < d[2]);
                lemma_place_has_code(t, 2, p);
            } else if p < 251 {
                assert(pow2(7) == 128);
                assert((d[2] as int) % (pow2(7) as int) == 0);
                assert((d[2] as int) + (p - ps[9]) * pow2(7) < d[3]);
                lemma_place_has_code(t, 3, p);
            } else {
                assert(pow2(6) == 64);
                assert((d[3] as int) % (pow2(6) as int) == 0);
                assert((d[3] as int) + (p - ps[10]) * pow2(6) < d[4]);
                lemma_place_has_code(t, 4, p);
            }
        },
        Table::Hf4 => {
            let d = dec_table(t);
            let ps = pos_table(t);
            assert(d.len() == 6);
            assert(ps.len() == 13);
            assert(d[0] == 0xff00u16);
            assert(d[1] == 0xffffu16);
            assert(d[2] == 0xffffu16);
            assert(d[3] == 0xffffu16);
            assert(d[4] == 0xffffu16);
            assert(d[5] == 0xffffu16);
            assert(ps[0] == 0u16);
            assert(ps[1] == 0u16);
            assert(ps[2] == 0u16);
            assert(ps[3] == 0u16);
            assert(ps[4] == 0u16);
            assert(ps[5] == 0u16);
            assert(ps[6] == 0u16);
            assert(ps[7] == 0u16);
            assert(ps[8] == 0u16);
            assert(ps[9] == 255u16);
            assert(ps[10] == 0u16);
            assert(ps[11] == 0u16);
            assert(ps[12] == 0u16);
            if p < 255 {
                assert(pow2(8) == 256);
                assert(0int % (pow2(8) as int) == 0);
                assert(0int + (p - ps[8]) * pow2(8) < d[0]);
                lemma_place_has_code(t, 0, p);
            } else {
                assert(pow2(7) == 128);
                assert((d[0] as int) % (pow2(7) as int) == 0);
                assert((d[0] as int) + (p - ps[9]) * pow2(7) < d[1]);
                lemma_place_has_code(t, 1, p);
            }
        },
        _ => {},
    }
}

/// Writes the shortest-first, lowest-first code that `decode_num_spec` reads
/// back as `target` with table `t`: no shorter code, and no smaller code of
/// the same length, reads as `target`.
pub fn emit_decode_num(bits: &mut BitWriter, target: u32, t: Table) -> (r: Result<(), Error>)
    requires
        old(bits).wf(),
    ensures
        final(bits).wf(),
        r is Ok <==> has_code(t, target),
        r is Ok ==> appends_code(old(bits).view_bits(), final(bits).view_bits(), t, target),
        match r {
            Ok(()) => exists|len: u32, code: u32|
                #![trigger value_bits(code, len as nat)]
                table_start(t) <= len <= 16 && code < (1u32 << len) && decode_num_spec(
                    t,
                    code << (16 - len) as u32,
                ) == (target, len) && final(bits).view_bits() == old(bits).view_bits()
                    + value_bits(code, len as nat) && (forall|l: u32, c: u32|
                    table_start(t) <= l < len && c < (1u32 << l) ==> #[trigger] decode_num_spec(
                        t,
                        c << (16 - l) as u32,
                    ) != (target, l)) && (forall|c: u32|
                    c < code ==> #[trigger] decode_num_spec(t, c << (16 - len) as u32) != (
                        target,
                        len,
                    )),
            Err(e) => {
                &&& e == Error::InvalidData("RAR 1.3 DecodeNum value is not encodable")
                &&& final(bits).view_bits() == old(bits).view_bits()
                &&& forall|len: u32, code: u32|
                    table_start(t) <= len <= 16 && code < (1u32 << len)
                        ==> #[trigger] decode_num_spec(t, code << (16 - len) as u32) != (
                        target,
                        len,
                    )
            },
        },
{
    let start = start_of(t);
    let mut len: u32 = start;
    while len <= 16
        invariant
            table_start(t) <= len <= 17,
            start == table_start(t),
            bits.wf(),
            bits.view_bits() == old(bits).view_bits(),
            forall|l: u32, code: u32|
                table_start(t) <= l < len && code < (1u32 << l)
                    ==> #[trigger] decode_num_spec(t, code << (16 - l) as u32) != (target, l),
        decreases 17 - len,
    {
        let limit: u32 = 1u32 << len;
        let mut code: u32 = 0;
        while code < limit
            invariant
                table_start(t) <= len <= 16,
                limit == (1u32 << len),
                bits.wf(),
                bits.view_bits() == old(bits).view_bits(),
                code <= limit,
                forall|c: u32|
                    c < code ==> #[trigger] decode_num_spec(t, c << (16 - len) as u32) != (
                        target,
                        len,
                    ),
                forall|l: u32, c: u32|
                    table_start(t) <= l < len && c < (1u32 << l)
                        ==> #[trigger] decode_num_spec(t, c << (16 - l) as u32) != (target, l),
            decreases limit - code,
        {
            let bit_field = code << (16 - len);
            let (decoded, consumed) = simulate_decode_num(bit_field, t);
            if decoded == target && consumed == len {
                bits.write_bits(code, len as usize);
                return Ok(());
            }
            code = code + 1;
        }
        len = len + 1;
    }
    Err(Error::InvalidData("RAR 1.3 DecodeNum value is not encodable"))
}


/// A bit field that starts with a table code decodes to the same symbol and
/// length whatever bits follow the code: the codes of a table form a prefix
/// code.
pub proof fn lemma_code_prefix(t: Table, y: u32, r: u32)
    requires
        y < 0x10000,
        y as nat % pow2((16 - decode_num_spec(t, y).1) as nat) == 0,
        (r as nat) < pow2((16 - decode_num_spec(t, y).1) as nat),
    ensures
        y + r < 0x10000,
        decode_num_spec(t, (y + r) as u32) == decode_num_spec(t, y),
{
    lemma_table_shape(t);
    lemma_decode_num_bounds(t, y);
    let dec = dec_table(t);
    let len = decode_num_spec(t, y).1 as int;
    let s = (16 - len) as nat;
    let p = pow2(s);
    lemma2_to64();
    assert(4 <= s <= 14);
    vstd::arithmetic::power2::lemma_pow2_adds(4, (s - 4) as nat);
    assert(p == 16 * pow2((s - 4) as nat));
    vstd::arithmetic::power2::lemma_pow2_adds(s, (16 - s) as nat);
    assert(pow2(16) == p * pow2((16 - s) as nat));
    let k = y as nat / p;
    assert(y == k * p) by (nonlinear_arith)
        requires
            y as nat % p == 0,
            p > 0,
            k == y as nat / p,
    ;
    assert(y + p <= 0x10000) by (nonlinear_arith)
        requires
            y == k * p,
            y < 0x10000,
            0x10000 == p * pow2((16 - s) as nat),
            p > 0,
    ;
    let x = (y + r) as u32;
    let q = pow2((s - 4) as nat);
    assert(k * p == (k * q) * 16) by {
        vstd::arithmetic::mul::lemma_mul_is_associative(k as int, q as int, 16);
        vstd::arithmetic::mul::lemma_mul_is_commutative(q as int, 16);
        vstd::arithmetic::mul::lemma_mul_is_associative(k as int, 16, q as int);
    }
    vstd::arithmetic::div_mod::lemma_mod_multiples_basic((k * q) as int, 16);
    assert(y % 16 == 0);
    let ny = y & 0xfff0;
    let nx = x & 0xfff0;
    assert((y & 0xfff0) == y) by (bit_vector)
        requires
            y % 16 == 0,
            y < 0x10000,
    ;
    assert((x & 0xfff0) == x / 16 * 16 && (x & 0xfff0) <= x && (x & 0xfff0) <= 0xfff0) by (bit_vector)
        requires
            x < 0x10000,
    ;
    assert(ny <= nx) by (nonlinear_arith)
        requires
            ny == y,
            y % 16 == 0,
            x == y + r,
            nx == x / 16 * 16,
    ;
    lemma_boundary_index(dec, ny as int, 0, first_full(t));
    let i = boundary_index(dec, ny as int, 0);
    assert(len == table_start(t) + i);
    assert(dec[i] > nx) by {
        if i < first_full(t) {
            lemma_boundary_aligned(t, i);
            let d = dec[i] as int;
            let pi = p as int;
            vstd::arithmetic::div_mod::lemma_fundamental_div_mod(d, pi);
            vstd::arithmetic::div_mod::lemma_fundamental_div_mod(ny as int, pi);
            let qd = d / pi;
            let qn = (ny as int) / pi;
            assert(d >= ny + pi) by (nonlinear_arith)
                requires
                    d == pi * qd,
                    ny == pi * qn,
                    d > ny,
                    pi > 0,
            ;
        }
    }
    lemma_boundary_index(dec, nx as int, 0, i);
    let j = boundary_index(dec, nx as int, 0);
    assert(j == i);
    let base: int = if i > 0 {
        dec[i - 1] as int
    } else {
        0
    };
    assert(base % (p as int) == 0 && base <= ny) by {
        if i > 0 {
            lemma_boundary_aligned(t, i - 1);
            vstd::arithmetic::power2::lemma_pow2_unfold(s + 1);
            let bb = dec[i - 1] as int;
            let pi = p as int;
            vstd::arithmetic::div_mod::lemma_fundamental_div_mod(bb, 2 * pi);
            let m = bb / (2 * pi);
            assert(bb == (2 * m) * pi) by (nonlinear_arith)
                requires
                    bb == (2 * pi) * m + bb % (2 * pi),
                    bb % (2 * pi) == 0,
            ;
            vstd::arithmetic::div_mod::lemma_mod_multiples_basic(2 * m, pi);
        }
    }
    let a = (ny - base) as u32;
    let b = (nx - base) as u32;
    vstd::bits::lemma_u32_shr_is_div(a, s as u32);
    vstd::bits::lemma_u32_shr_is_div(b, s as u32);
    assert(a as int % (p as int) == 0) by {
        vstd::arithmetic::div_mod::lemma_fundamental_div_mod(ny as int, p as int);
        vstd::arithmetic::div_mod::lemma_fundamental_div_mod(base, p as int);
        let qa = (ny as int) / (p as int) - base / (p as int);
        assert(a as int == qa * (p as int)) by (nonlinear_arith)
            requires
                ny as int == (p as int) * ((ny as int) / (p as int)),
                base == (p as int) * (base / (p as int)),
                a as int == ny as int - base,
                qa == (ny as int) / (p as int) - base / (p as int),
        ;
        vstd::arithmetic::div_mod::lemma_mod_multiples_basic(qa, p as int);
    }
    assert(a as nat / p == b as nat / p) by {
        vstd::arithmetic::div_mod::lemma_fundamental_div_mod(a as int, p as int);
        let q2 = (a as int) / (p as int);
        vstd::arithmetic::div_mod::lemma_fundamental_div_mod_converse(
            b as int,
            p as int,
            q2,
            b as int - a as int,
        );
    }
}


/// A table code as the encoder emits it is read back by the decoder as the
/// symbol it was emitted for, with its length, whatever bits come before or
/// after it in the packed stream.
pub proof fn lemma_emitted_code_reads_back(
    t: Table,
    target: u32,
    len: u32,
    code: u32,
    before: Seq<bool>,
    after: Seq<bool>,
    out: Seq<u8>,
)
    requires
        table_start(t) <= len <= 16,
        code < (1u32 << len),
        decode_num_spec(t, code << (16 - len) as u32) == (target, len),
        packs(out, before + value_bits(code, len as nat) + after),
    ensures
        decode_num_spec(t, peek_bits(out, before.len() as int, 16) as u32) == (target, len),
{
    lemma2_to64();
    let s = (16 - len) as u32;
    vstd::bits::lemma_u32_shl_is_mul(1u32, len);
    assert(code < pow2(len as nat));
    vstd::arithmetic::power2::lemma_pow2_adds(len as nat, s as nat);
    assert(code * pow2(s as nat) < 0x10000) by (nonlinear_arith)
        requires
            code < pow2(len as nat),
            pow2(len as nat) * pow2(s as nat) == 0x10000,
    ;
    vstd::bits::lemma_u32_shl_is_mul(code, s);
    let y = code << s;
    assert(y == code * pow2(s as nat));
    vstd::arithmetic::div_mod::lemma_mod_multiples_basic(code as int, pow2(s as nat) as int);
    let p = before.len() as int;
    lemma_peek_split(out, p, len as nat, s as nat);
    lemma_peek_packed_value(out, before, code, len as nat, after);
    let r = peek_bits(out, p + len, s as nat);
    lemma_peek_bits_bound(out, p + len, s as nat);
    assert(r < 0x10000);
    lemma_code_prefix(t, y, r as u32);
    assert(peek_bits(out, p, 16) == y + r);
}

} // verus!
