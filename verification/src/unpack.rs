use vstd::prelude::*;

use crate::bitio::{peek_bits, BitReader};
use crate::decoding::{
    new_decoder_view, lemma_run_errors, fresh_member, member_start, lemma_prefixed_twice, prefixed, long_read_spec, short_far_spec, short_old_spec, short_ranked_spec, copy_spec, flags_spec, huff_spec, literal_spec, long_spec, member_spec, next_flag_spec,
    put_spec, remember_spec, run_spec, short_spec, step_spec, unpack15_spec, DecView, Stepped,
};
use crate::pack::{
    every_value, holds_value, lemma_promote_keeps_values, literal_table_for, long_distance_table,
    promote,
};
use crate::codec::{
    corr_huff, decode_num_spec, lemma_corr_entry, lemma_decode_num_bounds, simulate_decode_num, Error,
    Table,
};

verus! {

/// The window size of the RAR 1.3 decoder.
pub open spec fn window_size() -> int {
    0x10000
}

/// Bound on the running average of literal places.
pub open spec fn avr_plc_max() -> u32 {
    65280
}

/// Bound on the running average of LongLZ distance places.
pub open spec fn avr_plc_b_max() -> u32 {
    1114112
}

/// Bound on the running average of ShortLZ lengths.
pub open spec fn avr_ln1_max() -> u32 {
    240
}

/// Bound on the running average of LongLZ lengths.
pub open spec fn avr_ln2_max() -> u32 {
    139264
}

/// Bound on the LongLZ length statistic.
pub open spec fn avr_ln3_max() -> u32 {
    256
}

/// A running average `x` that takes in `p <= bound` and sheds `x / k` stays
/// within `k * bound`.
pub proof fn lemma_decay(x: u32, p: u32, bound: u32, k: u32)
    requires
        1 <= k <= 256,
        bound <= 4352,
        x <= k * bound,
        p <= bound,
    ensures
        (x + p) - (x + p) / (k as int) <= k * bound,
        (x + p) / (k as int) <= x + p,
{
    let y = (x + p) as int;
    let kk = k as int;
    let b = bound as int;
    assert(y - y / kk <= kk * b) by (nonlinear_arith)
        requires
            y <= kk * b + b,
            kk >= 1,
            b >= 0,
            y >= 0,
    {
        if y > kk * b {
            let d = y - kk * b;
            assert(d <= b);
            assert(y >= kk * d);
            assert(y / kk >= d);
        }
    }
    assert(y / kk <= y) by (nonlinear_arith)
        requires
            kk >= 1,
            y >= 0,
    ;
}

/// The code lengths of the ShortLZ length codes for short averages.
pub open spec fn short_len1_seq() -> Seq<u8> {
    seq![1u8, 3, 4, 4, 5, 6, 7, 8, 8, 4, 4, 5, 6, 6, 4, 0]
}

/// The code lengths of the ShortLZ length codes for long averages.
pub open spec fn short_len2_seq() -> Seq<u8> {
    seq![2u8, 3, 3, 3, 4, 4, 5, 6, 6, 4, 4, 5, 6, 6, 4, 0]
}

/// The code patterns of the ShortLZ length codes for short averages.
pub open spec fn short_xor1_seq() -> Seq<u8> {
    seq![0x00u8, 0xa0, 0xd0, 0xe0, 0xf0, 0xf8, 0xfc, 0xfe, 0xff, 0xc0, 0x80, 0x90, 0x98, 0x9c, 0xb0]
}

/// The code patterns of the ShortLZ length codes for long averages.
pub open spec fn short_xor2_seq() -> Seq<u8> {
    seq![0x00u8, 0x40, 0x60, 0xa0, 0xd0, 0xe0, 0xf0, 0xf8, 0xfc, 0xc0, 0x80, 0x90, 0x98, 0x9c, 0xb0]
}

/// The code lengths of the ShortLZ length codes for short averages.
fn short_len1_table(i: usize) -> (v: u8)
    requires
        i < 16,
    ensures
        v <= 8,
        i == 9 ==> v == 4,
        v == short_len1_seq()[i as int],
{
    let a: [u8; 16] = [1, 3, 4, 4, 5, 6, 7, 8, 8, 4, 4, 5, 6, 6, 4, 0];
    assert(a@ =~= short_len1_seq());
    proof {
        assert(forall|j: int| 0 <= j < 16 ==> #[trigger] a@[j] <= 8);
    }
    a[i]
}

/// The code lengths of the ShortLZ length codes for long averages.
fn short_len2_table(i: usize) -> (v: u8)
    requires
        i < 16,
    ensures
        v <= 8,
        i == 9 ==> v == 4,
        v == short_len2_seq()[i as int],
{
    let a: [u8; 16] = [2, 3, 3, 3, 4, 4, 5, 6, 6, 4, 4, 5, 6, 6, 4, 0];
    assert(a@ =~= short_len2_seq());
    proof {
        assert(forall|j: int| 0 <= j < 16 ==> #[trigger] a@[j] <= 8);
    }
    a[i]
}

/// The code patterns of the ShortLZ length codes for short averages.
pub(crate) fn short_xor1(i: usize) -> (v: u8)
    requires
        i < 15,
    ensures
        v == short_xor1_seq()[i as int],
{
    let a: [u8; 15] = [
        0x00,
        0xa0,
        0xd0,
        0xe0,
        0xf0,
        0xf8,
        0xfc,
        0xfe,
        0xff,
        0xc0,
        0x80,
        0x90,
        0x98,
        0x9c,
        0xb0,
    ];
    assert(a@ =~= short_xor1_seq());
    a[i]
}

/// The code patterns of the ShortLZ length codes for long averages.
pub(crate) fn short_xor2(i: usize) -> (v: u8)
    requires
        i < 15,
    ensures
        v == short_xor2_seq()[i as int],
{
    let a: [u8; 15] = [
        0x00,
        0x40,
        0x60,
        0xa0,
        0xd0,
        0xe0,
        0xf0,
        0xf8,
        0xfc,
        0xc0,
        0x80,
        0x90,
        0x98,
        0x9c,
        0xb0,
    ];
    assert(a@ =~= short_xor2_seq());
    a[i]
}

/// Some entry of `table` has high byte `b`.
pub open spec fn holds_high(table: Seq<u16>, b: int) -> bool {
    exists|j: int| 0 <= j < 256 && #[trigger] table[j] / 256 == b
}

/// Every byte is the high byte of some entry of `table`.
pub open spec fn every_high(table: Seq<u16>) -> bool {
    forall|b: int| 0 <= b < 256 ==> #[trigger] holds_high(table, b)
}

/// The rank bytes of a literal table stay at or below the reset threshold.
pub open spec fn ranks_below(table: Seq<u16>) -> bool {
    forall|j: int| 0 <= j < 256 ==> #[trigger] table[j] % 256 <= 0xa1
}

/// Setting the rank byte of an entry keeps its high byte.
pub(crate) proof fn lemma_rank_keeps_high(v: u16, r: u16)
    requires
        r <= 7,
    ensures
        ((v & 0xff00) | r) / 256 == v / 256,
        ((v & 0xff00) | r) % 256 == r,
{
    assert(((v & 0xff00) | r) / 256 == v / 256 && ((v & 0xff00) | r) % 256 == r)
        by (bit_vector)
        requires
            r <= 7,
    ;
}

/// The entries of an adaptive table after its ranks are reset: each keeps
/// its symbol and gets the rank of its eighth of the table.
pub open spec fn corr_chars(ch: Seq<u16>) -> Seq<u16> {
    Seq::new(256, |i: int| (ch[i] & 0xff00) | (7 - i / 32) as u16)
}

/// The rank counters after a reset.
pub open spec fn corr_places() -> Seq<u8> {
    Seq::new(
        256,
        |r: int|
            if r < 7 {
                ((7 - r) * 32) as u8
            } else {
                0u8
            },
    )
}

/// Whether promoting entry `idx` first resets the ranks: its rank would pass
/// the literal threshold, or wrap.
pub open spec fn bump_resets(ch: Seq<u16>, idx: int, literal: bool) -> bool {
    let next = (ch[idx] + 1) % 256;
    if literal {
        next > 0xa1
    } else {
        next == 0
    }
}

/// An adaptive table and its rank counters after the entry at `idx` is
/// promoted: after a reset where due, the entry's rank goes up by one and it
/// trades places with the entry at the place its rank counter points to,
/// which counter then goes up.
pub open spec fn bump_spec(ch: Seq<u16>, npl: Seq<u8>, idx: int, literal: bool) -> (
    Seq<u16>,
    Seq<u8>,
) {
    let reset = bump_resets(ch, idx, literal);
    let ch1 = if reset {
        corr_chars(ch)
    } else {
        ch
    };
    let npl1 = if reset {
        corr_places()
    } else {
        npl
    };
    let low = ch1[idx] % 256;
    let place = npl1[low as int] as int;
    let npl2 = npl1.update(low as int, ((npl1[low as int] + 1) % 256) as u8);
    let ch2 = ch1.update(idx, ch1[place]).update(place, ((ch1[idx] + 1) % 0x10000) as u16);
    (ch2, npl2)
}

/// The window after `bytes` are written into it from position `ptr` on,
/// wrapping around its 64 KiB.
pub open spec fn ring_write(w: Seq<u8>, ptr: int, bytes: Seq<u8>) -> Seq<u8>
    decreases bytes.len(),
{
    if bytes.len() == 0 {
        w
    } else {
        ring_write(w, ptr, bytes.drop_last()).update(
            (ptr + bytes.len() - 1) % 0x10000,
            bytes.last(),
        )
    }
}

/// The first `n` bytes of a match from `distance` back, written from
/// position `ptr` of the window `w`: zeros where `zero`, else each the byte
/// `distance` back in the window as written so far, so that a match may
/// repeat its own bytes.
pub open spec fn match_bytes(w: Seq<u8>, ptr: int, distance: int, n: nat, zero: bool) -> Seq<u8>
    decreases n,
{
    if n == 0 {
        Seq::empty()
    } else {
        let prev = match_bytes(w, ptr, distance, (n - 1) as nat, zero);
        let cur = ring_write(w, ptr, prev);
        prev.push(
            if zero {
                0u8
            } else {
                cur[((ptr + n - 1) % 0x10000 + 0x10000 - distance) % 0x10000]
            },
        )
    }
}

/// The count of zero bits that open a LongLZ length code, from bit `z` on
/// (bit 15 first), at most eight.
pub open spec fn zeros_from(bit_field: u32, z: u32) -> u32
    decreases 8 - z,
{
    if z < 8 && (bit_field >> (15 - z)) & 1 == 0 {
        zeros_from(bit_field, (z + 1) as u32)
    } else {
        z
    }
}

/// A LongLZ length code under the running length average, and its bits:
/// table `L2` or `L1` for long averages, otherwise a 16-bit length below 256
/// or a unary count of zero bits.
pub open spec fn long_length_code(avr_ln2: u32, bit_field: u32) -> (u32, u32) {
    if avr_ln2 >= 122 {
        decode_num_spec(Table::L2, bit_field)
    } else if avr_ln2 >= 64 {
        decode_num_spec(Table::L1, bit_field)
    } else if bit_field < 0x100 {
        (bit_field, 16)
    } else {
        (zeros_from(bit_field, 0), (zeros_from(bit_field, 0) + 1) as u32)
    }
}

/// The bit count of ShortLZ length code `pos` as the decoder reads it: the
/// run flag `buf60` lengthens the code at place 1 for short averages, or at
/// place 3 for long ones.
pub open spec fn dec_short_len(avr_ln1: u32, buf60: u32, pos: int) -> u32 {
    if avr_ln1 < 37 {
        if pos == 1 {
            (buf60 + 3) as u32
        } else {
            short_len1_seq()[pos] as u32
        }
    } else {
        if pos == 3 {
            (buf60 + 3) as u32
        } else {
            short_len2_seq()[pos] as u32
        }
    }
}

/// The code pattern of ShortLZ length code `pos` under the running average.
pub open spec fn dec_short_xor(avr_ln1: u32, pos: int) -> u8 {
    if avr_ln1 < 37 {
        short_xor1_seq()[pos]
    } else {
        short_xor2_seq()[pos]
    }
}

/// The first ShortLZ length code from `from` on whose pattern opens
/// `bit_byte`, or 15 when none does.
pub open spec fn short_code_from(avr_ln1: u32, buf60: u32, bit_byte: u8, from: int) -> int
    decreases 15 - from,
{
    if from >= 15 {
        15
    } else if ((bit_byte ^ dec_short_xor(avr_ln1, from)) & ((!(0xffu16 >> dec_short_len(
        avr_ln1,
        buf60,
        from,
    ))) as u8)) == 0 {
        from
    } else {
        short_code_from(avr_ln1, buf60, bit_byte, from + 1)
    }
}

/// A ShortLZ length code is at most 15.
proof fn lemma_short_code_from_bound(avr_ln1: u32, buf60: u32, bit_byte: u8, from: int)
    ensures
        short_code_from(avr_ln1, buf60, bit_byte, from) <= 15,
        from >= 0 ==> short_code_from(avr_ln1, buf60, bit_byte, from) >= 0,
    decreases 15 - from,
{
    if from < 15 {
        lemma_short_code_from_bound(avr_ln1, buf60, bit_byte, from + 1);
    }
}

/// Promotes the symbol at `idx` of an adaptive table: its rank counter goes up,
/// it trades places with the entry its rank points at, and the ranks are reset
/// when a counter would pass `limit` (`literal`) or wrap. Returns the entry's
/// high byte, the symbol itself.
pub(crate) fn bump(ch: &mut Vec<u16>, npl: &mut Vec<u8>, idx: usize, literal: bool) -> (symbol: u16)
    requires
        old(ch)@.len() == 256,
        old(npl)@.len() == 256,
        idx < 256,
    ensures
        final(ch)@.len() == 256,
        final(npl)@.len() == 256,
        symbol == old(ch)@[idx as int] >> 8,
        symbol <= 255,
        (final(ch)@, final(npl)@) == bump_spec(old(ch)@, old(npl)@, idx as int, literal),
        every_high(old(ch)@) && (literal ==> ranks_below(old(ch)@)) ==> every_high(final(ch)@),
        literal && ranks_below(old(ch)@) ==> ranks_below(final(ch)@),
{
    let mut cur: u32 = ch[idx] as u32;
    let ghost sym = ch@[idx as int] >> 8;
    let mut low: usize = (cur % 256) as usize;
    let mut new_place: usize = npl[low] as usize;
    npl.set(low, npl[low].wrapping_add(1));
    cur = cur + 1;
    let needs_reset = if literal {
        cur % 256 > 0xa1
    } else {
        cur % 256 == 0
    };
    if needs_reset {
        corr_huff(ch, npl);
        proof {
            lemma_corr_entry(old(ch)@[idx as int], (7 - idx / 32) as u16);
            let v = ch@[idx as int];
            let r = (7 - idx / 32) as u16;
            assert(v % 256 == r) by (bit_vector)
                requires
                    v & 0xff == r,
            ;
        }
        cur = ch[idx] as u32;
        low = (cur % 256) as usize;
        new_place = npl[low] as usize;
        npl.set(low, npl[low].wrapping_add(1));
        cur = cur + 1;
    }
    let ghost mid = ch@;
    proof {
        assert forall|j: int| 0 <= j < 256 implies #[trigger] mid[j] / 256 == old(ch)@[j] / 256
            && (needs_reset ==> mid[j] % 256 <= 7) && (!needs_reset ==> mid[j] == old(ch)@[j]) by {
            if needs_reset {
                lemma_rank_keeps_high(old(ch)@[j], (7 - j / 32) as u16);
            }
        }
    }
    let entry: u32 = cur - 1;
    proof {
        let v = old(ch)@[idx as int];
        assert(v >> 8 == (v as u32) / 256) by (bit_vector);
        if needs_reset {
            let w = ((v & 0xff00) | ((7 - idx / 32) as u16)) as u16;
            lemma_corr_entry(v, (7 - idx / 32) as u16);
            assert(w >> 8 == (w as u32) / 256) by (bit_vector);
        }
    }
    let moved = ch[new_place];
    let stored = (cur % 0x10000) as u16;
    proof {
        let w = mid[idx as int];
        if needs_reset {
            assert(w % 256 <= 7);
        } else if literal {
            assert(cur % 256 <= 0xa1);
        } else {
            assert(cur % 256 != 0);
        }
        if !needs_reset && literal && ranks_below(old(ch)@) {
            assert(old(ch)@[idx as int] % 256 <= 0xa1);
        }
        if needs_reset || !literal || ranks_below(old(ch)@) {
            assert(cur == w + 1);
            assert(w % 256 < 255);
            assert(stored / 256 == w / 256) by (bit_vector)
                requires
                    cur == w + 1,
                    w % 256 < 255,
                    stored == (cur % 0x10000) as u16,
            ;
        }
    }
    ch.set(idx, moved);
    ch.set(new_place, stored);
    proof {
        let fin = ch@;
        let spec = bump_spec(old(ch)@, old(npl)@, idx as int, literal);
        assert(needs_reset == bump_resets(old(ch)@, idx as int, literal));
        if needs_reset {
            assert(mid =~= corr_chars(old(ch)@));
        } else {
            assert(mid =~= old(ch)@);
        }
        assert(fin =~= spec.0);
        assert(npl@ =~= spec.1);
        if every_high(old(ch)@) && (literal ==> ranks_below(old(ch)@)) {
            assert forall|b: int| 0 <= b < 256 implies #[trigger] holds_high(fin, b) by {
                assert(holds_high(old(ch)@, b));
                let j0 = choose|j: int| 0 <= j < 256 && #[trigger] old(ch)@[j] / 256 == b;
                if j0 == idx {
                    assert(fin[new_place as int] / 256 == b);
                } else if j0 == new_place {
                    assert(fin[idx as int] / 256 == b);
                } else {
                    assert(fin[j0] / 256 == b);
                }
            }
        }
        if literal && ranks_below(old(ch)@) {
            assert forall|j: int| 0 <= j < 256 implies #[trigger] fin[j] % 256 <= 0xa1 by {
                if j == new_place {
                    if needs_reset {
                        assert(stored % 256 == cur % 256) by (bit_vector)
                            requires
                                stored == (cur % 0x10000) as u16,
                        ;
                    } else {
                        assert(stored % 256 == cur % 256) by (bit_vector)
                            requires
                                stored == (cur % 0x10000) as u16,
                        ;
                    }
                } else if j == idx {
                    assert(fin[j] == mid[new_place as int]);
                } else {
                    assert(fin[j] == mid[j]);
                }
            }
        }
    }
    (entry / 256) as u16
}

/// `r`, the decoder state `fin` and the output `out` (grown from `old_out`)
/// are what the step `spec` gives: its state and bytes, or its error.
pub open spec fn stepped_as(
    r: Result<(), Error>,
    spec: Stepped,
    fin: DecView,
    out: Seq<u8>,
    old_out: Seq<u8>,
) -> bool {
    match spec {
        Ok((v, b)) => r is Ok && fin == v && out == old_out + b,
        Err(e) => r == Err::<(), Error>(e),
    }
}

/// `r`, the decoder state `fin` and the output `out` (grown from `old_out`)
/// are what the decoding outcome `spec` gives, where it is known.
pub open spec fn ran_as(
    r: Result<(), Error>,
    spec: Option<Stepped>,
    fin: DecView,
    out: Seq<u8>,
    old_out: Seq<u8>,
) -> bool {
    match spec {
        Some(st) => stepped_as(r, st, fin, out, old_out),
        None => true,
    }
}

/// The RAR 1.3/1.4 decompressor ("Unpack15"): an adaptive Huffman coder
/// with short and long LZ matches over a 64 KiB window.
pub struct Unpack15 {
    bits: BitReader,
    target: usize,
    output_written: usize,
    window: Vec<u8>,
    unp_ptr: usize,
    prev_ptr: usize,
    first_win_done: bool,
    ch_set: Vec<u16>,
    ch_set_a: Vec<u16>,
    ch_set_b: Vec<u16>,
    ch_set_c: Vec<u16>,
    n_to_pl: Vec<u8>,
    n_to_pl_b: Vec<u8>,
    n_to_pl_c: Vec<u8>,
    avr_plc: u32,
    avr_plc_b: u32,
    avr_ln1: u32,
    avr_ln2: u32,
    avr_ln3: u32,
    max_dist3: u32,
    nhfb: u32,
    nlzb: u32,
    num_huf: u32,
    buf60: u32,
    st_mode: bool,
    l_count: u32,
    flag_buf: u32,
    flags_cnt: i32,
    old_dist: Vec<u32>,
    old_dist_ptr: usize,
    last_dist: u32,
    last_length: u32,
}

impl Unpack15 {
    /// The decoder state is consistent: table sizes, window position and the
    /// ranges of the adaptive statistics.
    pub closed spec fn wf(&self) -> bool {
        &&& self.window@.len() == window_size()
        &&& self.unp_ptr < window_size()
        &&& self.prev_ptr < window_size()
        &&& self.ch_set@.len() == 256
        &&& self.ch_set_a@.len() == 256
        &&& self.ch_set_b@.len() == 256
        &&& self.ch_set_c@.len() == 256
        &&& self.n_to_pl@.len() == 256
        &&& self.n_to_pl_b@.len() == 256
        &&& self.n_to_pl_c@.len() == 256
        &&& self.old_dist@.len() == 4
        &&& self.old_dist_ptr < 4
        &&& self.avr_plc <= avr_plc_max()
        &&& self.avr_plc_b <= avr_plc_b_max()
        &&& self.avr_ln1 <= avr_ln1_max()
        &&& self.avr_ln2 <= avr_ln2_max()
        &&& self.avr_ln3 <= avr_ln3_max()
        &&& self.nhfb <= 0xff
        &&& self.nlzb <= 0xff
        &&& self.buf60 <= 1
        &&& self.l_count <= 2
        &&& self.flag_buf <= 0xff
        &&& -2 <= self.flags_cnt <= 8
        &&& self.output_written <= self.target
    }

    /// The decoder state as plain values.
    pub closed spec fn dv(&self) -> DecView {
        DecView {
            data: self.bits.data(),
            pos: self.bits.pos(),
            target: self.target as int,
            written: self.output_written as int,
            window: self.window@,
            unp_ptr: self.unp_ptr as int,
            prev_ptr: self.prev_ptr as int,
            first_win_done: self.first_win_done,
            ch_set: self.ch_set@,
            ch_set_a: self.ch_set_a@,
            ch_set_b: self.ch_set_b@,
            ch_set_c: self.ch_set_c@,
            n_to_pl: self.n_to_pl@,
            n_to_pl_b: self.n_to_pl_b@,
            n_to_pl_c: self.n_to_pl_c@,
            avr_plc: self.avr_plc,
            avr_plc_b: self.avr_plc_b,
            avr_ln1: self.avr_ln1,
            avr_ln2: self.avr_ln2,
            avr_ln3: self.avr_ln3,
            max_dist3: self.max_dist3,
            nhfb: self.nhfb,
            nlzb: self.nlzb,
            num_huf: self.num_huf,
            buf60: self.buf60,
            st_mode: self.st_mode,
            l_count: self.l_count,
            flag_buf: self.flag_buf,
            flags_cnt: self.flags_cnt,
            old_dist: self.old_dist@,
            old_dist_ptr: self.old_dist_ptr as int,
            last_dist: self.last_dist,
            last_length: self.last_length,
        }
    }

    /// The number of bytes produced for the current member so far.
    pub closed spec fn written(&self) -> int {
        self.output_written as int
    }

    /// The size of the current member.
    pub closed spec fn member_size(&self) -> int {
        self.target as int
    }

    /// The position of the next unread input bit.
    pub closed spec fn bit_pos(&self) -> int {
        self.bits.pos()
    }

    /// A decoder with an empty window and reset statistics.
    pub fn new() -> (d: Unpack15)
        ensures
            d.wf(),
            d.written() == 0,
            d.member_size() == 0,
            d.dv() == new_decoder_view(),
    {
        let d = Unpack15 {
            bits: BitReader::new_final(&[]),
            target: 0,
            output_written: 0,
            window: vec![0u8; 0x10000],
            unp_ptr: 0,
            prev_ptr: 0,
            first_win_done: false,
            ch_set: vec![0u16; 256],
            ch_set_a: vec![0u16; 256],
            ch_set_b: vec![0u16; 256],
            ch_set_c: vec![0u16; 256],
            n_to_pl: vec![0u8; 256],
            n_to_pl_b: vec![0u8; 256],
            n_to_pl_c: vec![0u8; 256],
            avr_plc: 0x3500,
            avr_plc_b: 0,
            avr_ln1: 0,
            avr_ln2: 0,
            avr_ln3: 0,
            max_dist3: 0x2001,
            nhfb: 0x80,
            nlzb: 0x80,
            num_huf: 0,
            buf60: 0,
            st_mode: false,
            l_count: 0,
            flag_buf: 0,
            flags_cnt: 0,
            old_dist: vec![u32::MAX; 4],
            old_dist_ptr: 0,
            last_dist: u32::MAX,
            last_length: 0,
        };
        proof {
            assert(d.dv() =~= new_decoder_view());
        }
        d
    }

    /// The adaptive tables as a member without history starts them: literals
    /// and distances in their natural order, the flag table reversed, and the
    /// LongLZ table ranked.
    spec fn tables_initial(&self) -> bool {
        forall|i: int|
            0 <= i < 256 ==> {
                &&& #[trigger] self.ch_set@[i] == (i * 256) as u16
                &&& self.ch_set_a@[i] == i as u16
                &&& self.ch_set_c@[i] == (((256 - i) % 256) * 256) as u16
                &&& self.ch_set_b@[i] == ((i * 256) as u16 & 0xff00) | (7 - i / 32) as u16
                &&& self.n_to_pl@[i] == 0
                &&& self.n_to_pl_c@[i] == 0
                &&& self.n_to_pl_b@[i] == if i < 7 {
                    ((7 - i) * 32) as u8
                } else {
                    0u8
                }
            }
    }

    /// The initial tables are permutations.
    proof fn lemma_initial_tables_complete(&self)
        requires
            self.tables_initial(),
            self.ch_set@.len() == 256,
            self.ch_set_a@.len() == 256,
            self.ch_set_b@.len() == 256,
            self.ch_set_c@.len() == 256,
        ensures
            self.tables_complete(),
    {
        assert forall|b: int| 0 <= b < 256 implies #[trigger] holds_high(self.ch_set@, b) by {
            assert(self.ch_set@[b] == (b * 256) as u16);
            assert((b * 256) as u16 == b * 256);
        }
        assert forall|j: int| 0 <= j < 256 implies #[trigger] self.ch_set@[j] % 256 <= 0xa1 by {
            assert((j * 256) as u16 == j * 256);
        }
        assert forall|b: int| 0 <= b < 256 implies #[trigger] holds_high(self.ch_set_c@, b) by {
            let j = if b == 0 {
                0
            } else {
                256 - b
            };
            assert(self.ch_set@[j] == (j * 256) as u16);
            assert((256 - j) % 256 == b);
            assert((b * 256) as u16 == b * 256);
            assert(self.ch_set_c@[j] / 256 == b);
        }
        assert forall|b: int| 0 <= b < 256 implies #[trigger] holds_high(self.ch_set_b@, b) by {
            let v = (b * 256) as u16;
            assert(v == b * 256);
            assert(v / 256 == b);
            lemma_rank_keeps_high(v, (7 - b / 32) as u16);
            assert(self.ch_set@[b] == (b * 256) as u16);
            assert(self.ch_set_b@[b] / 256 == b);
        }
        assert forall|v: int| 0 <= v < 256 implies #[trigger] holds_value(self.ch_set_a@, v) by {
            assert(self.ch_set@[v] == (v * 256) as u16);
            assert(self.ch_set_a@[v] == v);
        }
    }

    /// Resets the adaptive tables and leaves everything else as it was.
    #[verifier::rlimit(40)]
    #[verifier::spinoff_prover]
    fn init_huff(&mut self)
        requires
            old(self).wf(),
        ensures
            final(self).wf(),
            final(self).tables_initial(),
            final(self).bits == old(self).bits,
            final(self).output_written == old(self).output_written,
            final(self).target == old(self).target,
            final(self).window == old(self).window,
            final(self).unp_ptr == old(self).unp_ptr,
            final(self).prev_ptr == old(self).prev_ptr,
            final(self).first_win_done == old(self).first_win_done,
            final(self).avr_plc == old(self).avr_plc,
            final(self).avr_plc_b == old(self).avr_plc_b,
            final(self).avr_ln1 == old(self).avr_ln1,
            final(self).avr_ln2 == old(self).avr_ln2,
            final(self).avr_ln3 == old(self).avr_ln3,
            final(self).max_dist3 == old(self).max_dist3,
            final(self).nhfb == old(self).nhfb,
            final(self).nlzb == old(self).nlzb,
            final(self).num_huf == old(self).num_huf,
            final(self).buf60 == old(self).buf60,
            final(self).st_mode == old(self).st_mode,
            final(self).l_count == old(self).l_count,
            final(self).flag_buf == old(self).flag_buf,
            final(self).flags_cnt == old(self).flags_cnt,
            final(self).old_dist == old(self).old_dist,
            final(self).old_dist_ptr == old(self).old_dist_ptr,
            final(self).last_dist == old(self).last_dist,
            final(self).last_length == old(self).last_length,
    {
        let mut i: usize = 0;
        while i < 256
            invariant
                self.wf(),
                self.bits == old(self).bits,
                self.output_written == old(self).output_written,
                self.target == old(self).target,
                i <= 256,
                forall|j: int|
                    0 <= j < i ==> {
                        &&& #[trigger] self.ch_set@[j] == (j * 256) as u16
                        &&& self.ch_set_a@[j] == j as u16
                        &&& self.ch_set_c@[j] == (((256 - j) % 256) * 256) as u16
                        &&& self.ch_set_b@[j] == (j * 256) as u16
                        &&& self.n_to_pl@[j] == 0
                        &&& self.n_to_pl_c@[j] == 0
                    },
                self.window == old(self).window,
                self.unp_ptr == old(self).unp_ptr,
                self.prev_ptr == old(self).prev_ptr,
                self.first_win_done == old(self).first_win_done,
                self.avr_plc == old(self).avr_plc,
                self.avr_plc_b == old(self).avr_plc_b,
                self.avr_ln1 == old(self).avr_ln1,
                self.avr_ln2 == old(self).avr_ln2,
                self.avr_ln3 == old(self).avr_ln3,
                self.max_dist3 == old(self).max_dist3,
                self.nhfb == old(self).nhfb,
                self.nlzb == old(self).nlzb,
                self.num_huf == old(self).num_huf,
                self.buf60 == old(self).buf60,
                self.st_mode == old(self).st_mode,
                self.l_count == old(self).l_count,
                self.flag_buf == old(self).flag_buf,
                self.flags_cnt == old(self).flags_cnt,
                self.old_dist == old(self).old_dist,
                self.old_dist_ptr == old(self).old_dist_ptr,
                self.last_dist == old(self).last_dist,
                self.last_length == old(self).last_length,
            decreases 256 - i,
        {
            self.ch_set.set(i, (i * 256) as u16);
            self.ch_set_b.set(i, (i * 256) as u16);
            self.ch_set_a.set(i, i as u16);
            self.ch_set_c.set(i, (((256 - i) % 256) * 256) as u16);
            self.n_to_pl.set(i, 0);
            self.n_to_pl_b.set(i, 0);
            self.n_to_pl_c.set(i, 0);
            i = i + 1;
        }
        corr_huff(&mut self.ch_set_b, &mut self.n_to_pl_b);
    }

    /// Forgets the history of earlier members: an empty window, the initial
    /// statistics and tables, and no remembered matches.
    fn reset_non_solid(&mut self)
        requires
            old(self).wf(),
        ensures
            final(self).tables_complete(),
            final(self).wf(),
            final(self).tables_initial(),
            final(self).bits == old(self).bits,
            final(self).output_written == old(self).output_written,
            final(self).target == old(self).target,
            final(self).window@ == Seq::new(0x10000, |_i: int| 0u8),
            final(self).unp_ptr == 0,
            final(self).prev_ptr == 0,
            !final(self).first_win_done,
            final(self).avr_plc == 0x3500,
            final(self).avr_plc_b == 0,
            final(self).avr_ln1 == 0,
            final(self).avr_ln2 == 0,
            final(self).avr_ln3 == 0,
            final(self).max_dist3 == 0x2001,
            final(self).nhfb == 0x80,
            final(self).nlzb == 0x80,
            final(self).num_huf == 0,
            final(self).buf60 == 0,
            final(self).old_dist@ == seq![u32::MAX, u32::MAX, u32::MAX, u32::MAX],
            final(self).old_dist_ptr == 0,
            final(self).last_dist == u32::MAX,
            final(self).last_length == 0,
            final(self).st_mode == old(self).st_mode,
            final(self).l_count == old(self).l_count,
            final(self).flag_buf == old(self).flag_buf,
            final(self).flags_cnt == old(self).flags_cnt,
    {
        self.window = vec![0u8; 0x10000];
        self.unp_ptr = 0;
        self.prev_ptr = 0;
        self.first_win_done = false;
        self.avr_plc_b = 0;
        self.avr_ln1 = 0;
        self.avr_ln2 = 0;
        self.avr_ln3 = 0;
        self.num_huf = 0;
        self.buf60 = 0;
        self.avr_plc = 0x3500;
        self.max_dist3 = 0x2001;
        self.nhfb = 0x80;
        self.nlzb = 0x80;
        self.old_dist = vec![u32::MAX; 4];
        self.old_dist_ptr = 0;
        self.last_dist = u32::MAX;
        self.last_length = 0;
        self.init_huff();
        proof {
            self.lemma_initial_tables_complete();
        }
    }

    fn init_member(&mut self, target: usize, solid: bool)
        requires
            old(self).wf(),
        ensures
            !solid || old(self).tables_complete() ==> final(self).tables_complete(),
            final(self).wf(),
            final(self).target == target,
            final(self).output_written == 0,
            final(self).flags_cnt == -2,
            final(self).bits == old(self).bits,
            final(self).dv() == (DecView {
                data: old(self).dv().data,
                pos: old(self).dv().pos,
                ..member_start(old(self).dv(), old(self).dv().data, target as int, solid)
            }),
    {
        if !solid {
            self.reset_non_solid();
        }
        self.target = target;
        self.output_written = 0;
        self.flags_cnt = -2;
        self.flag_buf = 0;
        self.st_mode = false;
        self.l_count = 0;
        proof {
            if !solid {
                let f = fresh_member(old(self).dv().data, target as int);
                assert forall|i: int| 0 <= i < 256 implies {
                    &&& self.ch_set_a@[i] == f.ch_set_a[i]
                    &&& self.ch_set_b@[i] == f.ch_set_b[i]
                    &&& self.ch_set_c@[i] == f.ch_set_c[i]
                    &&& self.n_to_pl@[i] == f.n_to_pl[i]
                    &&& self.n_to_pl_b@[i] == f.n_to_pl_b[i]
                    &&& self.n_to_pl_c@[i] == f.n_to_pl_c[i]
                } by {
                    assert(self.ch_set@[i] == (i * 256) as u16);
                }
                assert(self.ch_set@ =~= f.ch_set);
                assert(self.ch_set_a@ =~= f.ch_set_a);
                assert(self.ch_set_b@ =~= f.ch_set_b);
                assert(self.ch_set_c@ =~= f.ch_set_c);
                assert(self.n_to_pl@ =~= f.n_to_pl);
                assert(self.n_to_pl_b@ =~= f.n_to_pl_b);
                assert(self.n_to_pl_c@ =~= f.n_to_pl_c);
                assert(self.window@ =~= f.window);
                assert(self.old_dist@ =~= f.old_dist);
            }
            assert(self.dv() =~= DecView {
                data: old(self).dv().data,
                pos: old(self).dv().pos,
                ..member_start(old(self).dv(), old(self).dv().data, target as int, solid)
            });
        }
    }

    /// Consumes one table code from the bit field `num`.
    fn decode_num(&mut self, num: u32, t: Table) -> (v: u32)
        requires
            old(self).wf(),
        ensures
            final(self).wf(),
            v < 4352,
            final(self).bits.data() == old(self).bits.data(),
            final(self).bits.is_final() == old(self).bits.is_final(),
            final(self).bits.pos() >= old(self).bits.pos(),
            old(self).bits.pos() < usize::MAX ==> final(self).bits.pos() > old(self).bits.pos(),
            final(self).output_written == old(self).output_written,
            final(self).target == old(self).target,
            v == decode_num_spec(t, num).0,
            old(self).bits.pos() + decode_num_spec(t, num).1 <= usize::MAX ==> final(self).bits.pos()
                == old(self).bits.pos() + decode_num_spec(t, num).1,
            final(self).last_length == old(self).last_length,
            final(self).flag_buf == old(self).flag_buf,
            final(self).ch_set_c == old(self).ch_set_c,
            *final(self) == (Unpack15 { bits: final(self).bits, ..*old(self) }),
    {
        let (value, consumed) = simulate_decode_num(num, t);
        proof {
            self.bits.lemma_pos_range();
        }
        self.bits.add_bits(consumed as usize);
        value
    }

    /// Everything but the window, its write position and the count of bytes
    /// written is as in `other`.
    spec fn same_but_output(&self, other: Unpack15) -> bool {
        &&& self.bits == other.bits
        &&& self.target == other.target
        &&& self.prev_ptr == other.prev_ptr
        &&& self.first_win_done == other.first_win_done
        &&& self.ch_set == other.ch_set
        &&& self.ch_set_a == other.ch_set_a
        &&& self.ch_set_b == other.ch_set_b
        &&& self.ch_set_c == other.ch_set_c
        &&& self.n_to_pl == other.n_to_pl
        &&& self.n_to_pl_b == other.n_to_pl_b
        &&& self.n_to_pl_c == other.n_to_pl_c
        &&& self.avr_plc == other.avr_plc
        &&& self.avr_plc_b == other.avr_plc_b
        &&& self.avr_ln1 == other.avr_ln1
        &&& self.avr_ln2 == other.avr_ln2
        &&& self.avr_ln3 == other.avr_ln3
        &&& self.max_dist3 == other.max_dist3
        &&& self.nhfb == other.nhfb
        &&& self.nlzb == other.nlzb
        &&& self.num_huf == other.num_huf
        &&& self.buf60 == other.buf60
        &&& self.st_mode == other.st_mode
        &&& self.l_count == other.l_count
        &&& self.flag_buf == other.flag_buf
        &&& self.flags_cnt == other.flags_cnt
        &&& self.old_dist == other.old_dist
        &&& self.old_dist_ptr == other.old_dist_ptr
        &&& self.last_dist == other.last_dist
        &&& self.last_length == other.last_length
    }

    /// The LongLZ token at the read position: its distance and length, the bit
    /// position after it, and the place of the LongLZ table its distance was
    /// ranked at.
    closed spec fn long_token(&self) -> (u32, u32, int, int) {
        let data = self.bits.data();
        let p0 = self.bits.pos();
        let lc = long_length_code(self.avr_ln2, peek_bits(data, p0, 16) as u32);
        let p1 = p0 + lc.1;
        let pc = decode_num_spec(
            long_distance_table(self.avr_plc_b),
            peek_bits(data, p1, 16) as u32,
        );
        let p2 = p1 + pc.1;
        let idx = pc.0 % 256;
        let symbol = self.ch_set_b@[idx as int] >> 8;
        let distance = ((symbol * 256 + (peek_bits(data, p2, 16) as u32) / 256) / 2) as u32;
        let length = (lc.0 + 3 + (if distance >= self.max_dist3 {
            1int
        } else {
            0
        }) + (if distance <= 256 {
            8int
        } else {
            0
        })) as u32;
        (distance, length, p2 + 7, idx as int)
    }

    /// Every byte is ranked in the literal, LongLZ and flag tables, with the
    /// literal ranks in range, and every short distance is in the distance
    /// table: the tables are permutations.
    pub closed spec fn tables_complete(&self) -> bool {
        &&& every_high(self.ch_set@)
        &&& ranks_below(self.ch_set@)
        &&& every_high(self.ch_set_b@)
        &&& every_high(self.ch_set_c@)
        &&& every_value(self.ch_set_a@)
    }

    /// Whether a match from `distance` back copies zeros: the distance is out
    /// of range, or reaches before the first byte written.
    pub closed spec fn zero_match(&self, distance: u32) -> bool {
        (!self.first_win_done && distance > self.unp_ptr) || distance > 0x10000 || distance == 0
    }

    /// Writes one byte to the window and to `out`.
    fn put_byte(&mut self, byte: u8, out: &mut Vec<u8>) -> (r: Result<(), Error>)
        requires
            old(self).wf(),
        ensures
            final(self).wf(),
            final(self).bits == old(self).bits,
            final(self).target == old(self).target,
            match r {
                Ok(()) => {
                    &&& old(self).output_written < old(self).target
                    &&& final(self).output_written == old(self).output_written + 1
                    &&& final(out)@ == old(out)@.push(byte)
                    &&& final(self).window@ == old(self).window@.update(
                        old(self).unp_ptr as int,
                        byte,
                    )
                    &&& final(self).unp_ptr == (old(self).unp_ptr + 1) % 0x10000
                },
                Err(e) => {
                    &&& old(self).output_written >= old(self).target
                    &&& e == Error::InvalidData("RAR 1.3 literal exceeds output size")
                    &&& final(self).output_written == old(self).output_written
                    &&& final(out)@ == old(out)@
                    &&& *final(self) == *old(self)
                },
            },
            final(self).same_but_output(*old(self)),
            stepped_as(r, put_spec(old(self).dv(), byte), final(self).dv(), final(out)@, old(out)@),
    {
        if self.output_written >= self.target {
            return Err(Error::InvalidData("RAR 1.3 literal exceeds output size"));
        }
        self.window.set(self.unp_ptr, byte);
        self.unp_ptr = (self.unp_ptr + 1) % 0x10000;
        out.push(byte);
        self.output_written = self.output_written + 1;
        proof {
            assert(self.dv() =~= put_spec(old(self).dv(), byte).unwrap().0);
            assert(out@ =~= old(out)@ + seq![byte]);
        }
        Ok(())
    }

    /// Copies `length` bytes from `distance` back in the window.
    fn copy_string(&mut self, distance: u32, length: u32, out: &mut Vec<u8>) -> (r: Result<
        (),
        Error,
    >)
        requires
            old(self).wf(),
        ensures
            final(self).wf(),
            final(self).bits == old(self).bits,
            final(self).target == old(self).target,
            final(out)@.len() - old(out)@.len() == final(self).output_written
                - old(self).output_written,
            final(out)@.subrange(0, old(out)@.len() as int) == old(out)@,
            final(self).output_written >= old(self).output_written,
            r is Ok ==> final(self).output_written == old(self).output_written + length,
            r is Err <==> length > old(self).target - old(self).output_written,
            r matches Err(e) ==> e == Error::InvalidData("RAR 1.3 match exceeds output size")
                && *final(self) == *old(self) && final(out)@ == old(out)@,
            final(self).same_but_output(*old(self)),
            r is Ok ==> {
                let bytes = match_bytes(
                    old(self).window@,
                    old(self).unp_ptr as int,
                    distance as int,
                    length as nat,
                    old(self).zero_match(distance),
                );
                &&& final(out)@ == old(out)@ + bytes
                &&& final(self).window@ == ring_write(
                    old(self).window@,
                    old(self).unp_ptr as int,
                    bytes,
                )
                &&& final(self).unp_ptr == (old(self).unp_ptr + length) % 0x10000
            },
            stepped_as(
                r,
                copy_spec(old(self).dv(), distance, length),
                final(self).dv(),
                final(out)@,
                old(out)@,
            ),
    {
        if length as usize > self.target - self.output_written {
            proof {
                reveal(copy_spec);
            }
            return Err(Error::InvalidData("RAR 1.3 match exceeds output size"));
        }
        let ghost start_out = out@;
        let ghost start_written = self.output_written;
        let zero_fill = (!self.first_win_done && distance as usize > self.unp_ptr)
            || distance as usize > 0x10000 || distance == 0;
        let mut k: u32 = 0;
        while k < length
            invariant
                self.wf(),
                self.bits == old(self).bits,
                self.target == old(self).target,
                k <= length,
                self.output_written == start_written + k,
                start_written + length <= self.target,
                out@.len() == start_out.len() + k,
                out@.subrange(0, start_out.len() as int) == start_out,
                !zero_fill ==> 1 <= distance <= 0x10000,
                zero_fill == old(self).zero_match(distance),
                self.same_but_output(*old(self)),
                out@ == start_out + match_bytes(
                    old(self).window@,
                    old(self).unp_ptr as int,
                    distance as int,
                    k as nat,
                    zero_fill,
                ),
                self.window@ == ring_write(
                    old(self).window@,
                    old(self).unp_ptr as int,
                    match_bytes(
                        old(self).window@,
                        old(self).unp_ptr as int,
                        distance as int,
                        k as nat,
                        zero_fill,
                    ),
                ),
                self.unp_ptr == (old(self).unp_ptr + k) % 0x10000,
            decreases length - k,
        {
            let ghost prev = match_bytes(
                old(self).window@,
                old(self).unp_ptr as int,
                distance as int,
                k as nat,
                zero_fill,
            );
            let byte = if zero_fill {
                0u8
            } else {
                self.window[(self.unp_ptr + 0x10000 - distance as usize) % 0x10000]
            };
            let r = self.put_byte(byte, out);
            match r {
                Ok(()) => {},
                Err(e) => {
                    return Err(e);
                },
            }
            k = k + 1;
            proof {
                assert(out@.subrange(0, start_out.len() as int) =~= start_out);
                let next = match_bytes(
                    old(self).window@,
                    old(self).unp_ptr as int,
                    distance as int,
                    k as nat,
                    zero_fill,
                );
                assert(next == prev.push(byte));
                assert(next.drop_last() =~= prev);
                assert(out@ =~= start_out + next);
            }
        }
        proof {
            reveal(copy_spec);
            assert(self.dv() =~= copy_spec(old(self).dv(), distance, length).unwrap().0);
        }
        Ok(())
    }

    /// Remembers a match for the repeat codes.
    fn remember_match(&mut self, distance: u32, length: u32)
        requires
            old(self).wf(),
        ensures
            final(self).wf(),
            final(self).bits == old(self).bits,
            final(self).output_written == old(self).output_written,
            final(self).target == old(self).target,
            final(self).last_dist == distance,
            final(self).last_length == length,
            final(self).old_dist@ == old(self).old_dist@.update(
                old(self).old_dist_ptr as int,
                distance,
            ),
            final(self).old_dist_ptr == (old(self).old_dist_ptr + 1) % 4,
            *final(self) == (Unpack15 {
                old_dist: final(self).old_dist,
                old_dist_ptr: final(self).old_dist_ptr,
                last_dist: distance,
                last_length: length,
                ..*old(self)
            }),
    {
        self.old_dist.set(self.old_dist_ptr, distance);
        self.old_dist_ptr = (self.old_dist_ptr + 1) % 4;
        self.last_length = length;
        self.last_dist = distance;
    }

    /// `self` continues `prev` on the same input: the read position and the
    /// output only move forward.
    pub closed spec fn continues(&self, prev: Unpack15) -> bool {
        &&& self.wf()
        &&& self.bits.data() == prev.bits.data()
        &&& self.bits.is_final() == prev.bits.is_final()
        &&& self.bits.pos() >= prev.bits.pos()
        &&& self.target == prev.target
        &&& self.output_written >= prev.output_written
    }

    /// `out` grew from `prev_out` by exactly the bytes counted as written.
    pub closed spec fn output_extends(
        &self,
        prev: Unpack15,
        out: Seq<u8>,
        prev_out: Seq<u8>,
    ) -> bool {
        &&& out.len() - prev_out.len() == self.output_written - prev.output_written
        &&& out.subrange(0, prev_out.len() as int) =~= prev_out
    }

    /// The step read at least one bit (unless the position is saturated).
    pub closed spec fn advanced(&self, prev: Unpack15) -> bool {
        prev.bits.pos() < usize::MAX ==> self.bits.pos() > prev.bits.pos()
    }

    /// Reads the next flag byte: the entry of the flag table at the place
    /// coded in table `Hf2`; a place past the table leaves the flags as they
    /// were. Fails, changing nothing, when more input is needed.
    fn get_flags_buf(&mut self) -> (r: Result<(), Error>)
        requires
            old(self).wf(),
        ensures
            old(self).tables_complete() ==> final(self).tables_complete(),
            every_high(old(self).ch_set_c@) ==> every_high(final(self).ch_set_c@),
            final(self).ch_set == old(self).ch_set,
            final(self).ch_set_a == old(self).ch_set_a,
            final(self).ch_set_b == old(self).ch_set_b,
            final(self).continues(*old(self)),
            final(self).output_written == old(self).output_written,
            final(self).last_length == old(self).last_length,
            r is Ok ==> final(self).advanced(*old(self)),
            old(self).input_complete() && old(self).bits.pos() + 16 <= usize::MAX ==> r is Ok
                && final(self).dv() == flags_spec(old(self).dv()),
            r is Ok && old(self).bits.pos() + 16 <= usize::MAX ==> final(self).bits.pos() <= old(
                self,
            ).bits.pos() + 12,
            r is Err <==> old(self).bits.needs_more(),
            r matches Err(e) ==> e == Error::NeedMoreInput && *final(self) == *old(self),
            r is Ok ==> {
                let place = decode_num_spec(
                    Table::Hf2,
                    peek_bits(old(self).bits.data(), old(self).bits.pos(), 16) as u32,
                ).0;
                final(self).flag_buf == if place < 256 {
                    (old(self).ch_set_c@[place as int] >> 8) as u32
                } else {
                    old(self).flag_buf
                }
            },
    {
        let bf = match self.bits.get_bits() {
            Ok(v) => v,
            Err(e) => {
                return Err(e);
            },
        };
        proof {
            lemma_decode_num_bounds(Table::Hf2, bf);
        }
        let flags_place = self.decode_num(bf, Table::Hf2) as usize;
        if flags_place >= 256 {
            proof {
                if old(self).bits.pos() + 16 <= usize::MAX {
                    assert(self.dv() =~= flags_spec(old(self).dv()));
                }
            }
            return Ok(());
        }
        let sym = bump(&mut self.ch_set_c, &mut self.n_to_pl_c, flags_place, false);
        self.flag_buf = sym as u32;
        proof {
            if old(self).bits.pos() + 16 <= usize::MAX {
                assert(self.dv() =~= flags_spec(old(self).dv()));
            }
        }
        Ok(())
    }

    /// The ShortLZ length code at the read position and the bit position
    /// after it; 16 stands for the one-bit repeat of the last match that may
    /// follow two repeats.
    closed spec fn short_code(&self) -> (u32, int) {
        let data = self.bits.data();
        let p0 = self.bits.pos();
        let bf0 = peek_bits(data, p0, 16) as u32;
        if self.l_count == 2 && bf0 >= 0x8000 {
            (16, p0 + 1)
        } else {
            let bf = if self.l_count == 2 {
                ((bf0 * 2) % 0x10000) as u32
            } else {
                bf0
            };
            let p = if self.l_count == 2 {
                p0 + 1
            } else {
                p0
            };
            let code = short_code_from(self.avr_ln1, self.buf60, (bf / 256) as u8, 0);
            (code as u32, p + dec_short_len(self.avr_ln1, self.buf60, code))
        }
    }

    /// Reads a ShortLZ length code (16 for a repeat of the last match).
    #[verifier::rlimit(60)]
    fn read_short_code(&mut self) -> (r: Result<u32, Error>)
        requires
            old(self).wf(),
        ensures
            final(self).wf(),
            *final(self) == (Unpack15 {
                bits: final(self).bits,
                l_count: final(self).l_count,
                ..*old(self)
            }),
            final(self).bits.data() == old(self).bits.data(),
            final(self).bits.is_final() == old(self).bits.is_final(),
            final(self).bits.pos() >= old(self).bits.pos(),
            old(self).input_complete() ==> r is Ok,
            r matches Ok(c) ==> c <= 16,
            r matches Ok(c) ==> (c != 15 && old(self).bits.pos() < usize::MAX
                ==> final(self).bits.pos() > old(self).bits.pos()),
            r matches Ok(c) ==> (c == 16 ==> final(self).l_count == old(self).l_count),
            r matches Ok(c) ==> (c != 16 && old(self).l_count == 2 ==> final(self).l_count == 0),
            r matches Ok(c) ==> (c != 16 && old(self).l_count != 2 ==> final(self).l_count
                == old(self).l_count),
            old(self).bits.pos() + 16 <= usize::MAX ==> (r matches Ok(c) ==> c
                == old(self).short_code().0 && final(self).bits.pos()
                == old(self).short_code().1 && final(self).bits.pos() <= old(self).bits.pos() + 9),
    {
        proof {
            self.bits.lemma_pos_range();
        }
        let mut bit_field = match self.bits.get_bits() {
            Ok(v) => v,
            Err(e) => {
                return Err(e);
            },
        };
        if self.l_count == 2 {
            self.bits.add_bits(1);
            if bit_field >= 0x8000 {
                return Ok(16);
            }
            bit_field = (bit_field * 2) % 0x10000;
            self.l_count = 0;
        }
        let bit_byte: u8 = (bit_field / 256) as u8;
        let mut length: usize = 0;
        if self.avr_ln1 < 37 {
            while length < 15
                invariant
                    length <= 15,
                    self.wf(),
                    self.avr_ln1 < 37,
                    short_code_from(self.avr_ln1, self.buf60, bit_byte, length as int)
                        == short_code_from(self.avr_ln1, self.buf60, bit_byte, 0),
                ensures
                    length <= 15,
                    self.wf(),
                    self.avr_ln1 < 37,
                    short_code_from(self.avr_ln1, self.buf60, bit_byte, 0) == length as int,
                decreases 15 - length,
            {
                let short_len = self.short_len1(length);
                let mask: u8 = (!(0xffu16 >> short_len)) as u8;
                if ((bit_byte ^ short_xor1(length)) & mask) == 0 {
                    break ;
                }
                length = length + 1;
            }
            let sl = self.short_len1(length);
            self.bits.add_bits(sl as usize);
        } else {
            while length < 15
                invariant
                    length <= 15,
                    self.wf(),
                    self.avr_ln1 >= 37,
                    short_code_from(self.avr_ln1, self.buf60, bit_byte, length as int)
                        == short_code_from(self.avr_ln1, self.buf60, bit_byte, 0),
                ensures
                    length <= 15,
                    self.wf(),
                    self.avr_ln1 >= 37,
                    short_code_from(self.avr_ln1, self.buf60, bit_byte, 0) == length as int,
                decreases 15 - length,
            {
                let short_len = self.short_len2(length);
                let mask: u8 = (!(0xffu16 >> short_len)) as u8;
                if ((bit_byte ^ short_xor2(length)) & mask) == 0 {
                    break ;
                }
                length = length + 1;
            }
            let sl = self.short_len2(length);
            self.bits.add_bits(sl as usize);
        }
        Ok(length as u32)
    }

    /// What the ShortLZ token at the read position comes to, by its length
    /// code and the bit position after the code.
    #[verifier::rlimit(100)]
    #[verifier::spinoff_prover]
    proof fn lemma_short_spec_unfold(&self)
        requires
            self.wf(),
        ensures
            ({
                let (code, p) = self.short_code();
                let v = self.dv();
                let lc0: u32 = if self.l_count == 2 {
                    0
                } else {
                    self.l_count
                };
                let v1 = DecView { num_huf: 0, pos: p, l_count: lc0, ..v };
                &&& code <= 16
                &&& code == 16 ==> self.l_count == 2 && p == v.pos + 1
                &&& code == 16 ==> short_spec(v) == copy_spec(
                    DecView { num_huf: 0, pos: p, ..v },
                    v.last_dist,
                    v.last_length,
                )
                &&& code == 9 ==> short_spec(v) == copy_spec(
                    DecView { l_count: (lc0 + 1) as u32, ..v1 },
                    v.last_dist,
                    v.last_length,
                )
                &&& code == 14 ==> short_spec(v) == short_far_spec(v1)
                &&& 10 <= code <= 15 && code != 14 ==> short_spec(v) == short_old_spec(
                    v1,
                    code as int,
                )
                &&& code < 9 ==> short_spec(v) == short_ranked_spec(v1, code as int)
            }),
    {
        let b0 = peek_bits(self.bits.data(), self.bits.pos(), 16) as u32;
        let bfx: u32 = if self.l_count == 2 {
            ((b0 * 2) % 0x10000) as u32
        } else {
            b0
        };
        lemma_short_code_from_bound(self.avr_ln1, self.buf60, (bfx / 256) as u8, 0);
    }

    /// Decodes a ShortLZ token: a repeat of the last match, a match against one
    /// of the four last distances, a long-distance literal-length match, or a
    /// short match whose distance comes from the adaptive distance table.
    /// Its matches copy at most 4356 bytes, or the last match's length again;
    /// with the whole input there and room for them, it succeeds.
    #[verifier::rlimit(100)]
    #[verifier::spinoff_prover]
    fn short_lz(&mut self, out: &mut Vec<u8>) -> (r: Result<(), Error>)
        requires
            old(self).wf(),
        ensures
            every_value(old(self).ch_set_a@) ==> every_value(final(self).ch_set_a@),
            exists|p: int| 0 <= p < 256 && final(self).ch_set_a@ == promote(old(self).ch_set_a@, p),
            final(self).ch_set == old(self).ch_set,
            final(self).ch_set_b == old(self).ch_set_b,
            final(self).ch_set_c == old(self).ch_set_c,
            final(self).continues(*old(self)),
            final(self).output_extends(*old(self), final(out)@, old(out)@),
            r is Ok ==> final(self).advanced(*old(self)),
            old(self).input_complete() && old(self).output_written + 4356 <= old(self).target
                && old(self).output_written + old(self).last_length <= old(self).target
                ==> r is Ok,
            old(self).input_complete() && old(self).bits.pos() + 64 <= usize::MAX ==> stepped_as(
                r,
                short_spec(old(self).dv()),
                final(self).dv(),
                final(out)@,
                old(out)@,
            ),
    {
        proof {
            self.bits.lemma_pos_range();
            assert(promote(old(self).ch_set_a@, 0) == old(self).ch_set_a@);
        }
        self.num_huf = 0;
        let code = match self.read_short_code() {
            Ok(c) => c,
            Err(e) => {
                return Err(e);
            },
        };
        let ghost g = old(self).input_complete() && old(self).bits.pos() + 64 <= usize::MAX;
        let ghost v0 = old(self).dv();
        let ghost p = old(self).short_code().1;
        let ghost lc0: u32 = if old(self).l_count == 2 {
            0
        } else {
            old(self).l_count
        };
        proof {
            old(self).lemma_short_spec_unfold();
            if g {
                assert(code == old(self).short_code().0);
                assert(self.bits.pos() == p);
                if code != 16 {
                    assert(self.l_count == lc0);
                }
            }
        }
        if code == 16 {
            let d = self.last_dist;
            let l = self.last_length;
            proof {
                if g {
                    assert(self.dv() =~= DecView { num_huf: 0, pos: p, ..v0 });
                }
            }
            return self.copy_string(d, l, out);
        }
        proof {
            if g {
                assert(self.dv() =~= DecView { num_huf: 0, pos: p, l_count: lc0, ..v0 });
            }
        }
        if code == 9 {
            self.l_count = self.l_count + 1;
            let d = self.last_dist;
            let l = self.last_length;
            proof {
                if g {
                    assert(self.dv() =~= DecView {
                        num_huf: 0,
                        pos: p,
                        l_count: (lc0 + 1) as u32,
                        ..v0
                    });
                }
            }
            return self.copy_string(d, l, out);
        }
        if code == 14 {
            self.short_far(out)
        } else if code >= 10 {
            self.short_old(code, out)
        } else {
            self.short_ranked(code, out)
        }
    }

    /// A far ShortLZ match: its length in table `L2`, then 15 distance bits.
    #[verifier::spinoff_prover]
    fn short_far(&mut self, out: &mut Vec<u8>) -> (r: Result<(), Error>)
        requires
            old(self).wf(),
        ensures
            final(self).ch_set_a == old(self).ch_set_a,
            final(self).ch_set == old(self).ch_set,
            final(self).ch_set_b == old(self).ch_set_b,
            final(self).ch_set_c == old(self).ch_set_c,
            final(self).continues(*old(self)),
            final(self).output_extends(*old(self), final(out)@, old(out)@),
            r is Ok ==> final(self).advanced(*old(self)),
            old(self).input_complete() && old(self).output_written + 4356 <= old(self).target
                ==> r is Ok,
            old(self).input_complete() && old(self).bits.pos() + 48 <= usize::MAX ==> stepped_as(
                r,
                short_far_spec(old(self).dv()),
                final(self).dv(),
                final(out)@,
                old(out)@,
            ),
    {
        proof {
            self.bits.lemma_pos_range();
        }
        let ghost g = old(self).input_complete() && old(self).bits.pos() + 48 <= usize::MAX;
        let ghost v0 = old(self).dv();
        self.l_count = 0;
        let bf = self.bits.get_bits()?;
        proof {
            lemma_decode_num_bounds(Table::L2, bf);
        }
        let length = self.decode_num(bf, Table::L2) + 5;
        let bf2 = self.bits.get_bits()?;
        let ghost lc = decode_num_spec(Table::L2, peek_bits(v0.data, v0.pos, 16) as u32);
        proof {
            if g {
                assert(self.bits.pos() == v0.pos + lc.1);
            }
        }
        let distance: u32 = (bf2 / 2) | 0x8000;
        self.bits.add_bits(15);
        self.last_length = length;
        self.last_dist = distance;
        proof {
            if g {
                assert(self.dv() =~= DecView {
                    l_count: 0,
                    pos: v0.pos + lc.1 + 15,
                    last_length: length,
                    last_dist: distance,
                    ..v0
                });
            }
        }
        self.copy_string(distance, length, out)
    }

    /// A ShortLZ match at one of the four last distances, its length in
    /// table `L1`; one length of code 10 flips the run flag instead.
    #[verifier::spinoff_prover]
    fn short_old(&mut self, code: u32, out: &mut Vec<u8>) -> (r: Result<(), Error>)
        requires
            old(self).wf(),
            10 <= code <= 15,
            code != 14,
        ensures
            final(self).ch_set_a == old(self).ch_set_a,
            final(self).ch_set == old(self).ch_set,
            final(self).ch_set_b == old(self).ch_set_b,
            final(self).ch_set_c == old(self).ch_set_c,
            final(self).continues(*old(self)),
            final(self).output_extends(*old(self), final(out)@, old(out)@),
            r is Ok ==> final(self).advanced(*old(self)),
            old(self).input_complete() && old(self).output_written + 4356 <= old(self).target
                ==> r is Ok,
            old(self).input_complete() && old(self).bits.pos() + 48 <= usize::MAX ==> stepped_as(
                r,
                short_old_spec(old(self).dv(), code as int),
                final(self).dv(),
                final(out)@,
                old(out)@,
            ),
    {
        proof {
            self.bits.lemma_pos_range();
        }
        let ghost g = old(self).input_complete() && old(self).bits.pos() + 48 <= usize::MAX;
        let ghost v0 = old(self).dv();
        self.l_count = 0;
        let back: usize = ((code - 9) % 4) as usize;
        let distance = self.old_dist[(self.old_dist_ptr + 4 - back) % 4];
        let bf = self.bits.get_bits()?;
        proof {
            lemma_decode_num_bounds(Table::L1, bf);
        }
        let mut length = self.decode_num(bf, Table::L1) + 2;
        let ghost lc = decode_num_spec(Table::L1, peek_bits(v0.data, v0.pos, 16) as u32);
        proof {
            if g {
                assert(self.dv() =~= DecView { l_count: 0, pos: v0.pos + lc.1, ..v0 });
            }
        }
        if length == 0x101 && code == 10 {
            self.buf60 = 1 - self.buf60;
            proof {
                if g {
                    assert(self.dv() =~= short_old_spec(v0, code as int).unwrap().0);
                    assert(out@ =~= old(out)@ + short_old_spec(v0, code as int).unwrap().1);
                }
            }
            return Ok(());
        }
        if distance > 256 {
            length = length + 1;
        }
        if distance >= self.max_dist3 {
            length = length + 1;
        }
        self.remember_match(distance, length);
        proof {
            if g {
                assert(self.dv() =~= remember_spec(
                    DecView { l_count: 0, pos: v0.pos + lc.1, ..v0 },
                    distance,
                    length,
                ));
            }
        }
        self.copy_string(distance, length, out)
    }

    /// A short ShortLZ match of length `code + 2`, its distance ranked in the
    /// distance table at the place coded in table `Hf2`, which moves one
    /// place towards the front.
    #[verifier::spinoff_prover]
    fn short_ranked(&mut self, code: u32, out: &mut Vec<u8>) -> (r: Result<(), Error>)
        requires
            old(self).wf(),
            code < 9,
        ensures
            every_value(old(self).ch_set_a@) ==> every_value(final(self).ch_set_a@),
            exists|p: int| 0 <= p < 256 && final(self).ch_set_a@ == promote(old(self).ch_set_a@, p),
            final(self).ch_set == old(self).ch_set,
            final(self).ch_set_b == old(self).ch_set_b,
            final(self).ch_set_c == old(self).ch_set_c,
            final(self).continues(*old(self)),
            final(self).output_extends(*old(self), final(out)@, old(out)@),
            r is Ok ==> final(self).advanced(*old(self)),
            old(self).input_complete() && old(self).output_written + 10 <= old(self).target
                ==> r is Ok,
            old(self).input_complete() && old(self).bits.pos() + 48 <= usize::MAX ==> stepped_as(
                r,
                short_ranked_spec(old(self).dv(), code as int),
                final(self).dv(),
                final(out)@,
                old(out)@,
            ),
    {
        proof {
            self.bits.lemma_pos_range();
            assert(promote(old(self).ch_set_a@, 0) == old(self).ch_set_a@);
        }
        let ghost g = old(self).input_complete() && old(self).bits.pos() + 48 <= usize::MAX;
        let ghost v0 = old(self).dv();
        self.l_count = 0;
        proof {
            lemma_decay(self.avr_ln1, code, 15, 16);
        }
        self.avr_ln1 = self.avr_ln1 + code;
        self.avr_ln1 = self.avr_ln1 - self.avr_ln1 / 16;
        let bf = self.bits.get_bits()?;
        proof {
            lemma_decode_num_bounds(Table::Hf2, bf);
        }
        let distance_place: usize = (self.decode_num(bf, Table::Hf2) % 256) as usize;
        let mut distance: u32 = self.ch_set_a[distance_place] as u32;
        if distance_place > 0 {
            let last_distance = self.ch_set_a[distance_place - 1];
            self.ch_set_a.set(distance_place, last_distance);
            self.ch_set_a.set(distance_place - 1, distance as u16);
        }
        proof {
            assert(self.ch_set_a@ =~= promote(old(self).ch_set_a@, distance_place as int));
            if every_value(old(self).ch_set_a@) {
                lemma_promote_keeps_values(old(self).ch_set_a@, distance_place as int);
            }
        }
        let length = code + 2;
        distance = distance + 1;
        self.remember_match(distance, length);
        proof {
            if g {
                let pc = decode_num_spec(Table::Hf2, peek_bits(v0.data, v0.pos, 16) as u32);
                let a = v0.avr_ln1 + code;
                assert(self.dv() =~= remember_spec(
                    DecView {
                        l_count: 0,
                        avr_ln1: (a - a / 16) as u32,
                        pos: v0.pos + pc.1,
                        ch_set_a: promote(v0.ch_set_a, distance_place as int),
                        ..v0
                    },
                    distance,
                    length,
                ));
            }
        }
        self.copy_string(distance, length, out)
    }

    /// Decodes a LongLZ token: a match length, an adaptive distance place with
    /// its low seven bits, and the length adjustments for far and near matches.
    /// Its match copies at most 4363 bytes; with the whole input there and
    /// room for them, it succeeds.
    #[verifier::rlimit(100)]
    #[verifier::spinoff_prover]
    fn long_lz(&mut self, out: &mut Vec<u8>) -> (r: Result<(), Error>)
        requires
            old(self).wf(),
        ensures
            every_high(old(self).ch_set_b@) ==> every_high(final(self).ch_set_b@),
            final(self).ch_set == old(self).ch_set,
            final(self).ch_set_a == old(self).ch_set_a,
            final(self).ch_set_c == old(self).ch_set_c,
            final(self).continues(*old(self)),
            final(self).output_extends(*old(self), final(out)@, old(out)@),
            r is Ok ==> final(self).advanced(*old(self)),
            old(self).input_complete() && old(self).output_written + 4363 <= old(self).target
                ==> r is Ok,
            old(self).input_complete() && old(self).bits.pos() + 64 <= usize::MAX ==> stepped_as(
                r,
                long_spec(old(self).dv()),
                final(self).dv(),
                final(out)@,
                old(out)@,
            ),
    {
        let (distance, length) = match self.read_long_lz() {
            Ok(t) => t,
            Err(e) => {
                return Err(e);
            },
        };
        self.copy_string(distance, length, out)
    }

    /// Reads a LongLZ length code and moves the running length average
    /// towards it.
    #[verifier::rlimit(60)]
    fn read_long_length(&mut self) -> (r: Result<u32, Error>)
        requires
            old(self).wf(),
        ensures
            final(self).wf(),
            *final(self) == (Unpack15 {
                bits: final(self).bits,
                avr_ln2: final(self).avr_ln2,
                ..*old(self)
            }),
            final(self).bits.data() == old(self).bits.data(),
            final(self).bits.is_final() == old(self).bits.is_final(),
            final(self).bits.pos() >= old(self).bits.pos(),
            r is Ok && old(self).bits.pos() < usize::MAX ==> final(self).bits.pos() > old(
                self,
            ).bits.pos(),
            old(self).input_complete() ==> r is Ok,
            r matches Ok(v) ==> v < 4352,
            r matches Ok(v) ==> final(self).avr_ln2 == ((old(self).avr_ln2 + v) - (old(self).avr_ln2
                + v) / 32) as u32,
            r is Ok && old(self).bits.pos() + 16 <= usize::MAX ==> final(self).bits.pos()
                <= old(self).bits.pos() + 16,
            old(self).bits.pos() + 64 <= usize::MAX ==> (r matches Ok(v) ==> {
                let lc = long_length_code(
                    old(self).avr_ln2,
                    peek_bits(old(self).bits.data(), old(self).bits.pos(), 16) as u32,
                );
                &&& v == lc.0
                &&& final(self).bits.pos() == old(self).bits.pos() + lc.1
            }),
    {
        proof {
            self.bits.lemma_pos_range();
        }
        let bit_field = match self.bits.get_bits() {
            Ok(v) => v,
            Err(e) => {
                return Err(e);
            },
        };
        proof {
            lemma_decode_num_bounds(Table::L2, bit_field);
            lemma_decode_num_bounds(Table::L1, bit_field);
        }
        let length: u32 = if self.avr_ln2 >= 122 {
            self.decode_num(bit_field, Table::L2)
        } else if self.avr_ln2 >= 64 {
            self.decode_num(bit_field, Table::L1)
        } else if bit_field < 0x100 {
            self.bits.add_bits(16);
            bit_field
        } else {
            let mut zeros: u32 = 0;
            while zeros < 8 && (bit_field >> (15 - zeros)) & 1 == 0
                invariant
                    zeros <= 8,
                    zeros_from(bit_field, zeros) == zeros_from(bit_field, 0),
                decreases 8 - zeros,
            {
                zeros = zeros + 1;
            }
            self.bits.add_bits((zeros + 1) as usize);
            zeros
        };
        proof {
            lemma_decay(self.avr_ln2, length, 4352, 32);
        }
        self.avr_ln2 = self.avr_ln2 + length;
        self.avr_ln2 = self.avr_ln2 - self.avr_ln2 / 32;
        Ok(length)
    }

    /// Reads a LongLZ distance: its place in the LongLZ table, which is
    /// promoted, and its low seven bits.
    #[verifier::rlimit(60)]
    fn read_long_distance(&mut self) -> (r: Result<u32, Error>)
        requires
            old(self).wf(),
        ensures
            old(self).tables_complete() ==> final(self).tables_complete(),
            every_high(old(self).ch_set_b@) ==> every_high(final(self).ch_set_b@),
            final(self).wf(),
            *final(self) == (Unpack15 {
                bits: final(self).bits,
                avr_plc_b: final(self).avr_plc_b,
                ch_set_b: final(self).ch_set_b,
                n_to_pl_b: final(self).n_to_pl_b,
                ..*old(self)
            }),
            final(self).bits.data() == old(self).bits.data(),
            final(self).bits.is_final() == old(self).bits.is_final(),
            final(self).bits.pos() >= old(self).bits.pos(),
            r is Ok && old(self).bits.pos() < usize::MAX ==> final(self).bits.pos() > old(
                self,
            ).bits.pos(),
            old(self).input_complete() ==> r is Ok,
            old(self).bits.pos() + 48 <= usize::MAX ==> (r matches Ok(d) ==> {
                let data = old(self).bits.data();
                let pc = decode_num_spec(
                    long_distance_table(old(self).avr_plc_b),
                    peek_bits(data, old(self).bits.pos(), 16) as u32,
                );
                let idx = pc.0 % 256;
                let p2 = old(self).bits.pos() + pc.1;
                let symbol = old(self).ch_set_b@[idx as int] >> 8;
                &&& d == ((symbol * 256 + (peek_bits(data, p2, 16) as u32) / 256) / 2) as u32
                &&& final(self).bits.pos() == p2 + 7
                &&& final(self).avr_plc_b == ((old(self).avr_plc_b + pc.0) - (old(self).avr_plc_b
                    + pc.0) / 256) as u32
                &&& (final(self).ch_set_b@, final(self).n_to_pl_b@) == bump_spec(
                    old(self).ch_set_b@,
                    old(self).n_to_pl_b@,
                    idx as int,
                    false,
                )
            }),
    {
        proof {
            self.bits.lemma_pos_range();
        }
        let bit_field = match self.bits.get_bits() {
            Ok(v) => v,
            Err(e) => {
                return Err(e);
            },
        };
        proof {
            lemma_decode_num_bounds(long_distance_table(old(self).avr_plc_b), bit_field);
        }
        let distance_place = if self.avr_plc_b > 0x28ff {
            self.decode_num(bit_field, Table::Hf2)
        } else if self.avr_plc_b > 0x06ff {
            self.decode_num(bit_field, Table::Hf1)
        } else {
            self.decode_num(bit_field, Table::Hf0)
        };
        proof {
            lemma_decay(self.avr_plc_b, distance_place, 4352, 256);
        }
        self.avr_plc_b = self.avr_plc_b + distance_place;
        self.avr_plc_b = self.avr_plc_b - self.avr_plc_b / 256;
        let idx: usize = (distance_place % 256) as usize;
        let symbol = bump(&mut self.ch_set_b, &mut self.n_to_pl_b, idx, false);
        let low = match self.bits.get_bits() {
            Ok(v) => v,
            Err(e) => {
                return Err(e);
            },
        };
        let distance: u32 = (symbol as u32 * 256 + low / 256) / 2;
        self.bits.add_bits(7);
        Ok(distance)
    }

    /// Reads a LongLZ token and updates the statistics, the LongLZ table and
    /// the remembered matches: the match's distance and length.
    #[verifier::rlimit(100)]
    #[verifier::spinoff_prover]
    fn read_long_lz(&mut self) -> (r: Result<(u32, u32), Error>)
        requires
            old(self).wf(),
        ensures
            old(self).tables_complete() ==> final(self).tables_complete(),
            final(self).wf(),
            final(self).bits.data() == old(self).bits.data(),
            final(self).bits.is_final() == old(self).bits.is_final(),
            final(self).bits.pos() >= old(self).bits.pos(),
            r is Ok && old(self).bits.pos() < usize::MAX ==> final(self).bits.pos() > old(
                self,
            ).bits.pos(),
            final(self).output_written == old(self).output_written,
            final(self).target == old(self).target,
            final(self).window == old(self).window,
            final(self).unp_ptr == old(self).unp_ptr,
            final(self).first_win_done == old(self).first_win_done,
            old(self).input_complete() ==> r is Ok,
            r matches Ok((d, l)) ==> l <= 4363 && final(self).last_dist == d
                && final(self).last_length == l,
            every_high(old(self).ch_set_b@) ==> every_high(final(self).ch_set_b@),
            final(self).ch_set == old(self).ch_set,
            final(self).ch_set_a == old(self).ch_set_a,
            final(self).ch_set_c == old(self).ch_set_c,
            old(self).input_complete() && old(self).bits.pos() + 64 <= usize::MAX ==> (r matches Ok(
                (d, l),
            ) && (final(self).dv(), d, l) == long_read_spec(old(self).dv())),
            old(self).bits.pos() + 64 <= usize::MAX ==> (r matches Ok((d, l)) ==> {
                let t = old(self).long_token();
                &&& d == t.0
                &&& l == t.1
                &&& final(self).bits.pos() == t.2
                &&& (final(self).ch_set_b@, final(self).n_to_pl_b@) == bump_spec(
                    old(self).ch_set_b@,
                    old(self).n_to_pl_b@,
                    t.3,
                    false,
                )
            }),
    {
        proof {
            self.bits.lemma_pos_range();
        }
        self.num_huf = 0;
        self.nlzb = self.nlzb + 16;
        if self.nlzb > 0xff {
            self.nlzb = 0x90;
            self.nhfb = self.nhfb / 2;
        }
        let old_avr2 = self.avr_ln2;
        let ghost g = old(self).bits.pos() + 64 <= usize::MAX;
        let ghost p0 = old(self).bits.pos();
        let mut length = match self.read_long_length() {
            Ok(v) => v,
            Err(e) => {
                return Err(e);
            },
        };
        let ghost mid = *self;
        let distance = match self.read_long_distance() {
            Ok(v) => v,
            Err(e) => {
                return Err(e);
            },
        };
        proof {
            if g {
                let lc = long_length_code(
                    old(self).avr_ln2,
                    peek_bits(old(self).bits.data(), p0, 16) as u32,
                );
                assert(mid.bits.pos() == p0 + lc.1);
                assert(mid.avr_plc_b == old(self).avr_plc_b);
                assert(mid.ch_set_b == old(self).ch_set_b);
                assert(mid.n_to_pl_b == old(self).n_to_pl_b);
                assert(mid.bits.data() == old(self).bits.data());
                assert(length == lc.0);
                let t = old(self).long_token();
                assert(distance == t.0);
                assert(self.bits.pos() == t.2);
            }
        }
        let old_avr3 = self.avr_ln3;
        if length != 1 && length != 4 {
            if length == 0 && distance <= self.max_dist3 {
                proof {
                    lemma_decay(self.avr_ln3, 1, 1, 256);
                }
                self.avr_ln3 = self.avr_ln3 + 1;
                self.avr_ln3 = self.avr_ln3 - self.avr_ln3 / 256;
            } else if self.avr_ln3 > 0 {
                self.avr_ln3 = self.avr_ln3 - 1;
            }
        }
        length = length + 3;
        if distance >= self.max_dist3 {
            length = length + 1;
        }
        if distance <= 256 {
            length = length + 8;
        }
        if old_avr3 > 0xb0 || (self.avr_plc >= 0x2a00 && old_avr2 < 0x40) {
            self.max_dist3 = 0x7f00;
        } else {
            self.max_dist3 = 0x2001;
        }
        proof {
            if g {
                assert(length == old(self).long_token().1);
            }
        }
        self.remember_match(distance, length);
        proof {
            if g && old(self).input_complete() {
                let sp = long_read_spec(old(self).dv());
                assert(distance == sp.1);
                assert(length == sp.2);
                assert(self.dv() =~= sp.0);
            }
        }
        Ok((distance, length))
    }

    /// Decodes a literal (or, in the run mode, a short match or the end of the
    /// run mode).
    /// It writes at most four bytes; with the whole input there and room for
    /// them, it succeeds.
    #[verifier::rlimit(80)]
    #[verifier::spinoff_prover]
    fn huff_decode(&mut self, out: &mut Vec<u8>) -> (r: Result<(), Error>)
        requires
            old(self).wf(),
        ensures
            every_high(old(self).ch_set@) && ranks_below(old(self).ch_set@) ==> every_high(
                final(self).ch_set@,
            ) && ranks_below(final(self).ch_set@),
            final(self).ch_set_a == old(self).ch_set_a,
            final(self).ch_set_b == old(self).ch_set_b,
            final(self).ch_set_c == old(self).ch_set_c,
            final(self).continues(*old(self)),
            final(self).output_extends(*old(self), final(out)@, old(out)@),
            r is Ok ==> final(self).advanced(*old(self)),
            old(self).input_complete() && old(self).output_written + 4 <= old(self).target
                ==> r is Ok,
            old(self).input_complete() && old(self).bits.pos() + 64 <= usize::MAX ==> stepped_as(
                r,
                huff_spec(old(self).dv()),
                final(self).dv(),
                final(out)@,
                old(out)@,
            ),
    {
        proof {
            self.bits.lemma_pos_range();
        }
        let ghost g = old(self).input_complete() && old(self).bits.pos() + 64 <= usize::MAX;
        let ghost v0 = old(self).dv();
        let bit_field = self.bits.get_bits()?;
        let decoded = if self.avr_plc > 0x75ff {
            self.decode_num(bit_field, Table::Hf4)
        } else if self.avr_plc > 0x5dff {
            self.decode_num(bit_field, Table::Hf3)
        } else if self.avr_plc > 0x35ff {
            self.decode_num(bit_field, Table::Hf2)
        } else if self.avr_plc > 0x0dff {
            self.decode_num(bit_field, Table::Hf1)
        } else {
            self.decode_num(bit_field, Table::Hf0)
        };
        let ghost c = decode_num_spec(literal_table_for(old(self).avr_plc), bit_field);
        proof {
            lemma_decode_num_bounds(literal_table_for(old(self).avr_plc), bit_field);
            assert(decoded == c.0);
            if g {
                assert(self.bits.pos() == old(self).bits.pos() + c.1);
                assert(bit_field == crate::decoding::field(v0, v0.pos));
            }
        }
        let mut byte_place: u32 = decoded % 256;
        if self.st_mode {
            if byte_place == 0 && bit_field > 0x0fff {
                byte_place = 0x100;
            }
            if byte_place == 0 {
                let bf = self.bits.get_bits()?;
                self.bits.add_bits(1);
                if bf >= 0x8000 {
                    self.num_huf = 0;
                    self.st_mode = false;
                    proof {
                        if g {
                            assert(self.dv() =~= huff_spec(v0).unwrap().0);
                            assert(out@ =~= old(out)@ + huff_spec(v0).unwrap().1);
                        }
                    }
                    return Ok(());
                }
                let length: u32 = if (bf / 0x4000) % 2 == 1 {
                    4
                } else {
                    3
                };
                self.bits.add_bits(1);
                let bf2 = self.bits.get_bits()?;
                proof {
                    lemma_decode_num_bounds(Table::Hf2, bf2);
                }
                let high = self.decode_num(bf2, Table::Hf2);
                let bf3 = self.bits.get_bits()?;
                let distance: u32 = high * 32 + bf3 / 2048;
                self.bits.add_bits(5);
                proof {
                    if g {
                        let p1 = v0.pos + c.1;
                        let hc = decode_num_spec(Table::Hf2, crate::decoding::field(v0, p1 + 2));
                        assert(bf == crate::decoding::field(v0, p1));
                        assert(bf2 == crate::decoding::field(v0, p1 + 2));
                        assert(bf3 == crate::decoding::field(v0, p1 + 2 + hc.1));
                        assert(self.dv() =~= DecView { pos: p1 + 2 + hc.1 + 5, ..v0 });
                    }
                }
                return self.copy_string(distance, length, out);
            }
            byte_place = byte_place - 1;
        } else {
            if self.num_huf >= 16 && self.flags_cnt == 0 {
                self.st_mode = true;
            }
            self.num_huf = self.num_huf.saturating_add(1);
        }
        proof {
            lemma_decay(self.avr_plc, byte_place, 255, 256);
        }
        self.avr_plc = self.avr_plc + byte_place;
        self.avr_plc = self.avr_plc - self.avr_plc / 256;
        self.nhfb = self.nhfb + 16;
        if self.nhfb > 0xff {
            self.nhfb = 0x90;
            self.nlzb = self.nlzb / 2;
        }
        let place: usize = byte_place as usize;
        let byte: u8 = (self.ch_set[place] / 256) as u8;
        proof {
            if g {
                let p1 = v0.pos + c.1;
                let base = if old(self).st_mode {
                    v0
                } else {
                    DecView {
                        st_mode: v0.num_huf >= 16 && v0.flags_cnt == 0,
                        num_huf: if v0.num_huf == u32::MAX {
                            u32::MAX
                        } else {
                            (v0.num_huf + 1) as u32
                        },
                        ..v0
                    }
                };
                let nh = base.nhfb + 16;
                let v1 = DecView {
                    pos: p1,
                    avr_plc: ((base.avr_plc + place) - (base.avr_plc + place) / 256) as u32,
                    nhfb: if nh > 0xff {
                        0x90
                    } else {
                        nh as u32
                    },
                    nlzb: if nh > 0xff {
                        base.nlzb / 2
                    } else {
                        base.nlzb
                    },
                    ..base
                };
                assert(self.dv() =~= v1);
                assert(huff_spec(v0) == literal_spec(base, place as int, p1));
            }
        }
        self.put_byte(byte, out)?;
        bump(&mut self.ch_set, &mut self.n_to_pl, place, true);
        proof {
            if g {
                let p1 = v0.pos + c.1;
                let sp = huff_spec(v0);
                assert(sp is Ok);
                assert(self.dv() =~= sp.unwrap().0);
            }
        }
        Ok(())
    }

    /// Decodes one token under the control of the flag bits.
    /// With the whole input there and room for the longest token, or the
    /// last match again, it succeeds.
    #[verifier::rlimit(100)]
    #[verifier::spinoff_prover]
    fn decode_step(&mut self, out: &mut Vec<u8>) -> (r: Result<(), Error>)
        requires
            old(self).wf(),
        ensures
            old(self).tables_complete() ==> final(self).tables_complete(),
            final(self).continues(*old(self)),
            final(self).output_extends(*old(self), final(out)@, old(out)@),
            r is Ok ==> final(self).advanced(*old(self)),
            old(self).input_complete() && old(self).output_written + 4363 <= old(self).target
                && old(self).output_written + old(self).last_length <= old(self).target
                ==> r is Ok,
            old(self).input_complete() && old(self).bits.pos() + 128 <= usize::MAX ==> stepped_as(
                r,
                step_spec(old(self).dv()),
                final(self).dv(),
                final(out)@,
                old(out)@,
            ),
    {
        proof {
            self.bits.lemma_pos_range();
        }
        let ghost g = old(self).input_complete() && old(self).bits.pos() + 128 <= usize::MAX;
        let ghost v0 = old(self).dv();
        proof {
            reveal(step_spec);
        }
        if self.flags_cnt == -2 {
            self.get_flags_buf()?;
            self.flags_cnt = 8;
        }
        self.first_win_done = self.first_win_done || self.prev_ptr > self.unp_ptr;
        self.prev_ptr = self.unp_ptr;
        let ghost v1 = if v0.flags_cnt == -2 {
            DecView { flags_cnt: 8, ..flags_spec(v0) }
        } else {
            v0
        };
        let ghost v2 = DecView {
            first_win_done: v1.first_win_done || v1.prev_ptr > v1.unp_ptr,
            prev_ptr: v1.unp_ptr,
            ..v1
        };
        proof {
            if g {
                assert(self.dv() =~= v2);
                assert(self.bits.pos() <= v0.pos + 12);
            }
        }
        if self.st_mode {
            return self.huff_decode(out);
        }
        self.flags_cnt = self.flags_cnt - 1;
        if self.flags_cnt < 0 {
            self.get_flags_buf()?;
            self.flags_cnt = 7;
        }
        let ghost v3 = next_flag_spec(v2);
        proof {
            if g {
                assert(self.dv() =~= v3);
                assert(self.bits.pos() <= v0.pos + 24);
            }
        }
        if self.flag_buf >= 0x80 {
            self.flag_buf = (self.flag_buf * 2) % 256;
            if self.nlzb > self.nhfb {
                self.long_lz(out)
            } else {
                self.huff_decode(out)
            }
        } else {
            self.flag_buf = (self.flag_buf * 2) % 256;
            self.flags_cnt = self.flags_cnt - 1;
            if self.flags_cnt < 0 {
                self.get_flags_buf()?;
                self.flags_cnt = 7;
            }
            let ghost v5 = next_flag_spec(DecView { flag_buf: ((v3.flag_buf * 2) % 256) as u32, ..v3 });
            proof {
                if g {
                    assert(self.dv() =~= v5);
                    assert(self.bits.pos() <= v0.pos + 36);
                }
            }
            if self.flag_buf >= 0x80 {
                self.flag_buf = (self.flag_buf * 2) % 256;
                if self.nlzb > self.nhfb {
                    self.huff_decode(out)
                } else {
                    self.long_lz(out)
                }
            } else {
                self.flag_buf = (self.flag_buf * 2) % 256;
                self.short_lz(out)
            }
        }
    }

    /// Runs decode steps until the member is complete.
    #[verifier::rlimit(60)]
    #[verifier::spinoff_prover]
    fn decode_loop(&mut self, out: &mut Vec<u8>) -> (r: Result<(), Error>)
        requires
            old(self).wf(),
        ensures
            final(self).continues(*old(self)),
            final(self).output_extends(*old(self), final(out)@, old(out)@),
            r is Ok ==> final(self).output_written == final(self).target,
            old(self).output_written == old(self).target ==> r is Ok && final(out)@ == old(out)@,
            old(self).tables_complete() ==> final(self).tables_complete(),
            old(self).input_complete() ==> ran_as(
                r,
                run_spec(old(self).dv()),
                final(self).dv(),
                final(out)@,
                old(out)@,
            ),
    {
        if self.target == 0 {
            proof {
                assert(out@ =~= old(out)@ + Seq::<u8>::empty());
            }
            return Ok(());
        }
        while self.output_written < self.target
            invariant
                self.continues(*old(self)),
                self.output_extends(*old(self), out@, old(out)@),
                old(self).tables_complete() ==> self.tables_complete(),
                old(self).input_complete() ==> (run_spec(old(self).dv()) is None || run_spec(
                    old(self).dv(),
                ) == prefixed(out@.subrange(old(out)@.len() as int, out@.len() as int), run_spec(self.dv()))),
            decreases usize::MAX - self.bits.pos(),
        {
            proof {
                self.bits.lemma_pos_range();
            }
            if self.bits.position() == usize::MAX {
                return Err(Error::InvalidData("RAR 1.3 bitstream is truncated"));
            }
            let ghost before = *self;
            let ghost before_out = out@;
            let step = self.decode_step(out);
            match step {
                Ok(()) => {},
                Err(e) => {
                    return Err(e);
                },
            }
            proof {
                self.bits.lemma_pos_range();
                assert(self.bits.pos() > before.bits.pos());
                assert(out@.subrange(0, old(out)@.len() as int) =~= old(out)@) by {
                    assert(before_out.subrange(0, old(out)@.len() as int) =~= old(out)@);
                    assert(out@.subrange(0, before_out.len() as int) =~= before_out);
                }
                if old(self).input_complete() && before.bits.pos() + 128 <= usize::MAX {
                    let b = step_spec(before.dv()).unwrap().1;
                    let done = before_out.subrange(old(out)@.len() as int, before_out.len() as int);
                    lemma_prefixed_twice(done, b, run_spec(self.dv()));
                    assert(out@.subrange(old(out)@.len() as int, out@.len() as int) =~= done + b);
                }
            }
        }
        proof {
            if old(self).input_complete() && run_spec(old(self).dv()) is Some {
                assert(out@ =~= old(out)@ + out@.subrange(old(out)@.len() as int, out@.len() as int));
            }
        }
        Ok(())
    }

    /// Decodes one member of `target` bytes from `input`; a solid member keeps
    /// the window and the adaptive statistics of the previous member.
    pub fn decode_member(&mut self, input: &[u8], target: usize, solid: bool) -> (r: Result<
        Vec<u8>,
        Error,
    >)
        requires
            old(self).wf(),
        ensures
            final(self).wf(),
            r matches Ok(v) ==> v@.len() == target,
            target == 0 ==> (r matches Ok(v) && v@.len() == 0),
            r matches Err(e) ==> e != Error::NeedMoreInput,
            match member_spec(old(self).dv(), input@, target as int, solid) {
                Some(Ok((v, b))) => r matches Ok(o) && o@ == b && final(self).dv() == v,
                Some(Err(e)) => r == Err::<Vec<u8>, Error>(e),
                None => true,
            },
    {
        let mut output: Vec<u8> = Vec::new();
        let res = self.decode_member_to(input, target, solid, &mut output);
        proof {
            if res is Ok {
                assert(output@ =~= Seq::<u8>::empty() + (output@));
            }
        }
        match res {
            Ok(()) => {
                proof {
                    match member_spec(old(self).dv(), input@, target as int, solid) {
                        Some(Ok((v, b))) => {
                            assert(output@ =~= b);
                        },
                        _ => {},
                    }
                }
                Ok(output)
            },
            Err(e) => Err(e),
        }
    }

    /// Decodes one member of `target` bytes from `input`, appending to `out`.
    pub fn decode_member_to(&mut self, input: &[u8], target: usize, solid: bool, out: &mut Vec<
        u8,
    >) -> (r: Result<(), Error>)
        requires
            old(self).wf(),
        ensures
            !solid || old(self).tables_complete() ==> final(self).tables_complete(),
            final(self).wf(),
            final(out)@.subrange(0, old(out)@.len() as int) == old(out)@,
            r is Ok ==> final(out)@.len() == old(out)@.len() + target,
            final(out)@.len() <= old(out)@.len() + target,
            target == 0 ==> r is Ok && final(out)@ == old(out)@,
            r matches Err(e) ==> e != Error::NeedMoreInput,
            ran_as(
                r,
                member_spec(old(self).dv(), input@, target as int, solid),
                final(self).dv(),
                final(out)@,
                old(out)@,
            ),
    {
        self.init_member(target, solid);
        self.bits = BitReader::new_final(input);
        proof {
            assert(self.dv() =~= member_start(old(self).dv(), input@, target as int, solid));
        }
        let r = self.decode_loop(out);
        proof {
            if target == 0 {
                assert(out@ =~= old(out)@);
            }
            lemma_run_errors(member_start(old(self).dv(), input@, target as int, solid));
        }
        match r {
            Ok(()) => Ok(()),
            Err(Error::NeedMoreInput) => Err(Error::InvalidData("RAR 1.3 bitstream is truncated")),
            Err(e) => Err(e),
        }
    }

    /// Starts a member whose input will arrive in pieces through `push_input`.
    pub fn begin_member(&mut self, target: usize, solid: bool)
        requires
            old(self).wf(),
        ensures
            final(self).wf(),
            final(self).member_size() == target,
            final(self).written() == 0,
            final(self).buffered() == Seq::<u8>::empty(),
            !final(self).input_complete(),
            final(self).dv() == member_start(old(self).dv(), Seq::empty(), target as int, solid),
    {
        self.init_member(target, solid);
        self.bits = BitReader::new(&[]);
        proof {
            assert(self.bits.data() =~= Seq::<u8>::empty());
            assert(self.dv() =~= member_start(old(self).dv(), Seq::empty(), target as int, solid));
        }
    }

    /// The member input buffered so far.
    pub closed spec fn buffered(&self) -> Seq<u8> {
        self.bits.data()
    }

    /// Whether the member input is complete.
    pub closed spec fn input_complete(&self) -> bool {
        self.bits.is_final()
    }

    /// Adds the next piece of member input.
    pub fn push_input(&mut self, input: &[u8])
        requires
            old(self).wf(),
        ensures
            final(self).wf(),
            final(self).buffered() == old(self).buffered() + input@,
            final(self).buffered().len() <= usize::MAX,
            final(self).input_complete() == old(self).input_complete(),
            final(self).member_size() == old(self).member_size(),
            final(self).written() == old(self).written(),
            final(self).dv() == (DecView { data: old(self).dv().data + input@, ..old(self).dv() }),
    {
        self.bits.append(input);
        proof {
            assert(self.dv() =~= DecView { data: old(self).dv().data + input@, ..old(self).dv() });
        }
    }

    /// Marks the member input as complete.
    pub fn finish_input(&mut self)
        requires
            old(self).wf(),
        ensures
            final(self).wf(),
            final(self).buffered() == old(self).buffered(),
            final(self).input_complete(),
            final(self).member_size() == old(self).member_size(),
            final(self).written() == old(self).written(),
            final(self).dv() == old(self).dv(),
    {
        self.bits.finish();
    }

    /// Decodes the rest of the member once its input is complete; until then
    /// it asks for more input and changes nothing.
    pub fn decode_pending(&mut self, out: &mut Vec<u8>) -> (r: Result<(), Error>)
        requires
            old(self).wf(),
        ensures
            final(self).wf(),
            final(out)@.subrange(0, old(out)@.len() as int) == old(out)@,
            !old(self).input_complete() ==> r == Err::<(), Error>(Error::NeedMoreInput)
                && final(out)@ == old(out)@,
            old(self).input_complete() && r is Ok ==> final(out)@.len() == old(out)@.len() + (
            old(self).member_size() - old(self).written()),
            old(self).input_complete() ==> (r matches Err(e) ==> e != Error::NeedMoreInput),
            old(self).input_complete() ==> ran_as(
                r,
                run_spec(old(self).dv()),
                final(self).dv(),
                final(out)@,
                old(out)@,
            ),
    {
        if !self.bits.is_final_exec() {
            return Err(Error::NeedMoreInput);
        }
        let r = self.decode_loop(out);
        proof {
            lemma_run_errors(old(self).dv());
        }
        match r {
            Ok(()) => Ok(()),
            Err(Error::NeedMoreInput) => Err(Error::InvalidData("RAR 1.3 bitstream is truncated")),
            Err(e) => Err(e),
        }
    }

    /// Decodes a member whose packed input arrives in pieces from `read`: an
    /// empty piece ends the input, `None` reports that reading failed.
    pub fn decode_member_from_reader<R>(
        &mut self,
        mut read: R,
        target: usize,
        solid: bool,
        out: &mut Vec<u8>,
    ) -> (r: Result<(), Error>) where R: FnMut() -> Option<Vec<u8>>
        requires
            old(self).wf(),
            call_requires(read, ()),
            forall|piece: Option<Vec<u8>>| call_ensures(read, (), piece) ==> call_requires(read, ()),
        ensures
            final(self).wf(),
            final(out)@.subrange(0, old(out)@.len() as int) == old(out)@,
            r is Ok ==> final(out)@.len() == old(out)@.len() + target,
            r matches Err(e) ==> e != Error::NeedMoreInput,
            r == Err::<(), Error>(Error::InvalidData("RAR 1.3 input read failed")) || (exists|
                joined: Seq<u8>,
            |
                ran_as(
                    r,
                    #[trigger] member_spec(old(self).dv(), joined, target as int, solid),
                    final(self).dv(),
                    final(out)@,
                    old(out)@,
                )),
    {
        self.begin_member(target, solid);
        loop
            invariant
                self.wf(),
                self.member_size() == target,
                self.written() == 0,
                !self.input_complete(),
                self.buffered().len() <= usize::MAX,
                out@ == old(out)@,
                self.dv() == member_start(old(self).dv(), self.buffered(), target as int, solid),
                call_requires(read, ()),
                forall|piece: Option<Vec<u8>>|
                    call_ensures(read, (), piece) ==> call_requires(read, ()),
            decreases usize::MAX - self.buffered().len(),
        {
            let piece = match read() {
                Some(p) => p,
                None => {
                    return Err(Error::InvalidData("RAR 1.3 input read failed"));
                },
            };
            if piece.len() == 0 {
                break ;
            }
            let ghost before = self.buffered();
            self.push_input(piece.as_slice());
            proof {
                assert(self.dv() =~= member_start(
                    old(self).dv(),
                    self.buffered(),
                    target as int,
                    solid,
                ));
            }
        }
        self.finish_input();
        let ghost joined = self.buffered();
        let r = self.decode_pending(out);
        proof {
            assert(ran_as(
                r,
                member_spec(old(self).dv(), joined, target as int, solid),
                self.dv(),
                out@,
                old(out)@,
            ));
        }
        r
    }

    fn short_len1(&self, pos: usize) -> (v: u32)
        requires
            self.wf(),
            pos < 16,
        ensures
            v <= 8,
            pos == 9 ==> v == 4,
            v == dec_short_len(0, self.buf60, pos as int),
    {
        if pos == 1 {
            self.buf60 + 3
        } else {
            short_len1_table(pos) as u32
        }
    }

    fn short_len2(&self, pos: usize) -> (v: u32)
        requires
            self.wf(),
            pos < 16,
        ensures
            v <= 8,
            pos == 9 ==> v == 4,
            v == dec_short_len(37, self.buf60, pos as int),
    {
        if pos == 3 {
            self.buf60 + 3
        } else {
            short_len2_table(pos) as u32
        }
    }
}

/// Decodes a complete, non-solid member of `output_size` bytes.
pub fn unpack15_decode(input: &[u8], output_size: usize) -> (r: Result<Vec<u8>, Error>)
    ensures
        r matches Ok(v) ==> v@.len() == output_size,
        output_size == 0 ==> (r matches Ok(v) && v@.len() == 0),
        r matches Err(e) ==> e != Error::NeedMoreInput,
        match unpack15_spec(input@, output_size as int) {
            Some(Ok(b)) => r matches Ok(o) && o@ == b,
            Some(Err(e)) => r == Err::<Vec<u8>, Error>(e),
            None => true,
        },
{
    let mut decoder = Unpack15::new();
    let mut output: Vec<u8> = Vec::new();
    let res = decoder.decode_member_to(input, output_size, false, &mut output);
    match res {
        Ok(()) => {
            proof {
                match unpack15_spec(input@, output_size as int) {
                    Some(Ok(b)) => {
                        assert(output@ =~= b);
                    },
                    _ => {},
                }
            }
            Ok(output)
        },
        Err(e) => Err(e),
    }
}

} // verus!
