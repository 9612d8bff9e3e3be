use vstd::prelude::*;

use crate::bitio::{packs, value_bits, BitWriter};
use crate::codec::no_match;
use crate::decoding::{fresh_member, prefixed, run_spec, unpack15_spec, DecView};
use crate::readback::{
    literal_done, lemma_exit_reads_back, lemma_flags_literal_reads_back, lemma_literal_reads_back, reads_prefix,
};
use crate::codec::{
    appends_code, corr_huff, decode_num_spec, emit_decode_num, table_start, find_long_lz, find_short_lz, lemma_byte_tables_cover,
    Error, LongLz, ShortLz, Table,
};
use crate::unpack::{
    avr_ln1_max, avr_ln2_max, avr_ln3_max, avr_plc_b_max, avr_plc_max, bump, bump_spec, every_high,
    holds_high, lemma_decay, lemma_rank_keeps_high, ranks_below,
    short_len1_seq, short_len2_seq, short_xor1, short_xor1_seq, short_xor2, short_xor2_seq,
};

verus! {

/// One token of the compressed stream.
#[derive(Debug, Clone, Copy, PartialEq, Eq, Structural)]
pub enum EncodedToken {
    Literal(u8),
    ShortLz(ShortLz),
    LongLz(LongLz),
}

/// The token fits the ranges its code can express.
pub open spec fn token_ok(t: EncodedToken) -> bool {
    match t {
        EncodedToken::Literal(_) => true,
        EncodedToken::ShortLz(m) => 1 <= m.distance <= 256 && 3 <= m.length <= 10,
        EncodedToken::LongLz(m) => 257 <= m.distance <= 0x8000 && 3 <= m.length <= 18,
    }
}

/// The flag code that announces a token: a single `1` or the pair `0 1`.
#[derive(Debug, Clone, Copy, PartialEq, Eq, Structural)]
pub enum FlagCode {
    One,
    ZeroOne,
}

impl FlagCode {
    pub open spec fn spec_len(self) -> nat {
        match self {
            FlagCode::One => 1,
            FlagCode::ZeroOne => 2,
        }
    }

    /// The number of flag bits.
    pub fn len(self) -> (n: usize)
        ensures
            n == self.spec_len(),
    {
        match self {
            FlagCode::One => 1,
            FlagCode::ZeroOne => 2,
        }
    }
}

/// The flag code of a literal: `1` when literals are the more frequent kind.
pub fn huff_flag_bits(prefer_huff_on_one: bool) -> (code: FlagCode)
    ensures
        code == if prefer_huff_on_one {
            FlagCode::One
        } else {
            FlagCode::ZeroOne
        },
{
    if prefer_huff_on_one {
        FlagCode::One
    } else {
        FlagCode::ZeroOne
    }
}

/// The flag code of a LongLZ match: `1` when long matches are the more
/// frequent kind.
pub fn long_lz_flag_bits(prefer_long_lz_on_one: bool) -> (code: FlagCode)
    ensures
        code == if prefer_long_lz_on_one {
            FlagCode::One
        } else {
            FlagCode::ZeroOne
        },
{
    if prefer_long_lz_on_one {
        FlagCode::One
    } else {
        FlagCode::ZeroOne
    }
}

/// Sets the `1` bit of a flag code placed at bit `start` (0 = most
/// significant) of the flag byte; the `0` bits are already clear.
pub fn write_planned_flag_bits(flags: &mut u8, start: usize, code: FlagCode)
    requires
        start + code.spec_len() <= 8,
    ensures
        *final(flags) == *old(flags) | (1u8 << ((7 - start - code.spec_len() + 1) as u8)),
{
    let offset: usize = match code {
        FlagCode::One => 0,
        FlagCode::ZeroOne => 1,
    };
    *flags = *flags | (1u8 << ((7 - start - offset) as u8));
}

/// The planned effect of a literal on the literal/match frequency counters.
pub fn plan_huff_effect(nhfb: &mut u32, nlzb: &mut u32)
    requires
        *old(nhfb) <= 0xff,
        *old(nlzb) <= 0xff,
    ensures
        *final(nhfb) <= 0xff,
        *final(nlzb) <= 0xff,
        *old(nhfb) + 16 > 0xff ==> *final(nhfb) == 0x90 && *final(nlzb) == *old(nlzb) / 2,
        *old(nhfb) + 16 <= 0xff ==> *final(nhfb) == *old(nhfb) + 16 && *final(nlzb) == *old(nlzb),
{
    *nhfb = *nhfb + 16;
    if *nhfb > 0xff {
        *nhfb = 0x90;
        *nlzb = *nlzb / 2;
    }
}

/// The planned effect of a LongLZ match on the frequency counters.
pub fn plan_long_lz_effect(nhfb: &mut u32, nlzb: &mut u32)
    requires
        *old(nhfb) <= 0xff,
        *old(nlzb) <= 0xff,
    ensures
        *final(nhfb) <= 0xff,
        *final(nlzb) <= 0xff,
        *old(nlzb) + 16 > 0xff ==> *final(nlzb) == 0x90 && *final(nhfb) == *old(nhfb) / 2,
        *old(nlzb) + 16 <= 0xff ==> *final(nlzb) == *old(nlzb) + 16 && *final(nhfb) == *old(nhfb),
{
    *nlzb = *nlzb + 16;
    if *nlzb > 0xff {
        *nlzb = 0x90;
        *nhfb = *nhfb / 2;
    }
}

/// Writes the unary LongLZ length code for a length code of at most 15:
/// `length_code` zero bits and a one bit.
pub fn emit_long_lz_length(bits: &mut BitWriter, length_code: u32) -> (r: Result<(), Error>)
    requires
        old(bits).wf(),
    ensures
        final(bits).wf(),
        r is Ok <==> length_code <= 15,
        r is Ok ==> final(bits).view_bits() == old(bits).view_bits()
            + crate::bitio::value_bits(1, (length_code + 1) as nat),
        r is Err ==> final(bits).view_bits() == old(bits).view_bits() && r == Err::<(), Error>(
            Error::InvalidData("RAR 1.3 LongLZ encoder length is not encodable"),
        ),
{
    if length_code > 15 {
        return Err(Error::InvalidData("RAR 1.3 LongLZ encoder length is not encodable"));
    }
    bits.write_bits(1, length_code as usize + 1);
    Ok(())
}

/// The first index whose entry's high byte is `high`, if any.
fn position_by_high(table: &Vec<u16>, high: u16) -> (r: Option<usize>)
    requires
        table@.len() == 256,
    ensures
        match r {
            Some(i) => i < 256 && table@[i as int] / 256 == high && forall|j: int|
                0 <= j < i ==> #[trigger] table@[j] / 256 != high,
            None => forall|j: int| 0 <= j < 256 ==> #[trigger] table@[j] / 256 != high,
        },
{
    let mut i: usize = 0;
    while i < 256
        invariant
            i <= 256,
            table@.len() == 256,
            forall|j: int| 0 <= j < i ==> #[trigger] table@[j] / 256 != high,
        decreases 256 - i,
    {
        if table[i] / 256 == high {
            return Some(i);
        }
        i = i + 1;
    }
    None
}

/// The first index holding `value`, if any.
fn position_of(table: &Vec<u16>, value: u16) -> (r: Option<usize>)
    requires
        table@.len() == 256,
    ensures
        match r {
            Some(i) => i < 256 && table@[i as int] == value && forall|j: int|
                0 <= j < i ==> #[trigger] table@[j] != value,
            None => forall|j: int| 0 <= j < 256 ==> #[trigger] table@[j] != value,
        },
{
    let mut i: usize = 0;
    while i < 256
        invariant
            i <= 256,
            table@.len() == 256,
            forall|j: int| 0 <= j < i ==> #[trigger] table@[j] != value,
        decreases 256 - i,
    {
        if table[i] == value {
            return Some(i);
        }
        i = i + 1;
    }
    None
}

/// The RAR 1.3/1.4 compressor: emits the token stream that `Unpack15` reads,
/// tracking the same adaptive statistics the decoder keeps.
pub struct Unpack15Encoder {
    bits: BitWriter,
    ch_set: Vec<u16>,
    ch_set_c: Vec<u16>,
    ch_set_b: Vec<u16>,
    n_to_pl: Vec<u8>,
    n_to_pl_b: Vec<u8>,
    n_to_pl_c: Vec<u8>,
    ch_set_a: Vec<u16>,
    avr_plc: u32,
    avr_plc_b: u32,
    avr_ln1: u32,
    avr_ln2: u32,
    avr_ln3: u32,
    max_dist3: u32,
    nhfb: u32,
    nlzb: u32,
    num_huf: u32,
    old_dist: Vec<u32>,
    old_dist_ptr: usize,
    last_dist: u32,
    last_length: u32,
}

/// Some entry of `table` holds `v`.
pub open spec fn holds_value(table: Seq<u16>, v: int) -> bool {
    exists|j: int| 0 <= j < 256 && #[trigger] table[j] == v
}

/// Every short distance, less one, is held by some entry of `table`.
pub open spec fn every_value(table: Seq<u16>) -> bool {
    forall|v: int| 0 <= v < 256 ==> #[trigger] holds_value(table, v)
}

/// `p` is the first place of `table` whose entry has high byte `high`.
pub open spec fn first_high(table: Seq<u16>, high: u16, p: int) -> bool {
    &&& 0 <= p < 256
    &&& table[p] / 256 == high
    &&& forall|j: int| 0 <= j < p ==> #[trigger] table[j] / 256 != high
}

/// `p` is the first place of `table` that holds `value`.
pub open spec fn first_value(table: Seq<u16>, value: u16, p: int) -> bool {
    &&& 0 <= p < 256
    &&& table[p] == value
    &&& forall|j: int| 0 <= j < p ==> #[trigger] table[j] != value
}

/// The bit count of the ShortLZ length code `place` under the running
/// average `avr_ln1`.
pub open spec fn short_code_len(avr_ln1: u32, place: int) -> u8 {
    if avr_ln1 < 37 {
        if place == 1 {
            3u8
        } else {
            short_len1_seq()[place]
        }
    } else {
        if place == 3 {
            3u8
        } else {
            short_len2_seq()[place]
        }
    }
}

/// The bits of the ShortLZ length code `place` under the running average
/// `avr_ln1`: the leading bits of its code byte.
pub open spec fn short_length_bits(avr_ln1: u32, place: int) -> Seq<bool> {
    let len = short_code_len(avr_ln1, place);
    let byte = if avr_ln1 < 37 {
        short_xor1_seq()[place]
    } else {
        short_xor2_seq()[place]
    };
    value_bits((byte as u32) >> ((8 - len) as u32), len as nat)
}

/// The table in which a LongLZ distance place is coded, chosen by the
/// running distance average.
pub open spec fn long_distance_table(avr_plc_b: u32) -> Table {
    if avr_plc_b > 0x28ff {
        Table::Hf2
    } else if avr_plc_b > 0x06ff {
        Table::Hf1
    } else {
        Table::Hf0
    }
}

/// A distance table after the entry at `p` moves one place towards the front.
pub open spec fn promote(table: Seq<u16>, p: int) -> Seq<u16> {
    if p > 0 {
        table.update(p, table[p - 1]).update(p - 1, table[p])
    } else {
        table
    }
}

/// Moving an entry towards the front keeps every value in the table.
pub(crate) proof fn lemma_promote_keeps_values(table: Seq<u16>, p: int)
    requires
        table.len() == 256,
        0 <= p < 256,
        every_value(table),
    ensures
        every_value(promote(table, p)),
{
    let fin = promote(table, p);
    assert forall|v: int| 0 <= v < 256 implies #[trigger] holds_value(fin, v) by {
        assert(holds_value(table, v));
        let j0 = choose|j: int| 0 <= j < 256 && #[trigger] table[j] == v;
        if p > 0 && j0 == p {
            assert(fin[p - 1] == v);
        } else if p > 0 && j0 == p - 1 {
            assert(fin[p] == v);
        } else {
            assert(fin[j0] == v);
        }
    }
}

/// A prefix of a prefix is a prefix.
proof fn lemma_prefix_trans(a: Seq<bool>, b: Seq<bool>, c: Seq<bool>)
    requires
        a.is_prefix_of(b),
        b.is_prefix_of(c),
    ensures
        a.is_prefix_of(c),
{
    assert forall|i: int| 0 <= i < a.len() implies a[i] == c.subrange(0, a.len() as int)[i] by {
        assert(a[i] == b.subrange(0, a.len() as int)[i]);
        assert(b[i] == c.subrange(0, b.len() as int)[i]);
    }
    assert(a =~= c.subrange(0, a.len() as int));
}

/// The high byte under which a LongLZ distance is ranked: bits 7..14 of the
/// distance.
pub open spec fn long_lz_high(distance: u32) -> u16 {
    (((distance % 0x8000) * 2) / 256) as u16
}

/// The literal table the decoder chooses for the running literal average.
pub open spec fn literal_table_for(avr_plc: u32) -> Table {
    if avr_plc > 0x75ff {
        Table::Hf4
    } else if avr_plc > 0x5dff {
        Table::Hf3
    } else if avr_plc > 0x35ff {
        Table::Hf2
    } else if avr_plc > 0x0dff {
        Table::Hf1
    } else {
        Table::Hf0
    }
}

/// The flag byte of a group of `k` literals: its first `k` bits set.
pub open spec fn group_flags(k: u16) -> u8 {
    (0xff00u16 >> k) as u8
}

/// Adding a `1` flag bit after the first `k` extends the group's flag byte.
proof fn lemma_group_flags(k: u16)
    requires
        k < 8,
    ensures
        group_flags(k) | (1u8 << ((7 - k) as u8)) == group_flags((k + 1) as u16),
        group_flags((k + 1) as u16) >= 0x80,
        ((group_flags((k + 1) as u16) as u32) * 2) % 256 == group_flags(k) as u32,
{
    assert(((0xff00u16 >> k) as u8) | (1u8 << ((7 - k) as u8)) == ((0xff00u16 >> ((k + 1) as u16))
        as u8)) by (bit_vector)
        requires
            k < 8,
    ;
    assert(((0xff00u16 >> ((k + 1) as u16)) as u8) >= 0x80u8) by (bit_vector)
        requires
            k < 8,
    ;
    assert(((((0xff00u16 >> ((k + 1) as u16)) as u8) as u32) * 2) % 256 == ((0xff00u16 >> k) as u8)
        as u32) by (bit_vector)
        requires
            k < 8,
    ;
}

/// No short match reaches back from `pos`: fewer than three bytes agree at
/// every distance up to 256.
pub open spec fn no_short_at(x: Seq<u8>, pos: int) -> bool {
    pos < 2 || no_match(
        x,
        pos,
        1,
        if pos < 256 {
            pos
        } else {
            256
        },
        10,
    )
}

/// No long match reaches back from `pos`: fewer than three bytes agree at
/// every distance from 257 to 32 KiB.
pub open spec fn no_long_at(x: Seq<u8>, pos: int) -> bool {
    pos < 257 || no_match(
        x,
        pos,
        257,
        if pos < 0x8000 {
            pos
        } else {
            0x8000
        },
        18,
    )
}

/// No three bytes of `x` repeat within the reach of a short or a long
/// match: the encoder finds no match and writes every byte as a literal.
pub open spec fn no_repeats(x: Seq<u8>) -> bool {
    forall|pos: int| 0 <= pos < x.len() ==> #[trigger] no_short_at(x, pos) && no_long_at(x, pos)
}

/// How far the decoder has come, reading the bits the encoder has written:
/// at the start of a flag group; at the start of a group whose flag code is
/// written (at `bits0`, with the flag table `cs0`, `ncs0` before it was
/// promoted); after `j` literals of a group with `r` flag bits left and the
/// run mode entered or not; or somewhere.
pub enum ReadPhase {
    Boundary,
    Pending { bits0: Seq<bool>, cs0: Seq<u16>, ncs0: Seq<u8> },
    Group { j: int, r: u16, st: bool },
    Anywhere,
}

impl Unpack15Encoder {
    /// `v` holds this encoder's literal table and statistics.
    closed spec fn agrees_but_flags(&self, v: DecView) -> bool {
        &&& v.ch_set == self.ch_set@
        &&& v.n_to_pl == self.n_to_pl@
        &&& v.avr_plc == self.avr_plc
        &&& v.nhfb == self.nhfb
        &&& v.nlzb == self.nlzb
        &&& v.num_huf == self.num_huf
    }

    /// `v` holds this encoder's literal and flag tables and statistics.
    closed spec fn agrees(&self, v: DecView) -> bool {
        &&& self.agrees_but_flags(v)
        &&& v.ch_set_c == self.ch_set_c@
        &&& v.n_to_pl_c == self.n_to_pl_c@
    }

    /// The decoder state `v` is where `phase` says, for this encoder.
    closed spec fn phase_ok(&self, v: DecView, phase: ReadPhase) -> bool {
        match phase {
            ReadPhase::Boundary => {
                &&& self.agrees(v)
                &&& v.pos == self.bits.view_bits().len()
                &&& !v.st_mode
                &&& (v.flags_cnt == -2 || v.flags_cnt == 0)
            },
            ReadPhase::Pending { bits0, cs0, ncs0 } => {
                &&& self.agrees_but_flags(v)
                &&& v.ch_set_c == cs0
                &&& v.n_to_pl_c == ncs0
                &&& v.pos == bits0.len()
                &&& !v.st_mode
                &&& (v.flags_cnt == -2 || v.flags_cnt == 0)
            },
            ReadPhase::Group { j, r, st } => {
                &&& self.agrees(v)
                &&& v.pos == self.bits.view_bits().len()
                &&& v.st_mode == st
                &&& v.flags_cnt == 8 - j
                &&& v.flag_buf == group_flags(r) as u32
            },
            ReadPhase::Anywhere => true,
        }
    }

    /// Every packed stream that starts with the bits written so far decodes,
    /// from the start of a member of `x.len()` bytes, to the first `pos`
    /// bytes of `x`, reaching a state where `phase` says.
    closed spec fn reads(&self, x: Seq<u8>, pos: int, phase: ReadPhase) -> bool {
        forall|out: Seq<u8>, tail: Seq<bool>|
            #[trigger] packs(out, self.bits.view_bits() + tail) ==> exists|v: DecView|
                #[trigger] reads_prefix(out, x, pos, v) && self.phase_ok(v, phase)
    }

    /// `e2` is `e1` after it wrote `byte` as the literal at place `p` of its
    /// literal table, with the code `cp` of `lp` bits.
    closed spec fn literal_emitted(e1: Self, e2: Self, byte: u8, p: int, lp: u32, cp: u32) -> bool {
        let t = literal_table_for(e1.avr_plc);
        let nh = e1.nhfb + 16;
        &&& first_high(e1.ch_set@, byte as u16, p)
        &&& table_start(t) <= lp <= 16
        &&& cp < (1u32 << lp)
        &&& decode_num_spec(t, cp << (16 - lp) as u32) == (p as u32, lp)
        &&& e2.bits.view_bits() == e1.bits.view_bits() + value_bits(cp, lp as nat)
        &&& e2.avr_plc == (e1.avr_plc + p) - (e1.avr_plc + p) / 256
        &&& (e2.ch_set@, e2.n_to_pl@) == bump_spec(e1.ch_set@, e1.n_to_pl@, p, true)
        &&& e2.nhfb == if nh > 0xff {
            0x90
        } else {
            nh
        }
        &&& e2.nlzb == if nh > 0xff {
            e1.nlzb / 2
        } else {
            e1.nlzb
        }
        &&& e2.num_huf == if e1.num_huf == u32::MAX {
            u32::MAX
        } else {
            (e1.num_huf + 1) as u32
        }
        &&& e2.ch_set_c == e1.ch_set_c
        &&& e2.n_to_pl_c == e1.n_to_pl_c
    }

    /// The first literal of a group, after its flag code: the decoder reads
    /// the flag byte and the literal.
    proof fn lemma_first_literal_reads(
        e1: Self,
        e2: Self,
        x: Seq<u8>,
        pos: int,
        k: u16,
        bits0: Seq<bool>,
        cs0: Seq<u16>,
        ncs0: Seq<u8>,
        q: int,
        lq: u32,
        cq: u32,
        p: int,
        lp: u32,
        cp: u32,
    )
        requires
            e1.reads(x, pos, ReadPhase::Pending { bits0, cs0, ncs0 }),
            first_high(cs0, group_flags(k) as u16, q),
            table_start(Table::Hf2) <= lq <= 16,
            cq < (1u32 << lq),
            decode_num_spec(Table::Hf2, cq << (16 - lq) as u32) == (q as u32, lq),
            e1.bits.view_bits() == bits0 + value_bits(cq, lq as nat),
            (e1.ch_set_c@, e1.n_to_pl_c@) == bump_spec(cs0, ncs0, q, false),
            1 <= k <= 8,
            0 <= pos < x.len(),
            Self::literal_emitted(e1, e2, x[pos], p, lp, cp),
            e1.nlzb <= e1.nhfb,
            e1.bits.view_bits().len() + 128 <= usize::MAX,
        ensures
            e2.reads(x, pos + 1, ReadPhase::Group { j: 1, r: (k - 1) as u16, st: false }),
    {
        lemma_group_flags((k - 1) as u16);
        assert forall|out: Seq<u8>, tail: Seq<bool>| #[trigger]
            packs(out, e2.bits.view_bits() + tail) implies exists|w: DecView|
            #[trigger] reads_prefix(out, x, pos + 1, w) && e2.phase_ok(
                w,
                ReadPhase::Group { j: 1, r: (k - 1) as u16, st: false },
            ) by {
            let t2 = value_bits(cp, lp as nat) + tail;
            assert(e2.bits.view_bits() + tail =~= e1.bits.view_bits() + t2);
            assert(packs(out, e1.bits.view_bits() + t2));
            let v = choose|v: DecView|
                reads_prefix(out, x, pos, v) && e1.phase_ok(
                    v,
                    ReadPhase::Pending { bits0, cs0, ncs0 },
                );
            assert(bits0 + value_bits(cq, lq as nat) + value_bits(cp, lp as nat) + tail
                =~= e2.bits.view_bits() + tail);
            let c = cs0[q];
            assert(c >> 8u16 == c / 256) by (bit_vector);
            lemma_flags_literal_reads_back(
                v,
                x,
                pos,
                bits0,
                q as u32,
                lq,
                cq,
                p as u32,
                lp,
                cp,
                tail,
            );
            let w = choose|w: DecView|
                reads_prefix(v.data, x, pos + 1, w) && literal_done(
                    v,
                    w,
                    p as int,
                    (lq + lp) as int,
                ) && !w.st_mode && w.flags_cnt == 7 && w.flag_buf == ((((v.ch_set_c[q as int]
                    >> 8) as u32) * 2) % 256) as u32 && (w.ch_set_c, w.n_to_pl_c) == bump_spec(
                    v.ch_set_c,
                    v.n_to_pl_c,
                    q as int,
                    false,
                );
            assert(value_bits(cq, lq as nat).len() == lq);
            assert(value_bits(cp, lp as nat).len() == lp);
            assert(e2.phase_ok(w, ReadPhase::Group { j: 1, r: (k - 1) as u16, st: false }));
        }
    }

    /// A later literal of a group: the decoder reads it under the next flag
    /// bit.
    proof fn lemma_next_literal_reads(
        e1: Self,
        e2: Self,
        x: Seq<u8>,
        pos: int,
        j: int,
        r: u16,
        st: bool,
        p: int,
        lp: u32,
        cp: u32,
    )
        requires
            e1.reads(x, pos, ReadPhase::Group { j, r, st: false }),
            1 <= j <= 7,
            1 <= r <= 8,
            0 <= pos < x.len(),
            Self::literal_emitted(e1, e2, x[pos], p, lp, cp),
            e1.nlzb <= e1.nhfb,
            e1.bits.view_bits().len() + 128 <= usize::MAX,
            st == (e1.num_huf >= 16 && j == 7),
        ensures
            e2.reads(x, pos + 1, ReadPhase::Group { j: j + 1, r: (r - 1) as u16, st }),
    {
        lemma_group_flags((r - 1) as u16);
        assert forall|out: Seq<u8>, tail: Seq<bool>| #[trigger]
            packs(out, e2.bits.view_bits() + tail) implies exists|w: DecView|
            #[trigger] reads_prefix(out, x, pos + 1, w) && e2.phase_ok(
                w,
                ReadPhase::Group { j: j + 1, r: (r - 1) as u16, st },
            ) by {
            let t2 = value_bits(cp, lp as nat) + tail;
            assert(e2.bits.view_bits() + tail =~= e1.bits.view_bits() + t2);
            assert(packs(out, e1.bits.view_bits() + t2));
            let v = choose|v: DecView|
                reads_prefix(out, x, pos, v) && e1.phase_ok(v, ReadPhase::Group { j, r, st: false });
            lemma_literal_reads_back(v, x, pos, e1.bits.view_bits(), p as u32, lp, cp, tail);
            let w = choose|w: DecView|
                reads_prefix(v.data, x, pos + 1, w) && literal_done(v, w, p as int, lp as int)
                    && w.st_mode == (v.num_huf >= 16 && v.flags_cnt == 1) && w.flags_cnt
                    == v.flags_cnt - 1 && w.flag_buf == ((v.flag_buf * 2) % 256) as u32
                    && w.ch_set_c == v.ch_set_c && w.n_to_pl_c == v.n_to_pl_c;
            assert(value_bits(cp, lp as nat).len() == lp);
            assert(e2.phase_ok(w, ReadPhase::Group { j: j + 1, r: (r - 1) as u16, st }));
        }
    }

    /// The run-mode exit after the eighth literal of a group: the decoder
    /// leaves the run mode and waits for the next flag byte.
    proof fn lemma_exit_reads(e1: Self, e2: Self, x: Seq<u8>, pos: int)
        requires
            e1.reads(x, pos, ReadPhase::Group { j: 8, r: 0, st: true }),
            0 <= pos < x.len(),
            e2.bits.view_bits() == e1.bits.view_bits() + value_bits(
                0,
                table_start(literal_table_for(e1.avr_plc)),
            ) + value_bits(1, 1),
            e2.ch_set == e1.ch_set,
            e2.n_to_pl == e1.n_to_pl,
            e2.ch_set_c == e1.ch_set_c,
            e2.n_to_pl_c == e1.n_to_pl_c,
            e2.avr_plc == e1.avr_plc,
            e2.nhfb == e1.nhfb,
            e2.nlzb == e1.nlzb,
            e2.num_huf == 0,
            e1.bits.view_bits().len() + 128 <= usize::MAX,
        ensures
            e2.reads(x, pos, ReadPhase::Boundary),
    {
        let ts = table_start(literal_table_for(e1.avr_plc));
        assert forall|out: Seq<u8>, tail: Seq<bool>| #[trigger]
            packs(out, e2.bits.view_bits() + tail) implies exists|w: DecView|
            #[trigger] reads_prefix(out, x, pos, w) && e2.phase_ok(w, ReadPhase::Boundary) by {
            let t2 = value_bits(0, ts) + value_bits(1, 1) + tail;
            assert(e2.bits.view_bits() + tail =~= e1.bits.view_bits() + t2);
            assert(e2.bits.view_bits() + tail =~= e1.bits.view_bits() + value_bits(0, ts)
                + value_bits(1, 1) + tail);
            let v = choose|v: DecView|
                reads_prefix(out, x, pos, v) && e1.phase_ok(
                    v,
                    ReadPhase::Group { j: 8, r: 0, st: true },
                );
            lemma_exit_reads_back(v, x, pos, e1.bits.view_bits(), tail);
            let w = choose|w: DecView|
                reads_prefix(v.data, x, pos, w) && w.pos == e1.bits.view_bits().len() + table_start(
                    literal_table_for(v.avr_plc),
                ) + 1 && !w.st_mode && w.num_huf == 0 && w.flags_cnt == 0 && w.ch_set == v.ch_set
                    && w.n_to_pl == v.n_to_pl && w.ch_set_c == v.ch_set_c && w.n_to_pl_c
                    == v.n_to_pl_c && w.avr_plc == v.avr_plc && w.nhfb == v.nhfb && w.nlzb == v.nlzb;
            assert(value_bits(0, ts).len() == ts);
            assert(value_bits(1, 1).len() == 1);
            assert(e2.phase_ok(w, ReadPhase::Boundary));
        }
    }

    /// A group of eight literals without the run mode ends at a flag byte
    /// boundary.
    proof fn lemma_group_end_reads(e: Self, x: Seq<u8>, pos: int)
        requires
            e.reads(x, pos, ReadPhase::Group { j: 8, r: 0, st: false }),
        ensures
            e.reads(x, pos, ReadPhase::Boundary),
    {
        assert forall|out: Seq<u8>, tail: Seq<bool>| #[trigger]
            packs(out, e.bits.view_bits() + tail) implies exists|w: DecView|
            #[trigger] reads_prefix(out, x, pos, w) && e.phase_ok(w, ReadPhase::Boundary) by {
            let v = choose|v: DecView|
                reads_prefix(out, x, pos, v) && e.phase_ok(
                    v,
                    ReadPhase::Group { j: 8, r: 0, st: false },
                );
            assert(e.phase_ok(v, ReadPhase::Boundary));
        }
    }

    /// Wherever the decoder is, it is somewhere.
    proof fn lemma_anywhere_reads(e: Self, x: Seq<u8>, pos: int, phase: ReadPhase)
        requires
            e.reads(x, pos, phase),
        ensures
            e.reads(x, pos, ReadPhase::Anywhere),
    {
        assert forall|out: Seq<u8>, tail: Seq<bool>| #[trigger]
            packs(out, e.bits.view_bits() + tail) implies exists|w: DecView|
            #[trigger] reads_prefix(out, x, pos, w) && e.phase_ok(w, ReadPhase::Anywhere) by {
            let v = choose|v: DecView| reads_prefix(out, x, pos, v) && e.phase_ok(v, phase);
            assert(e.phase_ok(v, ReadPhase::Anywhere));
        }
    }

    /// A flag code written at a flag byte boundary: the decoder has yet to
    /// read it.
    proof fn lemma_flags_pending(e0: Self, e1: Self, x: Seq<u8>, pos: int, cq: u32, lq: u32)
        requires
            e0.reads(x, pos, ReadPhase::Boundary),
            e1.bits.view_bits() == e0.bits.view_bits() + value_bits(cq, lq as nat),
            e1.ch_set == e0.ch_set,
            e1.n_to_pl == e0.n_to_pl,
            e1.avr_plc == e0.avr_plc,
            e1.nhfb == e0.nhfb,
            e1.nlzb == e0.nlzb,
            e1.num_huf == e0.num_huf,
        ensures
            e1.reads(
                x,
                pos,
                ReadPhase::Pending {
                    bits0: e0.bits.view_bits(),
                    cs0: e0.ch_set_c@,
                    ncs0: e0.n_to_pl_c@,
                },
            ),
    {
        let ph = ReadPhase::Pending {
            bits0: e0.bits.view_bits(),
            cs0: e0.ch_set_c@,
            ncs0: e0.n_to_pl_c@,
        };
        assert forall|out: Seq<u8>, tail: Seq<bool>| #[trigger]
            packs(out, e1.bits.view_bits() + tail) implies exists|w: DecView|
            #[trigger] reads_prefix(out, x, pos, w) && e1.phase_ok(w, ph) by {
            let t2 = value_bits(cq, lq as nat) + tail;
            assert(e1.bits.view_bits() + tail =~= e0.bits.view_bits() + t2);
            assert(packs(out, e0.bits.view_bits() + t2));
            let v = choose|v: DecView| reads_prefix(out, x, pos, v) && e0.phase_ok(v, ReadPhase::Boundary);
            assert(e1.phase_ok(v, ph));
        }
    }

    /// A group of literals about to be written by `e`: the `k` payloads are
    /// the next bytes of `x` from `pos0`, eight of them unless the input ends
    /// with them, and their flag code is written after the bits `bits0`, where
    /// the decoder, not having read it, stands.
    closed spec fn literal_group(
        e: Self,
        payloads: Seq<EncodedToken>,
        more_input: bool,
        x: Seq<u8>,
        pos0: int,
        bits0: Seq<bool>,
        cs0: Seq<u16>,
        ncs0: Seq<u8>,
    ) -> bool {
        let k = payloads.len();
        &&& 1 <= k <= 8
        &&& 0 <= pos0
        &&& pos0 + k <= x.len()
        &&& forall|i: int| 0 <= i < k ==> #[trigger] payloads[i] == EncodedToken::Literal(x[pos0 + i])
        &&& more_input == (pos0 + k < x.len())
        &&& more_input ==> k == 8
        &&& e.nlzb <= e.nhfb
        &&& e.bits.view_bits().len() + 400 <= usize::MAX
        &&& e.reads(x, pos0, ReadPhase::Pending { bits0, cs0, ncs0 })
        &&& exists|q: int, lq: u32, cq: u32|
            #![trigger first_high(cs0, group_flags(k as u16) as u16, q), value_bits(cq, lq as nat)]
            first_high(cs0, group_flags(k as u16) as u16, q) && table_start(Table::Hf2)
                <= lq <= 16 && cq < (1u32 << lq) && decode_num_spec(Table::Hf2, cq << (16 - lq) as u32)
                == (q as u32, lq) && e.bits.view_bits() == bits0 + value_bits(cq, lq as nat) && (
            e.ch_set_c@, e.n_to_pl_c@) == bump_spec(cs0, ncs0, q, false)
    }

    /// A new encoder that has written nothing stands where the decoder of a
    /// new member starts.
    proof fn lemma_start_reads(e: Self, x: Seq<u8>)
        requires
            e.is_fresh(),
            e.bits.view_bits() == Seq::<bool>::empty(),
        ensures
            e.reads(x, 0, ReadPhase::Boundary),
    {
        assert forall|out: Seq<u8>, tail: Seq<bool>| #[trigger]
            packs(out, e.bits.view_bits() + tail) implies exists|w: DecView|
            #[trigger] reads_prefix(out, x, 0, w) && e.phase_ok(w, ReadPhase::Boundary) by {
            let v = fresh_member(out, x.len() as int);
            match run_spec(v) {
                Some(Ok((w, b))) => {
                    assert(x.subrange(0, 0) + b =~= b);
                },
                _ => {},
            }
            assert(reads_prefix(out, x, 0, v));
            assert(e.phase_ok(v, ReadPhase::Boundary));
        }
    }

    /// Once the decoder reads all of `x` from every continuation of the bits
    /// written, the finished stream decodes to `x`.
    proof fn lemma_reads_all(e: Self, x: Seq<u8>, out: Seq<u8>)
        requires
            e.reads(x, x.len() as int, ReadPhase::Anywhere),
            packs(out, e.bits.view_bits()),
        ensures
            unpack15_spec(out, x.len() as int) == Some(Ok::<Seq<u8>, Error>(x)),
    {
        assert(e.bits.view_bits() + Seq::<bool>::empty() =~= e.bits.view_bits());
        assert(packs(out, e.bits.view_bits() + Seq::<bool>::empty()));
        let v = choose|v: DecView| #[trigger]
            reads_prefix(out, x, x.len() as int, v) && e.phase_ok(v, ReadPhase::Anywhere);
        assert(run_spec(v) == Some(Ok::<(DecView, Seq<u8>), Error>((v, Seq::<u8>::empty()))));
        assert(x.subrange(0, x.len() as int) + Seq::<u8>::empty() =~= x);
    }

    /// The tables and statistics of a new encoder.
    pub closed spec fn is_fresh(&self) -> bool {
        &&& self.ch_set@ == Seq::new(256, |i: int| (i * 256) as u16)
        &&& self.n_to_pl@ == Seq::new(256, |_i: int| 0u8)
        &&& self.ch_set_c@ == Seq::new(256, |i: int| (((256 - i) % 256) * 256) as u16)
        &&& self.n_to_pl_c@ == Seq::new(256, |_i: int| 0u8)
        &&& self.avr_plc == 0x3500
        &&& self.nhfb == 0x80
        &&& self.nlzb == 0x80
        &&& self.num_huf == 0
    }

    /// The encoder state is consistent: its tables and statistics in range,
    /// every byte ranked in the literal, LongLZ and flag tables, and every
    /// short distance in the distance table.
    pub closed spec fn wf(&self) -> bool {
        &&& self.shape_ok()
        &&& every_high(self.ch_set@)
        &&& ranks_below(self.ch_set@)
        &&& every_high(self.ch_set_b@)
        &&& every_high(self.ch_set_c@)
        &&& every_value(self.ch_set_a@)
    }

    /// The table sizes and the ranges of the statistics.
    closed spec fn shape_ok(&self) -> bool {
        &&& self.bits.wf()
        &&& self.ch_set@.len() == 256
        &&& self.ch_set_a@.len() == 256
        &&& self.ch_set_b@.len() == 256
        &&& self.ch_set_c@.len() == 256
        &&& self.n_to_pl@.len() == 256
        &&& self.n_to_pl_b@.len() == 256
        &&& self.n_to_pl_c@.len() == 256
        &&& self.old_dist@.len() == 4
        &&& self.old_dist_ptr < 4
        &&& self.avr_plc <= avr_plc_max()
        &&& self.avr_plc_b <= avr_plc_b_max()
        &&& self.avr_ln1 <= avr_ln1_max()
        &&& self.avr_ln2 <= avr_ln2_max()
        &&& self.avr_ln3 <= avr_ln3_max()
        &&& self.nhfb <= 0xff
        &&& self.nlzb <= 0xff
    }

    /// An encoder in the initial state of a non-solid archive.
    pub fn new() -> (e: Unpack15Encoder)
        ensures
            e.wf(),
            e.is_fresh(),
    {
        let mut encoder = Unpack15Encoder {
            bits: BitWriter::new(),
            ch_set: vec![0u16; 256],
            ch_set_c: vec![0u16; 256],
            ch_set_b: vec![0u16; 256],
            n_to_pl: vec![0u8; 256],
            n_to_pl_b: vec![0u8; 256],
            n_to_pl_c: vec![0u8; 256],
            ch_set_a: vec![0u16; 256],
            avr_plc: 0x3500,
            avr_plc_b: 0,
            avr_ln1: 0,
            avr_ln2: 0,
            avr_ln3: 0,
            max_dist3: 0x2001,
            nhfb: 0x80,
            nlzb: 0x80,
            num_huf: 0,
            old_dist: vec![u32::MAX; 4],
            old_dist_ptr: 0,
            last_dist: u32::MAX,
            last_length: 0,
        };
        encoder.init_huff();
        proof {
            assert forall|i: int| 0 <= i < 256 implies encoder.ch_set_c@[i] == (((256 - i) % 256)
                * 256) as u16 && encoder.n_to_pl_c@[i] == 0u8 && encoder.n_to_pl@[i] == 0u8 by {
                assert(encoder.ch_set@[i] == (i * 256) as u16);
            }
            assert(encoder.ch_set@ =~= Seq::new(256, |i: int| (i * 256) as u16));
            assert(encoder.n_to_pl@ =~= Seq::new(256, |_i: int| 0u8));
            assert(encoder.ch_set_c@ =~= Seq::new(256, |i: int| (((256 - i) % 256) * 256) as u16));
            assert(encoder.n_to_pl_c@ =~= Seq::new(256, |_i: int| 0u8));
        }
        encoder
    }

    /// Resets the adaptive tables: literals and distances in their natural
    /// order, the flag table reversed, and the LongLZ table ranked.
    fn init_huff(&mut self)
        requires
            old(self).shape_ok(),
        ensures
            final(self).wf(),
            final(self).bits == old(self).bits,
            forall|i: int|
                0 <= i < 256 ==> {
                    &&& #[trigger] final(self).ch_set@[i] == (i * 256) as u16
                    &&& final(self).ch_set_a@[i] == i as u16
                    &&& final(self).ch_set_c@[i] == (((256 - i) % 256) * 256) as u16
                    &&& final(self).ch_set_b@[i] == ((i * 256) as u16 & 0xff00) | (7 - i / 32) as u16
                    &&& final(self).n_to_pl@[i] == 0
                    &&& final(self).n_to_pl_c@[i] == 0
                    &&& final(self).n_to_pl_b@[i] == if i < 7 {
                        ((7 - i) * 32) as u8
                    } else {
                        0u8
                    }
                },
            final(self).avr_plc == old(self).avr_plc,
            final(self).avr_plc_b == old(self).avr_plc_b,
            final(self).avr_ln1 == old(self).avr_ln1,
            final(self).avr_ln2 == old(self).avr_ln2,
            final(self).avr_ln3 == old(self).avr_ln3,
            final(self).max_dist3 == old(self).max_dist3,
            final(self).nhfb == old(self).nhfb,
            final(self).nlzb == old(self).nlzb,
            final(self).num_huf == old(self).num_huf,
            final(self).old_dist == old(self).old_dist,
            final(self).old_dist_ptr == old(self).old_dist_ptr,
            final(self).last_dist == old(self).last_dist,
            final(self).last_length == old(self).last_length,
    {
        let mut i: usize = 0;
        while i < 256
            invariant
                self.shape_ok(),
                self.bits == old(self).bits,
                i <= 256,
                forall|j: int|
                    0 <= j < i ==> {
                        &&& #[trigger] self.ch_set@[j] == (j * 256) as u16
                        &&& self.ch_set_a@[j] == j as u16
                        &&& self.ch_set_c@[j] == (((256 - j) % 256) * 256) as u16
                        &&& self.ch_set_b@[j] == (j * 256) as u16
                        &&& self.n_to_pl@[j] == 0
                        &&& self.n_to_pl_c@[j] == 0
                    },
                self.avr_plc == old(self).avr_plc,
                self.avr_plc_b == old(self).avr_plc_b,
                self.avr_ln1 == old(self).avr_ln1,
                self.avr_ln2 == old(self).avr_ln2,
                self.avr_ln3 == old(self).avr_ln3,
                self.max_dist3 == old(self).max_dist3,
                self.nhfb == old(self).nhfb,
                self.nlzb == old(self).nlzb,
                self.num_huf == old(self).num_huf,
                self.old_dist == old(self).old_dist,
                self.old_dist_ptr == old(self).old_dist_ptr,
                self.last_dist == old(self).last_dist,
                self.last_length == old(self).last_length,
            decreases 256 - i,
        {
            self.ch_set.set(i, (i * 256) as u16);
            self.ch_set_c.set(i, (((256 - i) % 256) * 256) as u16);
            self.ch_set_b.set(i, (i * 256) as u16);
            self.n_to_pl.set(i, 0);
            self.n_to_pl_b.set(i, 0);
            self.n_to_pl_c.set(i, 0);
            self.ch_set_a.set(i, i as u16);
            i = i + 1;
        }
        let ghost pre_b = self.ch_set_b@;
        corr_huff(&mut self.ch_set_b, &mut self.n_to_pl_b);
        proof {
            assert forall|b: int| 0 <= b < 256 implies #[trigger] holds_high(self.ch_set@, b) by {
                assert(self.ch_set@[b] / 256 == b);
            }
            assert forall|b: int| 0 <= b < 256 implies #[trigger] holds_high(self.ch_set_c@, b) by {
                let j = if b == 0 {
                    0
                } else {
                    256 - b
                };
                assert((256 - j) % 256 == b);
                assert((b * 256) as u16 == b * 256);
                assert(self.ch_set@[j] == (j * 256) as u16);
                assert(self.ch_set_c@[j] / 256 == b);
            }
            assert forall|b: int| 0 <= b < 256 implies #[trigger] holds_high(self.ch_set_b@, b) by {
                let v = (b * 256) as u16;
                assert(v == b * 256);
                assert(v / 256 == b);
                lemma_rank_keeps_high(v, (7 - b / 32) as u16);
                assert(self.ch_set@[b] == (b * 256) as u16);
                assert(pre_b[b] == v);
                assert(self.ch_set_b@[b] == (v & 0xff00) | (7 - b / 32) as u16);
                assert(self.ch_set_b@[b] / 256 == b);
            }
            assert forall|v: int| 0 <= v < 256 implies #[trigger] holds_value(self.ch_set_a@, v) by {
                assert(self.ch_set@[v] == (v * 256) as u16);
                assert(self.ch_set_a@[v] == v);
            }
        }
    }

    fn remember_match(&mut self, distance: u32, length: u32)
        requires
            old(self).wf(),
        ensures
            final(self).wf(),
            final(self).bits == old(self).bits,
            final(self).nhfb == old(self).nhfb,
            final(self).nlzb == old(self).nlzb,
            final(self).num_huf == old(self).num_huf,
            final(self).old_dist@ == old(self).old_dist@.update(
                old(self).old_dist_ptr as int,
                distance,
            ),
            final(self).old_dist_ptr == (old(self).old_dist_ptr + 1) % 4,
            final(self).last_length == length,
            final(self).last_dist == distance,
            final(self).ch_set == old(self).ch_set,
            final(self).ch_set_a == old(self).ch_set_a,
            final(self).ch_set_b == old(self).ch_set_b,
            final(self).ch_set_c == old(self).ch_set_c,
            final(self).n_to_pl == old(self).n_to_pl,
            final(self).n_to_pl_b == old(self).n_to_pl_b,
            final(self).n_to_pl_c == old(self).n_to_pl_c,
            final(self).avr_plc == old(self).avr_plc,
            final(self).avr_plc_b == old(self).avr_plc_b,
            final(self).avr_ln1 == old(self).avr_ln1,
            final(self).avr_ln2 == old(self).avr_ln2,
            final(self).avr_ln3 == old(self).avr_ln3,
            final(self).max_dist3 == old(self).max_dist3,
    {
        self.old_dist.set(self.old_dist_ptr, distance);
        self.old_dist_ptr = (self.old_dist_ptr + 1) % 4;
        self.last_length = length;
        self.last_dist = distance;
    }

    /// The code length of ShortLZ length code `pos` for short averages; the
    /// length after a run of three-byte matches is three bits.
    fn short_len1(&self, pos: usize) -> (v: u8)
        requires
            pos < 16,
        ensures
            v <= 8,
            v == if pos == 1 {
                3u8
            } else {
                short_len1_seq()[pos as int]
            },
    {
        if pos == 1 {
            3
        } else {
            let a: [u8; 16] = [1, 3, 4, 4, 5, 6, 7, 8, 8, 4, 4, 5, 6, 6, 4, 0];
            proof {
                assert(a@ =~= short_len1_seq());
                assert(forall|j: int| 0 <= j < 16 ==> #[trigger] a@[j] <= 8);
            }
            a[pos]
        }
    }

    /// The code length of ShortLZ length code `pos` for long averages.
    fn short_len2(&self, pos: usize) -> (v: u8)
        requires
            pos < 16,
        ensures
            v <= 8,
            v == if pos == 3 {
                3u8
            } else {
                short_len2_seq()[pos as int]
            },
    {
        if pos == 3 {
            3
        } else {
            let a: [u8; 16] = [2, 3, 3, 3, 4, 4, 5, 6, 6, 4, 4, 5, 6, 6, 4, 0];
            proof {
                assert(a@ =~= short_len2_seq());
                assert(forall|j: int| 0 <= j < 16 ==> #[trigger] a@[j] <= 8);
            }
            a[pos]
        }
    }

    /// The literal table chosen by the running literal average.
    fn literal_table(&self) -> (t: Table)
        ensures
            t == literal_table_for(self.avr_plc),
    {
        if self.avr_plc > 0x75ff {
            Table::Hf4
        } else if self.avr_plc > 0x5dff {
            Table::Hf3
        } else if self.avr_plc > 0x35ff {
            Table::Hf2
        } else if self.avr_plc > 0x0dff {
            Table::Hf1
        } else {
            Table::Hf0
        }
    }

    /// Emits the adaptive code of a flag byte.
    /// The flag byte is coded as the first place of the flag table that ranks
    /// it, in table `Hf2`.
    fn emit_flags_byte(&mut self, flags: u8) -> (r: Result<(), Error>)
        requires
            old(self).wf(),
        ensures
            final(self).wf(),
            final(self).bits.view_bits().len() <= old(self).bits.view_bits().len() + 16,
            r is Ok,
            final(self).nhfb == old(self).nhfb,
            final(self).nlzb == old(self).nlzb,
            final(self).num_huf == old(self).num_huf,
            final(self).avr_plc == old(self).avr_plc,
            final(self).bits.view_bits().len() >= old(self).bits.view_bits().len() + 5,
            old(self).bits.view_bits().is_prefix_of(final(self).bits.view_bits()),
            forall|p: int|
                #[trigger] first_high(old(self).ch_set_c@, flags as u16, p) ==> appends_code(
                    old(self).bits.view_bits(),
                    final(self).bits.view_bits(),
                    Table::Hf2,
                    p as u32,
                ) && (final(self).ch_set_c@, final(self).n_to_pl_c@) == bump_spec(
                    old(self).ch_set_c@,
                    old(self).n_to_pl_c@,
                    p,
                    false,
                ),
            final(self).ch_set == old(self).ch_set,
            final(self).ch_set_a == old(self).ch_set_a,
            final(self).ch_set_b == old(self).ch_set_b,
            final(self).n_to_pl == old(self).n_to_pl,
            final(self).n_to_pl_b == old(self).n_to_pl_b,
            exists|p: int| #[trigger] first_high(old(self).ch_set_c@, flags as u16, p),
    {
        let flags_place = match position_by_high(&self.ch_set_c, flags as u16) {
            Some(p) => p,
            None => {
                proof {
                    assert(holds_high(self.ch_set_c@, flags as int));
                }
                return Err(Error::InvalidData("RAR 1.3 flag byte is not encodable"));
            },
        };
        proof {
            lemma_byte_tables_cover(Table::Hf2, flags_place as u32);
        }
        match emit_decode_num(&mut self.bits, flags_place as u32, Table::Hf2) {
            Ok(()) => {},
            Err(e) => {
                return Err(e);
            },
        }
        bump(&mut self.ch_set_c, &mut self.n_to_pl_c, flags_place, false);
        proof {
            assert(first_high(old(self).ch_set_c@, flags as u16, flags_place as int));
        }
        Ok(())
    }

    /// Emits a literal byte through the adaptive literal table.
    fn emit_literal(&mut self, byte: u8) -> (r: Result<(), Error>)
        requires
            old(self).wf(),
        ensures
            final(self).wf(),
            final(self).bits.view_bits().len() <= old(self).bits.view_bits().len() + 16,
            r is Ok,
            old(self).bits.view_bits().is_prefix_of(final(self).bits.view_bits()),
            old(self).nhfb + 16 > 0xff ==> final(self).nhfb == 0x90
                && final(self).nlzb == old(self).nlzb / 2,
            old(self).nhfb + 16 <= 0xff ==> final(self).nhfb == old(self).nhfb + 16
                && final(self).nlzb == old(self).nlzb,
            final(self).num_huf == if old(self).num_huf == u32::MAX {
                u32::MAX
            } else {
                (old(self).num_huf + 1) as u32
            },
            forall|p: int|
                #[trigger] first_high(old(self).ch_set@, byte as u16, p) ==> {
                    &&& appends_code(
                        old(self).bits.view_bits(),
                        final(self).bits.view_bits(),
                        literal_table_for(old(self).avr_plc),
                        p as u32,
                    )
                    &&& final(self).avr_plc == (old(self).avr_plc + p) - (old(self).avr_plc + p)
                        / 256
                    &&& (final(self).ch_set@, final(self).n_to_pl@) == bump_spec(
                        old(self).ch_set@,
                        old(self).n_to_pl@,
                        p,
                        true,
                    )
                },
            final(self).ch_set_a == old(self).ch_set_a,
            final(self).ch_set_b == old(self).ch_set_b,
            final(self).ch_set_c == old(self).ch_set_c,
            final(self).n_to_pl_b == old(self).n_to_pl_b,
            final(self).n_to_pl_c == old(self).n_to_pl_c,
            final(self).avr_plc_b == old(self).avr_plc_b,
            final(self).avr_ln1 == old(self).avr_ln1,
            final(self).avr_ln2 == old(self).avr_ln2,
            final(self).avr_ln3 == old(self).avr_ln3,
            final(self).max_dist3 == old(self).max_dist3,
            final(self).old_dist == old(self).old_dist,
            final(self).old_dist_ptr == old(self).old_dist_ptr,
            final(self).last_dist == old(self).last_dist,
            final(self).last_length == old(self).last_length,
            exists|p: int| #[trigger] first_high(old(self).ch_set@, byte as u16, p),
    {
        let byte_place = match position_by_high(&self.ch_set, byte as u16) {
            Some(p) => p,
            None => {
                proof {
                    assert(holds_high(self.ch_set@, byte as int));
                }
                return Err(Error::InvalidData("RAR 1.3 literal is not encodable"));
            },
        };
        let t = self.literal_table();
        proof {
            lemma_byte_tables_cover(t, byte_place as u32);
        }
        match emit_decode_num(&mut self.bits, byte_place as u32, t) {
            Ok(()) => {},
            Err(e) => {
                return Err(e);
            },
        }
        proof {
            lemma_decay(self.avr_plc, byte_place as u32, 255, 256);
        }
        self.avr_plc = self.avr_plc + byte_place as u32;
        self.avr_plc = self.avr_plc - self.avr_plc / 256;
        self.nhfb = self.nhfb + 16;
        if self.nhfb > 0xff {
            self.nhfb = 0x90;
            self.nlzb = self.nlzb / 2;
        }
        self.num_huf = self.num_huf.saturating_add(1);
        bump(&mut self.ch_set, &mut self.n_to_pl, byte_place, true);
        proof {
            assert(first_high(old(self).ch_set@, byte as u16, byte_place as int));
        }
        Ok(())
    }

    /// Emits a short match: its length code and its adaptive distance place.
    fn emit_short_lz(&mut self, short_lz: ShortLz) -> (r: Result<(), Error>)
        requires
            old(self).wf(),
            1 <= short_lz.distance <= 256,
            3 <= short_lz.length <= 10,
        ensures
            final(self).wf(),
            final(self).bits.view_bits().len() <= old(self).bits.view_bits().len() + 24,
            r is Ok,
            old(self).bits.view_bits().is_prefix_of(final(self).bits.view_bits()),
            final(self).nhfb == old(self).nhfb,
            final(self).nlzb == old(self).nlzb,
            final(self).num_huf == 0,
            final(self).avr_plc == old(self).avr_plc,
            forall|p: int|
                #[trigger] first_value(old(self).ch_set_a@, (short_lz.distance - 1) as u16, p)
                    ==> appends_code(
                    old(self).bits.view_bits() + short_length_bits(
                        old(self).avr_ln1,
                        short_lz.length - 2,
                    ),
                    final(self).bits.view_bits(),
                    Table::Hf2,
                    p as u32,
                ) && final(self).ch_set_a@ == promote(old(self).ch_set_a@, p),
            final(self).ch_set == old(self).ch_set,
            final(self).ch_set_b == old(self).ch_set_b,
            final(self).ch_set_c == old(self).ch_set_c,
            final(self).n_to_pl == old(self).n_to_pl,
            final(self).n_to_pl_b == old(self).n_to_pl_b,
            final(self).n_to_pl_c == old(self).n_to_pl_c,
            final(self).last_dist == short_lz.distance,
            final(self).last_length == short_lz.length,
    {
        self.num_huf = 0;
        let length_place: u32 = short_lz.length - 2;
        let code_len: u8 = if self.avr_ln1 < 37 {
            self.short_len1(length_place as usize)
        } else {
            self.short_len2(length_place as usize)
        };
        let code_byte: u8 = if self.avr_ln1 < 37 {
            short_xor1(length_place as usize)
        } else {
            short_xor2(length_place as usize)
        };
        self.bits.write_bits((code_byte as u32) >> (8 - code_len as u32), code_len as usize);
        proof {
            lemma_decay(self.avr_ln1, length_place, 15, 16);
        }
        self.avr_ln1 = self.avr_ln1 + length_place;
        self.avr_ln1 = self.avr_ln1 - self.avr_ln1 / 16;
        let distance_value = short_lz.distance - 1;
        let distance_place = match position_of(&self.ch_set_a, distance_value as u16) {
            Some(p) => p,
            None => {
                proof {
                    assert(holds_value(self.ch_set_a@, distance_value as int));
                }
                return Err(Error::InvalidData("RAR 1.3 ShortLZ distance is not encodable"));
            },
        };
        proof {
            lemma_byte_tables_cover(Table::Hf2, distance_place as u32);
        }
        match emit_decode_num(&mut self.bits, distance_place as u32, Table::Hf2) {
            Ok(()) => {},
            Err(e) => {
                return Err(e);
            },
        }
        if distance_place > 0 {
            let ghost before = self.ch_set_a@;
            let last_distance = self.ch_set_a[distance_place - 1];
            self.ch_set_a.set(distance_place, last_distance);
            self.ch_set_a.set(distance_place - 1, distance_value as u16);
            proof {
                let fin = self.ch_set_a@;
                assert forall|v: int| 0 <= v < 256 implies #[trigger] holds_value(fin, v) by {
                    assert(holds_value(before, v));
                    let j0 = choose|j: int| 0 <= j < 256 && #[trigger] before[j] == v;
                    if j0 == distance_place {
                        assert(fin[distance_place - 1] == v);
                    } else if j0 == distance_place - 1 {
                        assert(fin[distance_place as int] == v);
                    } else {
                        assert(fin[j0] == v);
                    }
                }
            }
        }
        self.remember_match(short_lz.distance, short_lz.length);
        Ok(())
    }

    /// The adaptive place of a LongLZ distance: the first entry whose high byte
    /// matches bits 7..14 of the distance.
    fn long_lz_distance_place(&self, target_distance: u32) -> (r: Result<usize, Error>)
        requires
            self.wf(),
        ensures
            match r {
                Ok(p) => p < 256 && self.ch_set_b@[p as int] / 256 == long_lz_high(target_distance)
                    && forall|j: int|
                    0 <= j < p ==> #[trigger] self.ch_set_b@[j] / 256 != long_lz_high(
                        target_distance,
                    ),
                Err(e) => e == Error::InvalidData("RAR 1.3 LongLZ distance is not encodable")
                    && forall|j: int|
                    0 <= j < 256 ==> #[trigger] self.ch_set_b@[j] / 256 != long_lz_high(
                        target_distance,
                    ),
            },
    {
        let wanted_high: u16 = (((target_distance % 0x8000) * 2) / 256) as u16;
        match position_by_high(&self.ch_set_b, wanted_high) {
            Some(p) => Ok(p),
            None => Err(Error::InvalidData("RAR 1.3 LongLZ distance is not encodable")),
        }
    }

    /// Emits a long match: its unary length, adaptive distance place, and the
    /// low seven distance bits.
    #[verifier::rlimit(40)]
    #[verifier::spinoff_prover]
    fn emit_long_lz(&mut self, long_lz: LongLz) -> (r: Result<(), Error>)
        requires
            old(self).wf(),
            257 <= long_lz.distance <= 0x8000,
            3 <= long_lz.length <= 18,
        ensures
            final(self).wf(),
            final(self).bits.view_bits().len() <= old(self).bits.view_bits().len() + 39,
            r is Ok,
            old(self).bits.view_bits().is_prefix_of(final(self).bits.view_bits()),
            old(self).nlzb + 16 > 0xff ==> final(self).nlzb == 0x90 && final(self).nhfb
                == old(self).nhfb / 2,
            old(self).nlzb + 16 <= 0xff ==> final(self).nlzb == old(self).nlzb + 16
                && final(self).nhfb == old(self).nhfb,
            final(self).num_huf == 0,
            final(self).avr_plc == old(self).avr_plc,
            forall|p: int|
                #[trigger] first_high(old(self).ch_set_b@, long_lz_high(long_lz.distance), p)
                    ==> exists|mid: Seq<bool>|
                    #[trigger] appends_code(
                        old(self).bits.view_bits() + value_bits(1, (long_lz.length - 2) as nat),
                        mid,
                        long_distance_table(old(self).avr_plc_b),
                        p as u32,
                    ) && final(self).bits.view_bits() == mid + value_bits(
                        long_lz.distance % 128,
                        7,
                    ) && (final(self).ch_set_b@, final(self).n_to_pl_b@) == bump_spec(
                        old(self).ch_set_b@,
                        old(self).n_to_pl_b@,
                        p,
                        false,
                    ),
            final(self).ch_set == old(self).ch_set,
            final(self).ch_set_a == old(self).ch_set_a,
            final(self).ch_set_c == old(self).ch_set_c,
            final(self).n_to_pl == old(self).n_to_pl,
            final(self).n_to_pl_c == old(self).n_to_pl_c,
            final(self).last_dist == long_lz.distance,
            final(self).last_length == long_lz.length,
            final(self).avr_ln1 == old(self).avr_ln1,
            final(self).avr_ln2 == ((old(self).avr_ln2 + (long_lz.length - 3)) - (old(self).avr_ln2
                + (long_lz.length - 3)) / 32) as u32,
            final(self).avr_ln3 == if long_lz.length != 4 && long_lz.length != 7 {
                if long_lz.length == 3 && long_lz.distance <= old(self).max_dist3 {
                    ((old(self).avr_ln3 + 1) - (old(self).avr_ln3 + 1) / 256) as u32
                } else if old(self).avr_ln3 > 0 {
                    (old(self).avr_ln3 - 1) as u32
                } else {
                    old(self).avr_ln3
                }
            } else {
                old(self).avr_ln3
            },
            final(self).max_dist3 == if old(self).avr_ln3 > 0xb0 || (old(self).avr_plc >= 0x2a00
                && old(self).avr_ln2 < 0x40) {
                0x7f00u32
            } else {
                0x2001u32
            },
            final(self).old_dist@ == old(self).old_dist@.update(
                old(self).old_dist_ptr as int,
                long_lz.distance,
            ),
            final(self).old_dist_ptr == (old(self).old_dist_ptr + 1) % 4,
            forall|p: int|
                #[trigger] first_high(old(self).ch_set_b@, long_lz_high(long_lz.distance), p)
                    ==> final(self).avr_plc_b == ((old(self).avr_plc_b + p) - (old(self).avr_plc_b
                    + p) / 256) as u32,
    {
        self.num_huf = 0;
        self.nlzb = self.nlzb + 16;
        if self.nlzb > 0xff {
            self.nlzb = 0x90;
            self.nhfb = self.nhfb / 2;
        }
        let old_avr2 = self.avr_ln2;
        let length_code = long_lz.length - 3;
        match emit_long_lz_length(&mut self.bits, length_code) {
            Ok(()) => {},
            Err(e) => {
                return Err(e);
            },
        }
        proof {
            lemma_decay(self.avr_ln2, length_code, 4352, 32);
        }
        self.avr_ln2 = self.avr_ln2 + length_code;
        self.avr_ln2 = self.avr_ln2 - self.avr_ln2 / 32;
        let distance_place = match self.long_lz_distance_place(long_lz.distance) {
            Ok(p) => p,
            Err(e) => {
                proof {
                    assert(long_lz_high(long_lz.distance) < 256);
                    assert(holds_high(self.ch_set_b@, long_lz_high(long_lz.distance) as int));
                }
                return Err(e);
            },
        };
        let t = if self.avr_plc_b > 0x28ff {
            Table::Hf2
        } else if self.avr_plc_b > 0x06ff {
            Table::Hf1
        } else {
            Table::Hf0
        };
        proof {
            lemma_byte_tables_cover(t, distance_place as u32);
        }
        match emit_decode_num(&mut self.bits, distance_place as u32, t) {
            Ok(()) => {},
            Err(e) => {
                return Err(e);
            },
        }
        let ghost mid = self.bits.view_bits();
        proof {
            lemma_decay(self.avr_plc_b, distance_place as u32, 4352, 256);
        }
        self.avr_plc_b = self.avr_plc_b + distance_place as u32;
        self.avr_plc_b = self.avr_plc_b - self.avr_plc_b / 256;
        bump(&mut self.ch_set_b, &mut self.n_to_pl_b, distance_place, false);
        let low_seven: u32 = long_lz.distance % 128;
        self.bits.write_bits(low_seven, 7);
        let old_avr3 = self.avr_ln3;
        if length_code != 1 && length_code != 4 {
            if length_code == 0 && long_lz.distance <= self.max_dist3 {
                proof {
                    lemma_decay(self.avr_ln3, 1, 1, 256);
                }
                self.avr_ln3 = self.avr_ln3 + 1;
                self.avr_ln3 = self.avr_ln3 - self.avr_ln3 / 256;
            } else if self.avr_ln3 > 0 {
                self.avr_ln3 = self.avr_ln3 - 1;
            }
        }
        if old_avr3 > 0xb0 || (self.avr_plc >= 0x2a00 && old_avr2 < 0x40) {
            self.max_dist3 = 0x7f00;
        } else {
            self.max_dist3 = 0x2001;
        }
        self.remember_match(long_lz.distance, long_lz.length);
        proof {
            assert(appends_code(
                old(self).bits.view_bits() + value_bits(1, (long_lz.length - 2) as nat),
                mid,
                t,
                distance_place as u32,
            ));
        }
        Ok(())
    }

    /// The exit of the run mode is the all-zero code of place 0 in the literal
    /// table, as long as the table's shortest codes, and a `1` bit.
    proof fn lemma_exit_code(t: Table, len: u32, code: u32)
        requires
            t == Table::Hf0 || t == Table::Hf1 || t == Table::Hf2 || t == Table::Hf3 || t
                == Table::Hf4,
            table_start(t) <= len <= 16,
            code < (1u32 << len),
            decode_num_spec(t, code << (16 - len) as u32) == (0u32, len),
            forall|l: u32, c: u32|
                table_start(t) <= l < len && c < (1u32 << l) ==> #[trigger] decode_num_spec(
                    t,
                    c << (16 - l) as u32,
                ) != (0u32, l),
            forall|c: u32| c < code ==> #[trigger] decode_num_spec(t, c << (16 - len) as u32) != (
                0u32,
                len,
            ),
        ensures
            len == table_start(t),
            code == 0,
    {
        let ts = table_start(t) as u32;
        assert(0u32 & 0xfff0u32 == 0u32) by (bit_vector);
        assert(forall|k: u32| #[trigger] (0u32 >> k) == 0u32) by (bit_vector);
        assert(decode_num_spec(t, 0) == (0u32, ts));
        assert(0u32 << (16 - ts) as u32 == 0) by (bit_vector);
        assert(0u32 < (1u32 << ts)) by (bit_vector)
            requires
                ts <= 16,
        ;
        if len > ts {
            assert(decode_num_spec(t, 0u32 << (16 - ts) as u32) != (0u32, ts));
        }
        assert(0u32 << (16 - len) as u32 == 0) by (bit_vector);
        if code > 0 {
            assert(decode_num_spec(t, 0u32 << (16 - len) as u32) != (0u32, len));
        }
    }

    /// Emits the code that ends the decoder's run mode.
    /// The exit is place 0 of the literal table followed by a single `1` bit.
    fn emit_stmode_exit(&mut self) -> (r: Result<(), Error>)
        requires
            old(self).wf(),
        ensures
            final(self).wf(),
            final(self).bits.view_bits().len() <= old(self).bits.view_bits().len() + 17,
            r is Ok,
            old(self).bits.view_bits().is_prefix_of(final(self).bits.view_bits()),
            final(self).nhfb == old(self).nhfb,
            final(self).nlzb == old(self).nlzb,
            final(self).avr_plc == old(self).avr_plc,
            final(self).num_huf == 0,
            exists|mid: Seq<bool>|
                #[trigger] appends_code(
                    old(self).bits.view_bits(),
                    mid,
                    literal_table_for(old(self).avr_plc),
                    0,
                ) && final(self).bits.view_bits() == mid + value_bits(1, 1),
            final(self).bits.view_bits() == old(self).bits.view_bits() + value_bits(
                0,
                table_start(literal_table_for(old(self).avr_plc)),
            ) + value_bits(1, 1),
            final(self).ch_set == old(self).ch_set,
            final(self).n_to_pl == old(self).n_to_pl,
            final(self).ch_set_c == old(self).ch_set_c,
            final(self).n_to_pl_c == old(self).n_to_pl_c,
    {
        let t = self.literal_table();
        proof {
            lemma_byte_tables_cover(t, 0);
        }
        match emit_decode_num(&mut self.bits, 0, t) {
            Ok(()) => {},
            Err(e) => {
                return Err(e);
            },
        }
        let ghost mid = self.bits.view_bits();
        proof {
            let (len, code) = choose|len: u32, code: u32|
                #![trigger value_bits(code, len as nat)]
                table_start(t) <= len <= 16 && code < (1u32 << len) && decode_num_spec(
                    t,
                    code << (16 - len) as u32,
                ) == (0u32, len) && mid == old(self).bits.view_bits() + value_bits(code, len as nat)
                    && (forall|l: u32, c: u32|
                    table_start(t) <= l < len && c < (1u32 << l) ==> #[trigger] decode_num_spec(
                        t,
                        c << (16 - l) as u32,
                    ) != (0u32, l)) && (forall|c: u32|
                    c < code ==> #[trigger] decode_num_spec(t, c << (16 - len) as u32) != (
                        0u32,
                        len,
                    ));
            Self::lemma_exit_code(t, len, code);
        }
        self.bits.write_bits(1, 1);
        self.num_huf = 0;
        proof {
            assert(appends_code(old(self).bits.view_bits(), mid, t, 0));
        }
        Ok(())
    }

    /// Emits the planned tokens of one flag byte, and the run-mode exit when the
    /// decoder will have entered run mode and more input follows.
    #[verifier::rlimit(60)]
    #[verifier::spinoff_prover]
    fn emit_payloads(
        &mut self,
        payloads: &Vec<EncodedToken>,
        more_input: bool,
        Ghost(lit): Ghost<bool>,
        Ghost(x): Ghost<Seq<u8>>,
        Ghost(pos0): Ghost<int>,
        Ghost(bits0): Ghost<Seq<bool>>,
        Ghost(cs0): Ghost<Seq<u16>>,
        Ghost(ncs0): Ghost<Seq<u8>>,
    ) -> (r: Result<(), Error>)
        requires
            old(self).wf(),
            payloads@.len() <= 8,
            forall|i: int| 0 <= i < payloads@.len() ==> token_ok(#[trigger] payloads@[i]),
            lit ==> Self::literal_group(*old(self), payloads@, more_input, x, pos0, bits0, cs0, ncs0),
        ensures
            final(self).wf(),
            final(self).bits.view_bits().len() <= old(self).bits.view_bits().len() + 39
                * payloads@.len() + 17,
            r is Ok,
            old(self).bits.view_bits().is_prefix_of(final(self).bits.view_bits()),
            payloads@.len() == 0 ==> final(self).bits.view_bits() == old(self).bits.view_bits(),
            lit ==> final(self).nlzb <= final(self).nhfb,
            lit ==> final(self).reads(
                x,
                pos0 + payloads@.len(),
                if more_input {
                    ReadPhase::Boundary
                } else {
                    ReadPhase::Anywhere
                },
            ),
    {
        let ghost k = payloads@.len();
        let mut consumed_flag_bits: usize = 0;
        let mut decoder_enters_stmode = false;
        let mut i: usize = 0;
        while i < payloads.len()
            invariant
                self.wf(),
                i <= payloads@.len(),
                payloads@.len() <= 8,
                k == payloads@.len(),
                consumed_flag_bits <= 2 * i,
                forall|j: int| 0 <= j < payloads@.len() ==> token_ok(#[trigger] payloads@[j]),
                old(self).bits.view_bits().is_prefix_of(self.bits.view_bits()),
                self.bits.view_bits().len() <= old(self).bits.view_bits().len() + 39 * i,
                !decoder_enters_stmode || i > 0,
                i == 0 ==> *self == *old(self),
                lit ==> Self::literal_group(
                    *old(self),
                    payloads@,
                    more_input,
                    x,
                    pos0,
                    bits0,
                    cs0,
                    ncs0,
                ),
                lit ==> consumed_flag_bits == i,
                lit ==> (decoder_enters_stmode ==> i == 8),
                lit ==> self.nlzb <= self.nhfb,
                lit ==> self.bits.view_bits().len() <= old(self).bits.view_bits().len() + 16 * i,
                lit && i > 0 ==> self.reads(
                    x,
                    pos0 + i,
                    ReadPhase::Group { j: i as int, r: (k - i) as u16, st: decoder_enters_stmode },
                ),
            decreases payloads@.len() - i,
        {
            let ghost before = self.bits.view_bits();
            let ghost pre = *self;
            let ghost des = decoder_enters_stmode;
            let step = match payloads[i] {
                EncodedToken::Literal(byte) => {
                    consumed_flag_bits = consumed_flag_bits + huff_flag_bits(
                        self.nlzb <= self.nhfb,
                    ).len();
                    if consumed_flag_bits == 8 && self.num_huf >= 16 {
                        decoder_enters_stmode = true;
                    }
                    self.emit_literal(byte)
                },
                EncodedToken::ShortLz(short_lz) => {
                    consumed_flag_bits = consumed_flag_bits + 2;
                    self.emit_short_lz(short_lz)
                },
                EncodedToken::LongLz(long_lz) => {
                    consumed_flag_bits = consumed_flag_bits + long_lz_flag_bits(
                        self.nlzb > self.nhfb,
                    ).len();
                    self.emit_long_lz(long_lz)
                },
            };
            proof {
                lemma_prefix_trans(old(self).bits.view_bits(), before, self.bits.view_bits());
            }
            match step {
                Ok(()) => {},
                Err(e) => {
                    return Err(e);
                },
            }
            proof {
                if lit {
                    let byte = x[pos0 + i];
                    assert(payloads@[i as int] == EncodedToken::Literal(byte));
                    let p = choose|p: int| #[trigger] first_high(pre.ch_set@, byte as u16, p);
                    let t = literal_table_for(pre.avr_plc);
                    assert(appends_code(pre.bits.view_bits(), self.bits.view_bits(), t, p as u32));
                    let (lp, cp) = choose|len: u32, code: u32|
                        #![trigger value_bits(code, len as nat)]
                        table_start(t) <= len <= 16 && code < (1u32 << len) && decode_num_spec(
                            t,
                            code << (16 - len) as u32,
                        ) == (p as u32, len) && self.bits.view_bits() == pre.bits.view_bits()
                            + value_bits(code, len as nat);
                    assert(Self::literal_emitted(pre, *self, byte, p, lp, cp));
                    if i == 0 {
                        let (q, lq, cq) = choose|q: int, lq: u32, cq: u32|
                            #![trigger first_high(cs0, group_flags(k as u16) as u16, q), value_bits(cq, lq as nat)]
                            first_high(cs0, group_flags(k as u16) as u16, q) && table_start(
                                Table::Hf2,
                            ) <= lq <= 16 && cq < (1u32 << lq) && decode_num_spec(
                                Table::Hf2,
                                cq << (16 - lq) as u32,
                            ) == (q as u32, lq) && pre.bits.view_bits() == bits0 + value_bits(
                                cq,
                                lq as nat,
                            ) && (pre.ch_set_c@, pre.n_to_pl_c@) == bump_spec(cs0, ncs0, q, false);
                        Self::lemma_first_literal_reads(
                            pre,
                            *self,
                            x,
                            pos0,
                            k as u16,
                            bits0,
                            cs0,
                            ncs0,
                            q,
                            lq,
                            cq,
                            p,
                            lp,
                            cp,
                        );
                    } else {
                        Self::lemma_next_literal_reads(
                            pre,
                            *self,
                            x,
                            pos0 + i,
                            i as int,
                            (k - i) as u16,
                            decoder_enters_stmode,
                            p,
                            lp,
                            cp,
                        );
                    }
                }
            }
            i = i + 1;
        }
        if decoder_enters_stmode && more_input {
            let ghost before = self.bits.view_bits();
            let ghost pre = *self;
            let step = self.emit_stmode_exit();
            proof {
                lemma_prefix_trans(old(self).bits.view_bits(), before, self.bits.view_bits());
            }
            match step {
                Ok(()) => {},
                Err(e) => {
                    return Err(e);
                },
            }
            proof {
                if lit {
                    Self::lemma_exit_reads(pre, *self, x, pos0 + k);
                }
            }
        } else {
            proof {
                if lit {
                    if more_input {
                        Self::lemma_group_end_reads(*self, x, pos0 + k);
                    } else {
                        Self::lemma_anywhere_reads(
                            *self,
                            x,
                            pos0 + k,
                            ReadPhase::Group { j: k as int, r: 0, st: decoder_enters_stmode },
                        );
                    }
                }
            }
        }
        Ok(())
    }

    /// Takes the finished output and leaves a fresh bit writer.
    fn take_output(&mut self) -> (out: Vec<u8>)
        requires
            old(self).wf(),
        ensures
            final(self).wf(),
            packs(out@, old(self).bits.view_bits()),
            final(self).bits.view_bits() == Seq::<bool>::empty(),
            final(self).ch_set == old(self).ch_set,
            final(self).nhfb == old(self).nhfb,
            final(self).nlzb == old(self).nlzb,
            final(self).num_huf == old(self).num_huf,
    {
        let mut bits = BitWriter::new();
        std::mem::swap(&mut bits, &mut self.bits);
        bits.finish()
    }

    /// Compresses `input` as one member, using literals only.
    pub fn encode_literals_only(self, input: &[u8]) -> (r: Result<Vec<u8>, Error>)
        requires
            self.wf(),
        ensures
            input@.len() == 0 ==> (r matches Ok(v) && v@.len() == 0),
            input@.len() > 0 ==> (r matches Ok(v) ==> v@.len() > 0),
            r matches Ok(v) ==> v@.len() <= 9 * input@.len(),
            r is Ok,
            self.is_fresh() && 72 * input@.len() + 400 <= usize::MAX ==> (r matches Ok(v)
                && unpack15_spec(v@, input@.len() as int) == Some(Ok::<Seq<u8>, Error>(input@))),
    {
        let mut encoder = self;
        encoder.encode_literals_only_member(input)
    }

    fn encode_literals_only_member(&mut self, input: &[u8]) -> (r: Result<Vec<u8>, Error>)
        requires
            old(self).wf(),
        ensures
            final(self).wf(),
            input@.len() == 0 ==> (r matches Ok(v) && v@.len() == 0),
            input@.len() > 0 ==> (r matches Ok(v) ==> v@.len() > 0),
            r matches Ok(v) ==> v@.len() <= 9 * input@.len(),
            r is Ok,
            old(self).is_fresh() && 72 * input@.len() + 400 <= usize::MAX ==> (r matches Ok(v)
                && unpack15_spec(v@, input@.len() as int) == Some(Ok::<Seq<u8>, Error>(input@))),
    {
        if input.len() == 0 {
            proof {
                let v = fresh_member(Seq::<u8>::empty(), 0);
                assert(run_spec(v) == Some(Ok::<(DecView, Seq<u8>), Error>((v, Seq::<u8>::empty()))));
                assert(input@ =~= Seq::<u8>::empty());
            }
            return Ok(Vec::new());
        }
        let ghost lit = old(self).is_fresh() && 72 * input@.len() + 400 <= usize::MAX;
        self.bits = BitWriter::new();
        proof {
            if lit {
                Self::lemma_start_reads(*self, input@);
            }
        }
        let mut pos: usize = 0;
        while pos < input.len()
            invariant
                self.wf(),
                pos <= input@.len(),
                pos > 0 ==> self.bits.view_bits().len() >= 5,
                self.bits.view_bits().len() <= 72 * pos,
                lit ==> 72 * input@.len() + 400 <= usize::MAX,
                lit ==> self.nlzb <= self.nhfb,
                lit && pos < input@.len() ==> self.reads(input@, pos as int, ReadPhase::Boundary),
                lit && pos == input@.len() ==> self.reads(input@, pos as int, ReadPhase::Anywhere),
            decreases input@.len() - pos,
        {
            let mut flags: u8 = 0;
            let mut flag_bits: usize = 0;
            let mut payloads: Vec<EncodedToken> = Vec::new();
            let mut plan_nhfb = self.nhfb;
            let mut plan_nlzb = self.nlzb;
            let ghost start = pos;
            proof {
                assert((0xff00u16 >> 0u16) as u8 == 0u8) by (bit_vector);
                assert(group_flags(0) == 0u8);
            }
            while flag_bits < 8 && pos < input.len()
                invariant
                    self.wf(),
                    pos <= input@.len(),
                    flag_bits <= 8,
                    payloads@.len() <= flag_bits,
                    payloads@.len() <= pos - start,
                    plan_nhfb <= 0xff,
                    plan_nlzb <= 0xff,
                    start < input@.len(),
                    flag_bits == 0 ==> pos == start,
                    flag_bits > 0 ==> pos > start,
                    forall|j: int| 0 <= j < payloads@.len() ==> token_ok(#[trigger] payloads@[j]),
                    lit ==> payloads@.len() == flag_bits && flag_bits == pos - start,
                    lit ==> forall|j: int|
                        0 <= j < payloads@.len() ==> #[trigger] payloads@[j] == EncodedToken::Literal(
                            input@[start + j],
                        ),
                    lit ==> flags == group_flags(flag_bits as u16),
                    lit ==> plan_nlzb <= plan_nhfb,
                ensures
                    pos > start,
                    pos <= input@.len(),
                    payloads@.len() <= 8,
                    payloads@.len() <= pos - start,
                    forall|j: int| 0 <= j < payloads@.len() ==> token_ok(#[trigger] payloads@[j]),
                    lit ==> payloads@.len() == flag_bits && flag_bits == pos - start,
                    lit ==> forall|j: int|
                        0 <= j < payloads@.len() ==> #[trigger] payloads@[j] == EncodedToken::Literal(
                            input@[start + j],
                        ),
                    lit ==> flags == group_flags(flag_bits as u16),
                    lit ==> (flag_bits == 8 || pos == input@.len()),
                decreases input@.len() - pos,
            {
                let flag = huff_flag_bits(plan_nlzb <= plan_nhfb);
                if flag_bits + flag.len() > 8 {
                    break ;
                }
                proof {
                    if lit {
                        lemma_group_flags(flag_bits as u16);
                    }
                }
                let ghost pre_payloads = payloads@;
                write_planned_flag_bits(&mut flags, flag_bits, flag);
                payloads.push(EncodedToken::Literal(input[pos]));
                proof {
                    if lit {
                        assert(flags == group_flags((flag_bits + 1) as u16));
                        assert forall|j: int| 0 <= j < payloads@.len() implies #[trigger] payloads@[j]
                            == EncodedToken::Literal(input@[start + j]) by {
                            if j < pre_payloads.len() {
                                assert(payloads@[j] == pre_payloads[j]);
                            }
                        }
                    }
                }
                flag_bits = flag_bits + flag.len();
                pos = pos + 1;
                plan_huff_effect(&mut plan_nhfb, &mut plan_nlzb);
            }
            let ghost e0 = *self;
            match self.emit_flags_byte(flags) {
                Ok(()) => {},
                Err(e) => {
                    return Err(e);
                },
            }
            proof {
                if lit {
                    let k = payloads@.len();
                    let q = choose|q: int| #[trigger] first_high(e0.ch_set_c@, flags as u16, q);
                    assert(appends_code(e0.bits.view_bits(), self.bits.view_bits(), Table::Hf2, q as u32));
                    let (lq, cq) = choose|len: u32, code: u32|
                        #![trigger value_bits(code, len as nat)]
                        table_start(Table::Hf2) <= len <= 16 && code < (1u32 << len) && decode_num_spec(
                            Table::Hf2,
                            code << (16 - len) as u32,
                        ) == (q as u32, len) && self.bits.view_bits() == e0.bits.view_bits()
                            + value_bits(code, len as nat);
                    Self::lemma_flags_pending(e0, *self, input@, start as int, cq, lq);
                    assert(first_high(e0.ch_set_c@, group_flags(k as u16) as u16, q));
                    assert(Self::literal_group(
                        *self,
                        payloads@,
                        pos < input@.len(),
                        input@,
                        start as int,
                        e0.bits.view_bits(),
                        e0.ch_set_c@,
                        e0.n_to_pl_c@,
                    ));
                }
            }
            match self.emit_payloads(
                &payloads,
                pos < input.len(),
                Ghost(lit),
                Ghost(input@),
                Ghost(start as int),
                Ghost(e0.bits.view_bits()),
                Ghost(e0.ch_set_c@),
                Ghost(e0.n_to_pl_c@),
            ) {
                Ok(()) => {},
                Err(e) => {
                    return Err(e);
                },
            }
        }
        let ghost last = *self;
        let out = self.take_output();
        proof {
            if lit {
                Self::lemma_reads_all(last, input@, out@);
            }
        }
        Ok(out)
    }

    /// Compresses `input` as one member, continuing the adaptive state of the
    /// members before it (solid compression) when the encoder is reused.
    #[verifier::rlimit(40)]
    #[verifier::spinoff_prover]
    pub fn encode_member(&mut self, input: &[u8]) -> (r: Result<Vec<u8>, Error>)
        requires
            old(self).wf(),
        ensures
            final(self).wf(),
            input@.len() == 0 ==> (r matches Ok(v) && v@.len() == 0),
            input@.len() == 0 ==> *final(self) == *old(self),
            input@.len() > 0 ==> (r matches Ok(v) ==> v@.len() > 0),
            r matches Ok(v) ==> v@.len() <= 9 * input@.len(),
            r is Ok,
            old(self).is_fresh() && no_repeats(input@) && 72 * input@.len() + 400 <= usize::MAX ==> (
            r matches Ok(v) && unpack15_spec(v@, input@.len() as int) == Some(
                Ok::<Seq<u8>, Error>(input@),
            )),
    {
        if input.len() == 0 {
            proof {
                let v = fresh_member(Seq::<u8>::empty(), 0);
                assert(run_spec(v) == Some(Ok::<(DecView, Seq<u8>), Error>((v, Seq::<u8>::empty()))));
                assert(input@ =~= Seq::<u8>::empty());
            }
            return Ok(Vec::new());
        }
        let ghost lit = old(self).is_fresh() && no_repeats(input@) && 72 * input@.len() + 400
            <= usize::MAX;
        self.bits = BitWriter::new();
        proof {
            if lit {
                Self::lemma_start_reads(*self, input@);
            }
        }
        let mut pos: usize = 0;
        while pos < input.len()
            invariant
                self.wf(),
                pos <= input@.len(),
                pos > 0 ==> self.bits.view_bits().len() >= 5,
                self.bits.view_bits().len() <= 72 * pos,
                lit ==> no_repeats(input@) && 72 * input@.len() + 400 <= usize::MAX,
                lit ==> self.nlzb <= self.nhfb,
                lit && pos < input@.len() ==> self.reads(input@, pos as int, ReadPhase::Boundary),
                lit && pos == input@.len() ==> self.reads(input@, pos as int, ReadPhase::Anywhere),
            decreases input@.len() - pos,
        {
            let mut flags: u8 = 0;
            let mut flag_bits: usize = 0;
            let mut payloads: Vec<EncodedToken> = Vec::new();
            let mut plan_nhfb = self.nhfb;
            let mut plan_nlzb = self.nlzb;
            let ghost start = pos;
            proof {
                assert((0xff00u16 >> 0u16) as u8 == 0u8) by (bit_vector);
                assert(group_flags(0) == 0u8);
            }
            while flag_bits < 8 && pos < input.len()
                invariant
                    self.wf(),
                    pos <= input@.len(),
                    flag_bits <= 8,
                    payloads@.len() <= flag_bits,
                    payloads@.len() <= pos - start,
                    plan_nhfb <= 0xff,
                    plan_nlzb <= 0xff,
                    start < input@.len(),
                    flag_bits == 0 ==> pos == start,
                    flag_bits > 0 ==> pos > start,
                    forall|j: int| 0 <= j < payloads@.len() ==> token_ok(#[trigger] payloads@[j]),
                    lit ==> no_repeats(input@),
                    lit ==> payloads@.len() == flag_bits && flag_bits == pos - start,
                    lit ==> forall|j: int|
                        0 <= j < payloads@.len() ==> #[trigger] payloads@[j] == EncodedToken::Literal(
                            input@[start + j],
                        ),
                    lit ==> flags == group_flags(flag_bits as u16),
                    lit ==> plan_nlzb <= plan_nhfb,
                ensures
                    pos > start,
                    pos <= input@.len(),
                    payloads@.len() <= 8,
                    payloads@.len() <= pos - start,
                    forall|j: int| 0 <= j < payloads@.len() ==> token_ok(#[trigger] payloads@[j]),
                    lit ==> payloads@.len() == flag_bits && flag_bits == pos - start,
                    lit ==> forall|j: int|
                        0 <= j < payloads@.len() ==> #[trigger] payloads@[j] == EncodedToken::Literal(
                            input@[start + j],
                        ),
                    lit ==> flags == group_flags(flag_bits as u16),
                    lit ==> (flag_bits == 8 || pos == input@.len()),
                decreases input@.len() - pos,
            {
                proof {
                    if lit {
                        assert(no_short_at(input@, pos as int));
                        assert(no_long_at(input@, pos as int));
                    }
                }
                match find_short_lz(input, pos) {
                    Some(short_lz) => {
                        if flag_bits + 2 <= 8 {
                            payloads.push(EncodedToken::ShortLz(short_lz));
                            flag_bits = flag_bits + 2;
                            pos = pos + short_lz.length as usize;
                            continue ;
                        }
                    },
                    None => {},
                }
                match find_long_lz(input, pos) {
                    Some(long_lz) => {
                        let flag = long_lz_flag_bits(plan_nlzb > plan_nhfb);
                        if flag_bits + flag.len() <= 8 {
                            write_planned_flag_bits(&mut flags, flag_bits, flag);
                            payloads.push(EncodedToken::LongLz(long_lz));
                            flag_bits = flag_bits + flag.len();
                            pos = pos + long_lz.length as usize;
                            plan_long_lz_effect(&mut plan_nhfb, &mut plan_nlzb);
                            continue ;
                        }
                    },
                    None => {},
                }
                let flag = huff_flag_bits(plan_nlzb <= plan_nhfb);
                if flag_bits + flag.len() > 8 {
                    break ;
                }
                proof {
                    if lit {
                        lemma_group_flags(flag_bits as u16);
                    }
                }
                let ghost pre_payloads = payloads@;
                write_planned_flag_bits(&mut flags, flag_bits, flag);
                payloads.push(EncodedToken::Literal(input[pos]));
                proof {
                    if lit {
                        assert(flags == group_flags((flag_bits + 1) as u16));
                        assert forall|j: int| 0 <= j < payloads@.len() implies #[trigger] payloads@[j]
                            == EncodedToken::Literal(input@[start + j]) by {
                            if j < pre_payloads.len() {
                                assert(payloads@[j] == pre_payloads[j]);
                            }
                        }
                    }
                }
                flag_bits = flag_bits + flag.len();
                pos = pos + 1;
                plan_huff_effect(&mut plan_nhfb, &mut plan_nlzb);
            }
            let ghost e0 = *self;
            match self.emit_flags_byte(flags) {
                Ok(()) => {},
                Err(e) => {
                    return Err(e);
                },
            }
            proof {
                if lit {
                    let k = payloads@.len();
                    let q = choose|q: int| #[trigger] first_high(e0.ch_set_c@, flags as u16, q);
                    assert(appends_code(e0.bits.view_bits(), self.bits.view_bits(), Table::Hf2, q as u32));
                    let (lq, cq) = choose|len: u32, code: u32|
                        #![trigger value_bits(code, len as nat)]
                        table_start(Table::Hf2) <= len <= 16 && code < (1u32 << len) && decode_num_spec(
                            Table::Hf2,
                            code << (16 - len) as u32,
                        ) == (q as u32, len) && self.bits.view_bits() == e0.bits.view_bits()
                            + value_bits(code, len as nat);
                    Self::lemma_flags_pending(e0, *self, input@, start as int, cq, lq);
                    assert(first_high(e0.ch_set_c@, group_flags(k as u16) as u16, q));
                    assert(Self::literal_group(
                        *self,
                        payloads@,
                        pos < input@.len(),
                        input@,
                        start as int,
                        e0.bits.view_bits(),
                        e0.ch_set_c@,
                        e0.n_to_pl_c@,
                    ));
                }
            }
            match self.emit_payloads(
                &payloads,
                pos < input.len(),
                Ghost(lit),
                Ghost(input@),
                Ghost(start as int),
                Ghost(e0.bits.view_bits()),
                Ghost(e0.ch_set_c@),
                Ghost(e0.n_to_pl_c@),
            ) {
                Ok(()) => {},
                Err(e) => {
                    return Err(e);
                },
            }
        }
        let ghost last = *self;
        let out = self.take_output();
        proof {
            if lit {
                Self::lemma_reads_all(last, input@, out@);
            }
        }
        Ok(out)
    }
}

/// Compresses `input` as a single non-solid member.
pub fn unpack15_encode(input: &[u8]) -> (r: Result<Vec<u8>, Error>)
    ensures
        input@.len() == 0 ==> (r matches Ok(v) && v@.len() == 0),
        input@.len() > 0 ==> (r matches Ok(v) ==> v@.len() > 0),
        r matches Ok(v) ==> v@.len() <= 9 * input@.len(),
        r is Ok,
        no_repeats(input@) && 72 * input@.len() + 400 <= usize::MAX ==> (r matches Ok(v)
            && unpack15_spec(v@, input@.len() as int) == Some(Ok::<Seq<u8>, Error>(input@))),
{
    if input.len() == 0 {
        proof {
            let v = fresh_member(Seq::<u8>::empty(), 0);
            assert(run_spec(v) == Some(Ok::<(DecView, Seq<u8>), Error>((v, Seq::<u8>::empty()))));
            assert(input@ =~= Seq::<u8>::empty());
        }
        return Ok(Vec::new());
    }
    let mut encoder = Unpack15Encoder::new();
    encoder.encode_member(input)
}

} // verus!
