use vstd::prelude::*;

use crate::bitio::{
    lemma_peek_bits_bound, lemma_peek_packed_value, lemma_peek_split, packs, peek_bits, value_bits,
};
use crate::codec::{decode_num_spec, lemma_emitted_code_reads_back, table_start, Table};
use crate::decoding::{
    field, flags_spec, fresh_member, lemma_prefixed_twice, next_flag_spec, prefixed, run_spec,
    step_spec, DecView,
};
use crate::pack::literal_table_for;
use crate::unpack::bump_spec;

verus! {

/// `w` is `v` after the decoder wrote the literal at `place` of the literal
/// table, its code `len` bits long: the byte is counted, the table promoted,
/// and the literal average and the code-choice counters moved.
pub open spec fn literal_done(v: DecView, w: DecView, place: int, len: int) -> bool {
    let nh = v.nhfb + 16;
    &&& w.data == v.data
    &&& w.target == v.target
    &&& w.written == v.written + 1
    &&& w.pos == v.pos + len
    &&& (w.ch_set, w.n_to_pl) == bump_spec(v.ch_set, v.n_to_pl, place, true)
    &&& w.avr_plc == ((v.avr_plc + place) - (v.avr_plc + place) / 256) as u32
    &&& w.nhfb == if nh > 0xff {
        0x90u32
    } else {
        nh as u32
    }
    &&& w.nlzb == if nh > 0xff {
        v.nlzb / 2
    } else {
        v.nlzb
    }
    &&& w.num_huf == if v.num_huf == u32::MAX {
        u32::MAX
    } else {
        (v.num_huf + 1) as u32
    }
}

/// A literal announced by a `1` flag bit inside a flag byte: the decoder
/// writes the byte ranked at the decoded place of the literal table.
#[verifier::rlimit(60)]
pub proof fn lemma_literal_step(v: DecView, p: u32, len: u32)
    requires
        !v.st_mode,
        1 <= v.flags_cnt <= 8,
        0x80 <= v.flag_buf < 0x100,
        v.nlzb <= v.nhfb,
        v.written < v.target,
        p < 256,
        decode_num_spec(literal_table_for(v.avr_plc), field(v, v.pos)) == (p, len),
    ensures
        step_spec(v) matches Ok((w, b)) && b == seq![(v.ch_set[p as int] / 256) as u8]
            && literal_done(v, w, p as int, len as int) && w.st_mode == (v.num_huf >= 16
            && v.flags_cnt == 1) && w.flags_cnt == v.flags_cnt - 1 && w.flag_buf == ((v.flag_buf
            * 2) % 256) as u32 && w.ch_set_c == v.ch_set_c && w.n_to_pl_c == v.n_to_pl_c,
{
    reveal(step_spec);
    assert(p % 256 == p);
}

/// The first token after a flag byte: the decoder reads the flag byte ranked
/// at the decoded place of the flag table, which is promoted, and, its first
/// bit being `1`, a literal.
pub proof fn lemma_flags_literal_step(v: DecView, q: u32, lq: u32, p: u32, lp: u32)
    requires
        !v.st_mode,
        v.flags_cnt == -2 || v.flags_cnt == 0,
        v.nlzb <= v.nhfb,
        v.written < v.target,
        q < 256,
        p < 256,
        decode_num_spec(Table::Hf2, field(v, v.pos)) == (q, lq),
        (v.ch_set_c[q as int] >> 8) >= 0x80,
        decode_num_spec(literal_table_for(v.avr_plc), field(v, v.pos + lq)) == (p, lp),
    ensures
        step_spec(v) matches Ok((w, b)) && b == seq![(v.ch_set[p as int] / 256) as u8]
            && literal_done(v, w, p as int, (lq + lp) as int) && !w.st_mode && w.flags_cnt == 7
            && w.flag_buf == ((((v.ch_set_c[q as int] >> 8) as u32) * 2) % 256) as u32 && (
        w.ch_set_c, w.n_to_pl_c) == bump_spec(v.ch_set_c, v.n_to_pl_c, q as int, false),
{
    let u = DecView { flags_cnt: 8, ..flags_spec(v) };
    assert(step_spec(v) == step_spec(u)) by {
        reveal(step_spec);
        assert(next_flag_spec(DecView {
            first_win_done: v.first_win_done || v.prev_ptr > v.unp_ptr,
            prev_ptr: v.unp_ptr,
            ..v
        }) =~= DecView {
            flags_cnt: 7,
            first_win_done: v.first_win_done || v.prev_ptr > v.unp_ptr,
            prev_ptr: v.unp_ptr,
            ..flags_spec(v)
        });
    }
    assert(field(u, u.pos) == field(v, v.pos + lq));
    let c = v.ch_set_c[q as int];
    assert(c >> 8u16 < 0x100u16) by (bit_vector);
    lemma_literal_step(u, p, lp);
}

/// The end of the run mode: the code of place 0, with its top four bits
/// clear, and a `1` bit.
#[verifier::rlimit(60)]
pub proof fn lemma_run_exit_step(v: DecView, l0: u32)
    requires
        v.st_mode,
        v.flags_cnt == 0,
        decode_num_spec(literal_table_for(v.avr_plc), field(v, v.pos)) == (0u32, l0),
        field(v, v.pos) <= 0x0fff,
        field(v, v.pos + l0) >= 0x8000,
    ensures
        step_spec(v) matches Ok((w, b)) && b == Seq::<u8>::empty() && w.data == v.data
            && w.target == v.target && w.written == v.written && w.pos == v.pos + l0 + 1
            && !w.st_mode && w.num_huf == 0 && w.flags_cnt == 0 && w.ch_set == v.ch_set
            && w.n_to_pl == v.n_to_pl && w.ch_set_c == v.ch_set_c && w.n_to_pl_c == v.n_to_pl_c
            && w.avr_plc == v.avr_plc && w.nhfb == v.nhfb && w.nlzb == v.nlzb,
{
    reveal(step_spec);
}

/// One step of a decoding run that has not finished.
pub proof fn lemma_run_step(v: DecView, w: DecView, b: Seq<u8>)
    requires
        v.written < v.target,
        0 <= v.pos,
        v.pos + 128 <= usize::MAX,
        step_spec(v) == Ok::<(DecView, Seq<u8>), crate::codec::Error>((w, b)),
        v.pos < w.pos <= usize::MAX,
    ensures
        run_spec(v) == prefixed(b, run_spec(w)),
{
}

/// The decoder, run over `out` from the start of a member of `x.len()` bytes,
/// has written the first `pos` bytes of `x` when it reaches state `v`.
pub open spec fn reads_prefix(out: Seq<u8>, x: Seq<u8>, pos: int, v: DecView) -> bool {
    &&& v.data == out
    &&& v.target == x.len()
    &&& v.written == pos
    &&& 0 <= pos <= x.len()
    &&& run_spec(fresh_member(out, x.len() as int)) == prefixed(x.subrange(0, pos), run_spec(v))
}

/// A step that writes the next byte of `x` keeps the decoder on `x`.
proof fn lemma_reads_one_more(v: DecView, w: DecView, x: Seq<u8>, pos: int, b: Seq<u8>)
    requires
        reads_prefix(v.data, x, pos, v),
        pos < x.len(),
        0 <= v.pos,
        v.pos + 128 <= usize::MAX,
        step_spec(v) == Ok::<(DecView, Seq<u8>), crate::codec::Error>((w, b)),
        v.pos < w.pos <= usize::MAX,
        b == seq![x[pos]],
        w.data == v.data,
        w.target == v.target,
        w.written == pos + 1,
    ensures
        reads_prefix(v.data, x, pos + 1, w),
{
    lemma_run_step(v, w, b);
    lemma_prefixed_twice(x.subrange(0, pos), b, run_spec(w));
    assert(x.subrange(0, pos) + b =~= x.subrange(0, pos + 1));
}

/// A literal code written at the decoder's read position reads back as the
/// next byte of `x`.
pub proof fn lemma_literal_reads_back(
    v: DecView,
    x: Seq<u8>,
    pos: int,
    before: Seq<bool>,
    p: u32,
    len: u32,
    code: u32,
    tail: Seq<bool>,
)
    requires
        reads_prefix(v.data, x, pos, v),
        pos < x.len(),
        v.pos == before.len(),
        v.pos + 128 <= usize::MAX,
        packs(v.data, before + value_bits(code, len as nat) + tail),
        table_start(literal_table_for(v.avr_plc)) <= len <= 16,
        code < (1u32 << len),
        decode_num_spec(literal_table_for(v.avr_plc), code << (16 - len) as u32) == (p, len),
        p < 256,
        (v.ch_set[p as int] / 256) as u8 == x[pos],
        !v.st_mode,
        1 <= v.flags_cnt <= 8,
        0x80 <= v.flag_buf < 0x100,
        v.nlzb <= v.nhfb,
    ensures
        exists|w: DecView|
            reads_prefix(v.data, x, pos + 1, w) && literal_done(v, w, p as int, len as int)
                && w.st_mode == (v.num_huf >= 16 && v.flags_cnt == 1) && w.flags_cnt
                == v.flags_cnt - 1 && w.flag_buf == ((v.flag_buf * 2) % 256) as u32 && w.ch_set_c
                == v.ch_set_c && w.n_to_pl_c == v.n_to_pl_c,
{
    lemma_emitted_code_reads_back(
        literal_table_for(v.avr_plc),
        p,
        len,
        code,
        before,
        tail,
        v.data,
    );
    lemma_literal_step(v, p, len);
    let (w, b) = step_spec(v)->Ok_0;
    lemma_reads_one_more(v, w, x, pos, b);
}

/// A flag code followed by a literal code, written at the decoder's read
/// position, reads back as the flag byte and the next byte of `x`.
pub proof fn lemma_flags_literal_reads_back(
    v: DecView,
    x: Seq<u8>,
    pos: int,
    before: Seq<bool>,
    q: u32,
    lq: u32,
    cq: u32,
    p: u32,
    lp: u32,
    cp: u32,
    tail: Seq<bool>,
)
    requires
        reads_prefix(v.data, x, pos, v),
        pos < x.len(),
        v.pos == before.len(),
        v.pos + 128 <= usize::MAX,
        packs(v.data, before + value_bits(cq, lq as nat) + value_bits(cp, lp as nat) + tail),
        table_start(Table::Hf2) <= lq <= 16,
        cq < (1u32 << lq),
        decode_num_spec(Table::Hf2, cq << (16 - lq) as u32) == (q, lq),
        q < 256,
        (v.ch_set_c[q as int] >> 8) >= 0x80,
        table_start(literal_table_for(v.avr_plc)) <= lp <= 16,
        cp < (1u32 << lp),
        decode_num_spec(literal_table_for(v.avr_plc), cp << (16 - lp) as u32) == (p, lp),
        p < 256,
        (v.ch_set[p as int] / 256) as u8 == x[pos],
        !v.st_mode,
        v.flags_cnt == -2 || v.flags_cnt == 0,
        v.nlzb <= v.nhfb,
    ensures
        exists|w: DecView|
            reads_prefix(v.data, x, pos + 1, w) && literal_done(v, w, p as int, (lq + lp) as int)
                && !w.st_mode && w.flags_cnt == 7 && w.flag_buf == ((((v.ch_set_c[q as int]
                >> 8) as u32) * 2) % 256) as u32 && (w.ch_set_c, w.n_to_pl_c) == bump_spec(
                v.ch_set_c,
                v.n_to_pl_c,
                q as int,
                false,
            ),
{
    let b1 = before + value_bits(cq, lq as nat);
    assert(before + value_bits(cq, lq as nat) + value_bits(cp, lp as nat) + tail == before
        + value_bits(cq, lq as nat) + (value_bits(cp, lp as nat) + tail));
    lemma_emitted_code_reads_back(Table::Hf2, q, lq, cq, before, value_bits(cp, lp as nat) + tail, v.data);
    assert(value_bits(cq, lq as nat).len() == lq);
    lemma_emitted_code_reads_back(literal_table_for(v.avr_plc), p, lp, cp, b1, tail, v.data);
    assert(field(v, v.pos + lq) == peek_bits(v.data, b1.len() as int, 16) as u32);
    lemma_flags_literal_step(v, q, lq, p, lp);
    let (w, b) = step_spec(v)->Ok_0;
    lemma_reads_one_more(v, w, x, pos, b);
}

/// Place 0 of a literal table is coded as all zero bits, as many as the
/// table's shortest codes.
pub proof fn lemma_zero_code(t: Table)
    requires
        t == Table::Hf0 || t == Table::Hf1 || t == Table::Hf2 || t == Table::Hf3 || t == Table::Hf4,
    ensures
        decode_num_spec(t, 0) == (0u32, table_start(t) as u32),
        4 <= table_start(t) <= 8,
{
    assert(0u32 & 0xfff0u32 == 0u32) by (bit_vector);
    assert(forall|k: u32| #[trigger] (0u32 >> k) == 0u32) by (bit_vector);
}

/// The run-mode exit written at the decoder's read position ends the run
/// mode without writing anything.
pub proof fn lemma_exit_reads_back(v: DecView, x: Seq<u8>, pos: int, before: Seq<bool>, tail: Seq<bool>)
    requires
        reads_prefix(v.data, x, pos, v),
        pos < x.len(),
        v.pos == before.len(),
        v.pos + 128 <= usize::MAX,
        packs(
            v.data,
            before + value_bits(0, table_start(literal_table_for(v.avr_plc))) + value_bits(1, 1)
                + tail,
        ),
        v.st_mode,
        v.flags_cnt == 0,
    ensures
        exists|w: DecView|
            reads_prefix(v.data, x, pos, w) && w.pos == before.len() + table_start(
                literal_table_for(v.avr_plc),
            ) + 1 && !w.st_mode && w.num_huf == 0 && w.flags_cnt == 0 && w.ch_set == v.ch_set
                && w.n_to_pl == v.n_to_pl && w.ch_set_c == v.ch_set_c && w.n_to_pl_c
                == v.n_to_pl_c && w.avr_plc == v.avr_plc && w.nhfb == v.nhfb && w.nlzb == v.nlzb,
{
    let t = literal_table_for(v.avr_plc);
    let ts = table_start(t);
    lemma_zero_code(t);
    vstd::arithmetic::power2::lemma2_to64();
    let out = v.data;
    let z = value_bits(0, ts);
    let one = value_bits(1, 1);
    assert(before + z + one + tail == before + z + (one + tail));
    let tsu = ts as u32;
    let sh = (16 - tsu) as u32;
    assert(0u32 << sh == 0) by (bit_vector);
    assert(0u32 < (1u32 << tsu)) by (bit_vector)
        requires
            tsu <= 16,
    ;
    lemma_emitted_code_reads_back(t, 0, tsu, 0, before, one + tail, out);
    let p = before.len() as int;
    lemma_peek_packed_value(out, before, 0, ts, one + tail);
    lemma_peek_split(out, p, ts, (16 - ts) as nat);
    lemma_peek_bits_bound(out, p + ts, (16 - ts) as nat);
    assert(peek_bits(out, p, 16) < 0x1000);
    assert(z.len() == ts);
    lemma_peek_packed_value(out, before + z, 1, 1, tail);
    lemma_peek_split(out, p + ts, 1, 15);
    assert(peek_bits(out, p + ts, 16) >= 0x8000);
    lemma_peek_bits_bound(out, p + ts, 16);
    lemma_peek_bits_bound(out, p, 16);
    assert(field(v, v.pos) == peek_bits(out, p, 16) as u32);
    assert(field(v, v.pos + ts) == peek_bits(out, p + ts, 16) as u32);
    lemma_run_exit_step(v, ts as u32);
    let (w, b) = step_spec(v)->Ok_0;
    lemma_run_step(v, w, b);
    lemma_prefixed_twice(x.subrange(0, pos), b, run_spec(w));
    assert(x.subrange(0, pos) + b =~= x.subrange(0, pos));
    assert(reads_prefix(v.data, x, pos, w));
    assert(w.pos == before.len() + ts + 1);
}

} // verus!
