use vstd::prelude::*;

use crate::bitio::peek_bits;
use crate::codec::{decode_num_spec, Error, Table};
use crate::pack::{literal_table_for, long_distance_table, promote};
use crate::unpack::{
    bump_spec, corr_places, dec_short_len, long_length_code, match_bytes, ring_write,
    short_code_from,
};

verus! {

/// The state of the RAR 1.3 decoder as plain values: the packed input and the
/// read position in bits, the member size and the bytes written of it, the
/// window, the adaptive tables and the running statistics.
#[verifier::ext_equal]
pub struct DecView {
    pub data: Seq<u8>,
    pub pos: int,
    pub target: int,
    pub written: int,
    pub window: Seq<u8>,
    pub unp_ptr: int,
    pub prev_ptr: int,
    pub first_win_done: bool,
    pub ch_set: Seq<u16>,
    pub ch_set_a: Seq<u16>,
    pub ch_set_b: Seq<u16>,
    pub ch_set_c: Seq<u16>,
    pub n_to_pl: Seq<u8>,
    pub n_to_pl_b: Seq<u8>,
    pub n_to_pl_c: Seq<u8>,
    pub avr_plc: u32,
    pub avr_plc_b: u32,
    pub avr_ln1: u32,
    pub avr_ln2: u32,
    pub avr_ln3: u32,
    pub max_dist3: u32,
    pub nhfb: u32,
    pub nlzb: u32,
    pub num_huf: u32,
    pub buf60: u32,
    pub st_mode: bool,
    pub l_count: u32,
    pub flag_buf: u32,
    pub flags_cnt: i32,
    pub old_dist: Seq<u32>,
    pub old_dist_ptr: int,
    pub last_dist: u32,
    pub last_length: u32,
}

/// What a decoding step gives: the next state and the bytes it wrote, or the
/// error it stopped with.
pub type Stepped = Result<(DecView, Seq<u8>), Error>;

/// The 16 bits of the packed input from bit `p` on.
pub open spec fn field(v: DecView, p: int) -> u32 {
    peek_bits(v.data, p, 16) as u32
}

/// Whether a match from `distance` back copies zeros: the distance is out of
/// range, or reaches before the first byte written.
pub open spec fn zero_dist(v: DecView, distance: u32) -> bool {
    (!v.first_win_done && distance > v.unp_ptr) || distance > 0x10000 || distance == 0
}

/// Writes one byte to the window and the output, unless the member is full.
pub open spec fn put_spec(v: DecView, byte: u8) -> Stepped {
    if v.written >= v.target {
        Err(Error::InvalidData("RAR 1.3 literal exceeds output size"))
    } else {
        Ok(
            (
                DecView {
                    window: v.window.update(v.unp_ptr, byte),
                    unp_ptr: (v.unp_ptr + 1) % 0x10000,
                    written: v.written + 1,
                    ..v
                },
                seq![byte],
            ),
        )
    }
}

/// Copies a match of `length` bytes from `distance` back, unless it would
/// pass the end of the member.
#[verifier::opaque]
pub open spec fn copy_spec(v: DecView, distance: u32, length: u32) -> Stepped {
    if length > v.target - v.written {
        Err(Error::InvalidData("RAR 1.3 match exceeds output size"))
    } else {
        let bytes = match_bytes(
            v.window,
            v.unp_ptr,
            distance as int,
            length as nat,
            zero_dist(v, distance),
        );
        Ok(
            (
                DecView {
                    window: ring_write(v.window, v.unp_ptr, bytes),
                    unp_ptr: (v.unp_ptr + length) % 0x10000,
                    written: v.written + length,
                    ..v
                },
                bytes,
            ),
        )
    }
}

/// Remembers a match for the repeat codes.
pub open spec fn remember_spec(v: DecView, distance: u32, length: u32) -> DecView {
    DecView {
        old_dist: v.old_dist.update(v.old_dist_ptr, distance),
        old_dist_ptr: (v.old_dist_ptr + 1) % 4,
        last_dist: distance,
        last_length: length,
        ..v
    }
}

/// Reads the next flag byte: the flag table entry at the place coded in
/// table `Hf2`, which is promoted; a place past the table leaves the flags.
pub open spec fn flags_spec(v: DecView) -> DecView {
    let c = decode_num_spec(Table::Hf2, field(v, v.pos));
    let v1 = DecView { pos: v.pos + c.1, ..v };
    if c.0 >= 256 {
        v1
    } else {
        let (ch, npl) = bump_spec(v.ch_set_c, v.n_to_pl_c, c.0 as int, false);
        DecView {
            ch_set_c: ch,
            n_to_pl_c: npl,
            flag_buf: (v.ch_set_c[c.0 as int] >> 8) as u32,
            ..v1
        }
    }
}

/// Moves to the next flag bit, reading a new flag byte when the current one
/// is used up.
pub open spec fn next_flag_spec(v: DecView) -> DecView {
    if v.flags_cnt - 1 < 0 {
        DecView { flags_cnt: 7, ..flags_spec(v) }
    } else {
        DecView { flags_cnt: (v.flags_cnt - 1) as i32, ..v }
    }
}

/// Writes the literal at `place` of the literal table, its code ending at
/// bit `p`: the literal average and the code-choice counters move, and the
/// table is promoted once the byte is written.
pub open spec fn literal_spec(v: DecView, place: int, p: int) -> Stepped {
    let nh = v.nhfb + 16;
    let v1 = DecView {
        pos: p,
        avr_plc: ((v.avr_plc + place) - (v.avr_plc + place) / 256) as u32,
        nhfb: if nh > 0xff {
            0x90
        } else {
            nh as u32
        },
        nlzb: if nh > 0xff {
            v.nlzb / 2
        } else {
            v.nlzb
        },
        ..v
    };
    match put_spec(v1, (v.ch_set[place] / 256) as u8) {
        Ok((v2, b)) => {
            let (ch, npl) = bump_spec(v.ch_set, v.n_to_pl, place, true);
            Ok((DecView { ch_set: ch, n_to_pl: npl, ..v2 }, b))
        },
        Err(e) => Err(e),
    }
}

/// Decodes a literal; in the run mode a place of zero instead opens a short
/// match or ends the run mode.
pub open spec fn huff_spec(v: DecView) -> Stepped {
    let b0 = field(v, v.pos);
    let c = decode_num_spec(literal_table_for(v.avr_plc), b0);
    let p1 = v.pos + c.1;
    let d = c.0 % 256;
    if v.st_mode {
        let bp: int = if d == 0 && b0 > 0x0fff {
            0x100
        } else {
            d as int
        };
        if bp == 0 {
            let b1 = field(v, p1);
            if b1 >= 0x8000 {
                Ok((DecView { pos: p1 + 1, num_huf: 0, st_mode: false, ..v }, Seq::empty()))
            } else {
                let length: u32 = if (b1 / 0x4000) % 2 == 1 {
                    4
                } else {
                    3
                };
                let hc = decode_num_spec(Table::Hf2, field(v, p1 + 2));
                let p4 = p1 + 2 + hc.1;
                let distance = (hc.0 * 32 + field(v, p4) / 2048) as u32;
                copy_spec(DecView { pos: p4 + 5, ..v }, distance, length)
            }
        } else {
            literal_spec(v, bp - 1, p1)
        }
    } else {
        let v1 = DecView {
            st_mode: v.num_huf >= 16 && v.flags_cnt == 0,
            num_huf: if v.num_huf == u32::MAX {
                u32::MAX
            } else {
                (v.num_huf + 1) as u32
            },
            ..v
        };
        literal_spec(v1, d as int, p1)
    }
}

/// A far ShortLZ match, its length coded in table `L2` at the read position
/// and its distance in the 15 bits after it.
pub open spec fn short_far_spec(v: DecView) -> Stepped {
    let lc = decode_num_spec(Table::L2, field(v, v.pos));
    let length = (lc.0 + 5) as u32;
    let distance = (field(v, v.pos + lc.1) / 2) | 0x8000;
    copy_spec(
        DecView {
            l_count: 0,
            pos: v.pos + lc.1 + 15,
            last_length: length,
            last_dist: distance,
            ..v
        },
        distance,
        length,
    )
}

/// A ShortLZ match at one of the four last distances (`code` 10 to 13 and
/// 15), its length coded in table `L1`; one length of code 10 instead flips
/// the run flag.
pub open spec fn short_old_spec(v: DecView, code: int) -> Stepped {
    let back = (code - 9) % 4;
    let distance = v.old_dist[(v.old_dist_ptr + 4 - back) % 4];
    let lc = decode_num_spec(Table::L1, field(v, v.pos));
    let length0 = lc.0 + 2;
    let v2 = DecView { l_count: 0, pos: v.pos + lc.1, ..v };
    if length0 == 0x101 && code == 10 {
        Ok((DecView { buf60: (1 - v.buf60) as u32, ..v2 }, Seq::empty()))
    } else {
        let length = (length0 + (if distance > 256 {
            1int
        } else {
            0
        }) + (if distance >= v.max_dist3 {
            1int
        } else {
            0
        })) as u32;
        copy_spec(remember_spec(v2, distance, length), distance, length)
    }
}

/// A short ShortLZ match of length `code + 2` (`code` below 9), its distance
/// ranked in the distance table at the place coded in table `Hf2`.
pub open spec fn short_ranked_spec(v: DecView, code: int) -> Stepped {
    let a = v.avr_ln1 + code;
    let pc = decode_num_spec(Table::Hf2, field(v, v.pos));
    let place = (pc.0 % 256) as int;
    let distance = (v.ch_set_a[place] + 1) as u32;
    let length = (code + 2) as u32;
    let v2 = DecView {
        l_count: 0,
        avr_ln1: (a - a / 16) as u32,
        pos: v.pos + pc.1,
        ch_set_a: promote(v.ch_set_a, place),
        ..v
    };
    copy_spec(remember_spec(v2, distance, length), distance, length)
}

/// Decodes a ShortLZ token: a repeat of the last match, a match at one of
/// the four last distances, a far match with its own length, a flip of the
/// run flag, or a short match whose distance the distance table ranks.
pub open spec fn short_spec(v: DecView) -> Stepped {
    let b0 = field(v, v.pos);
    if v.l_count == 2 && b0 >= 0x8000 {
        copy_spec(DecView { num_huf: 0, pos: v.pos + 1, ..v }, v.last_dist, v.last_length)
    } else {
        let bfx: u32 = if v.l_count == 2 {
            ((b0 * 2) % 0x10000) as u32
        } else {
            b0
        };
        let p0 = if v.l_count == 2 {
            v.pos + 1
        } else {
            v.pos
        };
        let lc0: u32 = if v.l_count == 2 {
            0
        } else {
            v.l_count
        };
        let code = short_code_from(v.avr_ln1, v.buf60, (bfx / 256) as u8, 0);
        let p = p0 + dec_short_len(v.avr_ln1, v.buf60, code);
        let v1 = DecView { num_huf: 0, pos: p, l_count: lc0, ..v };
        if code == 9 {
            copy_spec(DecView { l_count: (lc0 + 1) as u32, ..v1 }, v.last_dist, v.last_length)
        } else if code == 14 {
            short_far_spec(v1)
        } else if code >= 10 {
            short_old_spec(v1, code)
        } else {
            short_ranked_spec(v1, code)
        }
    }
}

/// The running average of LongLZ lengths after a token of length code
/// `length` at `distance`.
pub open spec fn next_avr_ln3(v: DecView, length: u32, distance: u32) -> u32 {
    if length != 1 && length != 4 {
        if length == 0 && distance <= v.max_dist3 {
            ((v.avr_ln3 + 1) - (v.avr_ln3 + 1) / 256) as u32
        } else if v.avr_ln3 > 0 {
            (v.avr_ln3 - 1) as u32
        } else {
            v.avr_ln3
        }
    } else {
        v.avr_ln3
    }
}

/// Reads a LongLZ token: a length code, a distance place in the LongLZ
/// table, which is promoted, with the distance's low seven bits, the length
/// adjustments for far and near matches, and the new far-match threshold.
/// Gives the state with the match remembered, its distance and its length.
pub open spec fn long_read_spec(v: DecView) -> (DecView, u32, u32) {
    let nl = v.nlzb + 16;
    let lc = long_length_code(v.avr_ln2, field(v, v.pos));
    let p1 = v.pos + lc.1;
    let a2 = v.avr_ln2 + lc.0;
    let pc = decode_num_spec(long_distance_table(v.avr_plc_b), field(v, p1));
    let p2 = p1 + pc.1;
    let ab = v.avr_plc_b + pc.0;
    let idx = (pc.0 % 256) as int;
    let (chb, nplb) = bump_spec(v.ch_set_b, v.n_to_pl_b, idx, false);
    let symbol = v.ch_set_b[idx] >> 8;
    let distance = ((symbol * 256 + field(v, p2) / 256) / 2) as u32;
    let length = (lc.0 + 3 + (if distance >= v.max_dist3 {
        1int
    } else {
        0
    }) + (if distance <= 256 {
        8int
    } else {
        0
    })) as u32;
    let v1 = DecView {
        num_huf: 0,
        nlzb: if nl > 0xff {
            0x90
        } else {
            nl as u32
        },
        nhfb: if nl > 0xff {
            v.nhfb / 2
        } else {
            v.nhfb
        },
        pos: p2 + 7,
        avr_ln2: (a2 - a2 / 32) as u32,
        avr_plc_b: (ab - ab / 256) as u32,
        ch_set_b: chb,
        n_to_pl_b: nplb,
        avr_ln3: next_avr_ln3(v, lc.0, distance),
        max_dist3: if v.avr_ln3 > 0xb0 || (v.avr_plc >= 0x2a00 && v.avr_ln2 < 0x40) {
            0x7f00
        } else {
            0x2001
        },
        ..v
    };
    (remember_spec(v1, distance, length), distance, length)
}

/// Decodes a LongLZ token and copies its match.
pub open spec fn long_spec(v: DecView) -> Stepped {
    let (v1, distance, length) = long_read_spec(v);
    copy_spec(v1, distance, length)
}

/// One decoding step: the flag bits choose a literal, a LongLZ or a ShortLZ
/// token, and the code-choice counters which of the first two is which; in
/// the run mode every step decodes a literal.
#[verifier::opaque]
pub open spec fn step_spec(v: DecView) -> Stepped {
    let v1 = if v.flags_cnt == -2 {
        DecView { flags_cnt: 8, ..flags_spec(v) }
    } else {
        v
    };
    let v2 = DecView {
        first_win_done: v1.first_win_done || v1.prev_ptr > v1.unp_ptr,
        prev_ptr: v1.unp_ptr,
        ..v1
    };
    if v2.st_mode {
        huff_spec(v2)
    } else {
        let v3 = next_flag_spec(v2);
        let v4 = DecView { flag_buf: ((v3.flag_buf * 2) % 256) as u32, ..v3 };
        if v3.flag_buf >= 0x80 {
            if v4.nlzb > v4.nhfb {
                long_spec(v4)
            } else {
                huff_spec(v4)
            }
        } else {
            let v5 = next_flag_spec(v4);
            let v6 = DecView { flag_buf: ((v5.flag_buf * 2) % 256) as u32, ..v5 };
            if v5.flag_buf >= 0x80 {
                if v6.nlzb > v6.nhfb {
                    huff_spec(v6)
                } else {
                    long_spec(v6)
                }
            } else {
                short_spec(v6)
            }
        }
    }
}

/// A decoding outcome with the bytes `b` written before it.
pub open spec fn prefixed(b: Seq<u8>, x: Option<Stepped>) -> Option<Stepped> {
    match x {
        Some(Ok((v, b2))) => Some(Ok((v, b + b2))),
        other => other,
    }
}

/// Bytes written in two stretches are written in one.
pub proof fn lemma_prefixed_twice(a: Seq<u8>, b: Seq<u8>, x: Option<Stepped>)
    ensures
        prefixed(a, prefixed(b, x)) == prefixed(a + b, x),
{
    match x {
        Some(Ok((v, b2))) => {
            assert(a + (b + b2) =~= (a + b) + b2);
        },
        _ => {},
    }
}

/// Decoding steps from `v` until the member is complete: the final state and
/// the bytes written, or the error decoding stopped with. `None` where the
/// read position would come within 128 bits of the largest machine word.
pub open spec fn run_spec(v: DecView) -> Option<Stepped>
    decreases usize::MAX - v.pos,
{
    if v.written >= v.target {
        Some(Ok((v, Seq::empty())))
    } else if v.pos < 0 || v.pos + 128 > usize::MAX {
        None
    } else {
        match step_spec(v) {
            Err(e) => Some(Err(e)),
            Ok((v2, b)) => {
                if v.pos < v2.pos && v2.pos <= usize::MAX {
                    prefixed(b, run_spec(v2))
                } else {
                    None
                }
            },
        }
    }
}

/// The decoder state at the start of a member without history: an empty
/// window, the initial tables and statistics, and the member's input.
pub open spec fn fresh_member(input: Seq<u8>, target: int) -> DecView {
    DecView {
        data: input,
        pos: 0,
        target,
        written: 0,
        window: Seq::new(0x10000, |_i: int| 0u8),
        unp_ptr: 0,
        prev_ptr: 0,
        first_win_done: false,
        ch_set: Seq::new(256, |i: int| (i * 256) as u16),
        ch_set_a: Seq::new(256, |i: int| i as u16),
        ch_set_b: Seq::new(256, |i: int| ((i * 256) as u16 & 0xff00) | (7 - i / 32) as u16),
        ch_set_c: Seq::new(256, |i: int| (((256 - i) % 256) * 256) as u16),
        n_to_pl: Seq::new(256, |_i: int| 0u8),
        n_to_pl_b: corr_places(),
        n_to_pl_c: Seq::new(256, |_i: int| 0u8),
        avr_plc: 0x3500,
        avr_plc_b: 0,
        avr_ln1: 0,
        avr_ln2: 0,
        avr_ln3: 0,
        max_dist3: 0x2001,
        nhfb: 0x80,
        nlzb: 0x80,
        num_huf: 0,
        buf60: 0,
        st_mode: false,
        l_count: 0,
        flag_buf: 0,
        flags_cnt: -2i32,
        old_dist: seq![u32::MAX, u32::MAX, u32::MAX, u32::MAX],
        old_dist_ptr: 0,
        last_dist: u32::MAX,
        last_length: 0,
    }
}

/// The state of a new decoder: an empty window, empty tables, no input.
pub open spec fn new_decoder_view() -> DecView {
    DecView {
        data: Seq::empty(),
        pos: 0,
        target: 0,
        written: 0,
        window: Seq::new(0x10000, |_i: int| 0u8),
        unp_ptr: 0,
        prev_ptr: 0,
        first_win_done: false,
        ch_set: Seq::new(256, |_i: int| 0u16),
        ch_set_a: Seq::new(256, |_i: int| 0u16),
        ch_set_b: Seq::new(256, |_i: int| 0u16),
        ch_set_c: Seq::new(256, |_i: int| 0u16),
        n_to_pl: Seq::new(256, |_i: int| 0u8),
        n_to_pl_b: Seq::new(256, |_i: int| 0u8),
        n_to_pl_c: Seq::new(256, |_i: int| 0u8),
        avr_plc: 0x3500,
        avr_plc_b: 0,
        avr_ln1: 0,
        avr_ln2: 0,
        avr_ln3: 0,
        max_dist3: 0x2001,
        nhfb: 0x80,
        nlzb: 0x80,
        num_huf: 0,
        buf60: 0,
        st_mode: false,
        l_count: 0,
        flag_buf: 0,
        flags_cnt: 0,
        old_dist: seq![u32::MAX, u32::MAX, u32::MAX, u32::MAX],
        old_dist_ptr: 0,
        last_dist: u32::MAX,
        last_length: 0,
    }
}

/// The decoder state at the start of a member of `target` bytes packed as
/// `input`: a solid member keeps the window, tables and statistics of `v`.
pub open spec fn member_start(v: DecView, input: Seq<u8>, target: int, solid: bool) -> DecView {
    if solid {
        DecView {
            data: input,
            pos: 0,
            target,
            written: 0,
            flags_cnt: -2i32,
            flag_buf: 0,
            st_mode: false,
            l_count: 0,
            ..v
        }
    } else {
        fresh_member(input, target)
    }
}

/// Decodes a member of `target` bytes packed as `input` from state `v`.
pub open spec fn member_spec(v: DecView, input: Seq<u8>, target: int, solid: bool) -> Option<
    Stepped,
> {
    run_spec(member_start(v, input, target, solid))
}

/// The bytes that a member without history of `target` bytes decodes to
/// from `input`, or the error decoding stops with.
pub open spec fn unpack15_spec(input: Seq<u8>, target: int) -> Option<Result<Seq<u8>, Error>> {
    match run_spec(fresh_member(input, target)) {
        Some(Ok((_v, b))) => Some(Ok(b)),
        Some(Err(e)) => Some(Err(e)),
        None => None,
    }
}

/// A member without history decodes the same from any earlier state.
pub proof fn lemma_non_solid_ignores_state(v: DecView, w: DecView, input: Seq<u8>, target: int)
    ensures
        member_spec(v, input, target, false) == member_spec(w, input, target, false),
        member_spec(v, input, target, false) == run_spec(fresh_member(input, target)),
{
}

/// A match that does not fit reports exactly that.
pub proof fn lemma_copy_errors()
    ensures
        forall|v: DecView, d: u32, l: u32|
            (#[trigger] copy_spec(v, d, l)) is Err ==> copy_spec(v, d, l) == Err::<
                (DecView, Seq<u8>),
                Error,
            >(Error::InvalidData("RAR 1.3 match exceeds output size")),
{
    reveal(copy_spec);
}

/// A decoding step with the whole input never asks for more of it.
pub proof fn lemma_step_errors(v: DecView)
    ensures
        step_spec(v) matches Err(e) ==> e != Error::NeedMoreInput,
{
    lemma_copy_errors();
    reveal(step_spec);
}

/// Decoding with the whole input never asks for more of it.
pub proof fn lemma_run_errors(v: DecView)
    ensures
        run_spec(v) matches Some(Err(e)) ==> e != Error::NeedMoreInput,
    decreases usize::MAX - v.pos,
{
    if v.written < v.target && 0 <= v.pos && v.pos + 128 <= usize::MAX {
        lemma_step_errors(v);
        match step_spec(v) {
            Ok((v2, b)) => {
                if v.pos < v2.pos && v2.pos <= usize::MAX {
                    lemma_run_errors(v2);
                }
            },
            Err(_) => {},
        }
    }
}

} // verus!
