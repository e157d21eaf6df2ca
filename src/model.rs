//! The mathematical model of Keccak-256: bytes grouped into little-endian lanes,
//! the multi-rate padding, the sponge that absorbs lane by lane, and the digest.
use vstd::prelude::*;

use crate::permutation::{keccak_f_spec, lemma_keccak_f_len};

verus! {

/// Bytes in one rate block of Keccak-256.
pub const RATE_BYTES: u64 = 136;

/// Lanes in one rate block of Keccak-256.
pub const RATE_LANES: u64 = 17;

/// The lane whose little-endian bytes are `bs` (at most eight), the missing
/// high bytes being zero.
#[verifier::opaque]
pub open spec fn le_lane(bs: Seq<u8>) -> u64
    decreases bs.len(),
{
    if bs.len() == 0 {
        0
    } else {
        le_lane(bs.drop_last()) | ((bs.last() as u64) << ((8 * (bs.len() - 1)) as u64))
    }
}

/// The bytes grouped eight by eight into little-endian lanes; a shorter last
/// group is completed with zero bytes.
#[verifier::opaque]
pub open spec fn lanes_of(bs: Seq<u8>) -> Seq<u64> {
    Seq::new(
        ((bs.len() + 7) / 8) as nat,
        |i: int|
            le_lane(
                bs.subrange(8 * i, if 8 * i + 8 <= bs.len() {
                    8 * i + 8
                } else {
                    bs.len() as int
                }),
            ),
    )
}

/// Byte `k` (0 is the least significant) of lane `x`.
pub open spec fn lane_byte(x: u64, k: int) -> u8 {
    ((x >> ((8 * k) as u64)) & 0xff) as u8
}

/// The lanes written out one after the other, each in little-endian order.
pub open spec fn le_bytes(lanes: Seq<u64>) -> Seq<u8> {
    Seq::new(8 * lanes.len(), |i: int| lane_byte(lanes[i / 8], i % 8))
}

/// The message followed by the multi-rate padding `0x01 0x00 .. 0x00 0x80` that
/// completes its last rate block; where a single byte is left, it is `0x81`.
pub open spec fn pad(msg: Seq<u8>) -> Seq<u8> {
    let k = RATE_BYTES - msg.len() % (RATE_BYTES as nat);
    if k == 1 {
        msg.push(0x81)
    } else {
        msg.push(0x01) + Seq::new((k - 2) as nat, |i: int| 0u8) + seq![0x80u8]
    }
}

/// The all-zero state of 25 lanes.
pub open spec fn zero_state() -> Seq<u64> {
    Seq::new(25, |i: int| 0u64)
}

/// Lane `lane` enters the state at position `j` of the rate block; after the
/// last lane of a block the state is permuted.
pub open spec fn absorb_lane_spec(s: Seq<u64>, j: int, lane: u64) -> Seq<u64> {
    let t = s.update(j, s[j] ^ lane);
    if j == RATE_LANES - 1 {
        keccak_f_spec(t)
    } else {
        t
    }
}

/// The state after the sponge has absorbed `lanes`, from state `s`, block by block.
#[verifier::opaque]
pub open spec fn sponge_absorb(s: Seq<u64>, lanes: Seq<u64>) -> Seq<u64>
    decreases lanes.len(),
{
    if lanes.len() == 0 {
        s
    } else {
        absorb_lane_spec(
            sponge_absorb(s, lanes.drop_last()),
            (lanes.len() - 1) % (RATE_LANES as int),
            lanes.last(),
        )
    }
}

/// The 32 bytes squeezed from a permuted state: its first four lanes.
pub open spec fn squeeze(s: Seq<u64>) -> Seq<u8> {
    le_bytes(s.subrange(0, 4))
}

/// Keccak-256 of `msg`.
pub open spec fn keccak256_spec(msg: Seq<u8>) -> Seq<u8> {
    squeeze(sponge_absorb(zero_state(), lanes_of(pad(msg))))
}

/// Placing a byte above the bytes already in a lane.
pub proof fn lemma_place_byte(acc: u64, v: u64, f: u64)
    requires
        f < 8,
        v < 256,
        acc >> ((8 * f) as u64) == 0,
    ensures
        f < 7 ==> (acc | (v << ((8 * f) as u64))) >> ((8 * (f + 1)) as u64) == 0,
{
    assert(f < 7 ==> (acc | (v << ((8 * f) as u64))) >> ((8 * (f + 1)) as u64) == 0)
        by (bit_vector)
        requires
            f < 8,
            v < 256,
            acc >> ((8 * f) as u64) == 0,
    ;
}

/// A lane of fewer than eight bytes leaves its high bytes zero.
pub proof fn lemma_le_lane_high_zero(bs: Seq<u8>)
    requires
        bs.len() < 8,
    ensures
        le_lane(bs) >> ((8 * bs.len()) as u64) == 0,
    decreases bs.len(),
{
    reveal(le_lane);
    if bs.len() > 0 {
        let f = (bs.len() - 1) as u64;
        lemma_le_lane_high_zero(bs.drop_last());
        lemma_place_byte(le_lane(bs.drop_last()), bs.last() as u64, f);
    } else {
        assert(0u64 >> 0u64 == 0) by (bit_vector);
    }
}

/// Grouping bytes into lanes: the bytes after the last multiple of eight form
/// the last lane.
pub proof fn lemma_lanes_of_extend(bs: Seq<u8>, full: int)
    requires
        0 <= full < bs.len() <= full + 8,
        full % 8 == 0,
    ensures
        lanes_of(bs) == lanes_of(bs.subrange(0, full)).push(
            le_lane(bs.subrange(full, bs.len() as int)),
        ),
{
    reveal(lanes_of);
    let pre = bs.subrange(0, full);
    assert forall|i: int| 0 <= i < lanes_of(pre).len() implies lanes_of(bs)[i] == lanes_of(
        pre,
    )[i] by {
        assert(pre.subrange(8 * i, 8 * i + 8) =~= bs.subrange(8 * i, 8 * i + 8));
    }
    assert(lanes_of(bs) =~= lanes_of(pre).push(le_lane(bs.subrange(full, bs.len() as int))));
}

/// The sponge state keeps its 25 lanes.
pub proof fn lemma_sponge_absorb_len(s: Seq<u64>, lanes: Seq<u64>)
    requires
        s.len() == 25,
    ensures
        sponge_absorb(s, lanes).len() == 25,
    decreases lanes.len(),
{
    reveal(sponge_absorb);
    if lanes.len() > 0 {
        let prev = sponge_absorb(s, lanes.drop_last());
        let j = (lanes.len() - 1) % (RATE_LANES as int);
        lemma_sponge_absorb_len(s, lanes.drop_last());
        lemma_keccak_f_len(prev.update(j, prev[j] ^ lanes.last()));
    }
}

/// Padding completes the last rate block: it adds between one and a whole
/// block of bytes after the message, ends in a byte with its top bit set, and
/// is the single byte `0x81` exactly when one byte is short of a block.
pub proof fn lemma_pad_whole_blocks(msg: Seq<u8>)
    ensures
        pad(msg).len() % (RATE_BYTES as nat) == 0,
        msg.len() < pad(msg).len() <= msg.len() + RATE_BYTES,
        pad(msg).subrange(0, msg.len() as int) == msg,
        pad(msg).last() & 0x80 == 0x80,
        (msg.len() % (RATE_BYTES as nat) == RATE_BYTES - 1) == (pad(msg) == msg.push(0x81)),
{
    let k = RATE_BYTES - msg.len() % (RATE_BYTES as nat);
    assert(pad(msg).subrange(0, msg.len() as int) =~= msg);
    assert(0x81u8 & 0x80 == 0x80) by (bit_vector);
    assert(0x80u8 & 0x80 == 0x80) by (bit_vector);
    if k != 1 {
        assert(pad(msg)[msg.len() as int] == 0x01);
        assert(msg.push(0x81)[msg.len() as int] == 0x81);
    }
}

/// A byte appended to a lane of fewer than eight bytes lands above the others.
pub proof fn lemma_le_lane_push(bs: Seq<u8>, v: u8)
    ensures
        le_lane(bs.push(v)) == le_lane(bs) | ((v as u64) << ((8 * bs.len()) as u64)),
        le_lane(Seq::<u8>::empty()) == 0,
{
    reveal(le_lane);
    assert(bs.push(v).drop_last() =~= bs);
}

/// The number of lanes that `bs` is grouped into.
pub proof fn lemma_lanes_of_len(bs: Seq<u8>)
    ensures
        lanes_of(bs).len() == (bs.len() + 7) / 8,
{
    reveal(lanes_of);
}

/// The sponge absorbs lanes one at a time, at their position in the block.
pub proof fn lemma_sponge_absorb_push(s: Seq<u64>, lanes: Seq<u64>, x: u64)
    ensures
        sponge_absorb(s, lanes.push(x)) == absorb_lane_spec(
            sponge_absorb(s, lanes),
            (lanes.len() as int) % (RATE_LANES as int),
            x,
        ),
        sponge_absorb(s, Seq::<u64>::empty()) == s,
{
    reveal(sponge_absorb);
    assert(lanes.push(x).drop_last() =~= lanes);
}

} // verus!
