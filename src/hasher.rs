//! The streaming adapter: bytes are gathered into little-endian lanes, lanes
//! into rate blocks, and each full block is permuted.
use vstd::prelude::*;

use crate::model::{
    absorb_lane_spec, keccak256_spec, lane_byte, lanes_of, le_bytes, le_lane, lemma_lanes_of_extend,
    lemma_lanes_of_len, lemma_le_lane_high_zero, lemma_le_lane_push, lemma_place_byte,
    lemma_sponge_absorb_len, lemma_sponge_absorb_push, pad, sponge_absorb, zero_state, RATE_BYTES,
    RATE_LANES,
};
use crate::permutation::{keccak_f, lemma_keccak_f_len};

verus! {

/// A Keccak-256 computation in progress.
pub struct KeccakHasher {
    /// The lane being assembled, little-endian.
    lane_accumulator: u64,
    /// Bytes already placed in `lane_accumulator`.
    lane_fill: u64,
    /// Full lanes already absorbed in the current rate block.
    lanes_in_block: u64,
    /// The 25 lanes of the sponge state.
    state: Vec<u64>,
    /// Every byte absorbed so far.
    absorbed: Ghost<Seq<u8>>,
}

impl View for KeccakHasher {
    type V = Seq<u8>;

    /// The bytes absorbed so far.
    closed spec fn view(&self) -> Seq<u8> {
        self.absorbed@
    }
}

/// The counters, the lane being assembled and the sponge state agree with
/// the bytes `msg` absorbed so far.
#[verifier::opaque]
spec fn adapter_inv(
    msg: Seq<u8>,
    fill: u64,
    lanes: u64,
    acc: u64,
    state: Seq<u64>,
) -> bool {
    let full = msg.len() - fill;
    &&& state.len() == 25
    &&& fill < 8
    &&& lanes < RATE_LANES
    &&& msg.len() % (RATE_BYTES as nat) == 8 * lanes + fill
    &&& full % 8 == 0
    &&& full >= 0
    &&& lanes_of(msg.subrange(0, full)).len() % (RATE_LANES as nat) == lanes
    &&& state == sponge_absorb(zero_state(), lanes_of(msg.subrange(0, full)))
    &&& acc == le_lane(msg.subrange(full, msg.len() as int))
}

/// A byte that does not complete its lane.
proof fn lemma_inv_partial(msg: Seq<u8>, fill: u64, lanes: u64, acc: u64, state: Seq<u64>, v: u8)
    requires
        adapter_inv(msg, fill, lanes, acc, state),
        fill < 7,
    ensures
        adapter_inv(
            msg.push(v),
            (fill + 1) as u64,
            lanes,
            acc | ((v as u64) << ((8 * fill) as u64)),
            state,
        ),
{
    reveal(adapter_inv);
    let full = msg.len() - fill;
    let m2 = msg.push(v);
    lemma_le_lane_push(msg.subrange(full, msg.len() as int), v);
    assert(m2.subrange(0, full) =~= msg.subrange(0, full));
    assert(m2.subrange(full, m2.len() as int) =~= msg.subrange(full, msg.len() as int).push(v));
}

/// A byte that completes its lane: the lane enters the sponge.
proof fn lemma_inv_lane(msg: Seq<u8>, lanes: u64, acc: u64, state: Seq<u64>, v: u8)
    requires
        adapter_inv(msg, 7, lanes, acc, state),
    ensures
        adapter_inv(
            msg.push(v),
            0,
            ((lanes + 1) % (RATE_LANES as int)) as u64,
            0,
            absorb_lane_spec(state, lanes as int, acc | ((v as u64) << 56u64)),
        ),
{
    reveal(adapter_inv);
    let full = msg.len() - 7;
    let m2 = msg.push(v);
    let lanes_seq = lanes_of(msg.subrange(0, full));
    let lane = acc | ((v as u64) << 56u64);
    lemma_le_lane_push(msg.subrange(full, msg.len() as int), v);
    assert(m2.subrange(full, m2.len() as int) =~= msg.subrange(full, msg.len() as int).push(v));
    lemma_lanes_of_extend(m2, full);
    assert(m2.subrange(0, full) =~= msg.subrange(0, full));
    assert(m2.subrange(0, m2.len() as int) =~= m2);
    assert(lanes_of(m2) == lanes_seq.push(lane));
    lemma_lanes_of_len(msg.subrange(0, full));
    lemma_lanes_of_len(m2);
    lemma_sponge_absorb_push(zero_state(), lanes_seq, lane);
    assert(m2.subrange(m2.len() as int, m2.len() as int) =~= Seq::<u8>::empty());
    lemma_le_lane_push(Seq::<u8>::empty(), 0);
    lemma_keccak_f_len(state.update(lanes as int, state[lanes as int] ^ lane));
}

impl KeccakHasher {
    /// The counters and the state agree with the bytes absorbed so far.
    pub closed spec fn wf(&self) -> bool {
        adapter_inv(
            self.absorbed@,
            self.lane_fill,
            self.lanes_in_block,
            self.lane_accumulator,
            self.state@,
        )
    }

    /// A hasher that has absorbed nothing.
    pub fn new() -> (r: Self)
        ensures
            r.wf(),
            r@ == Seq::<u8>::empty(),
    {
        let mut state: Vec<u64> = Vec::new();
        let mut i: usize = 0;
        while i < 25
            invariant
                i <= 25,
                state@ == Seq::new(i as nat, |k: int| 0u64),
            decreases 25 - i,
        {
            state.push(0);
            i = i + 1;
            assert(state@ =~= Seq::new(i as nat, |k: int| 0u64));
        }
        let r = KeccakHasher {
            lane_accumulator: 0,
            lane_fill: 0,
            lanes_in_block: 0,
            state,
            absorbed: Ghost(Seq::empty()),
        };
        proof {
            reveal(adapter_inv);
            assert(r.absorbed@.subrange(0, 0) =~= Seq::<u8>::empty());
            lemma_lanes_of_len(Seq::<u8>::empty());
            lemma_le_lane_push(Seq::<u8>::empty(), 0);
            lemma_sponge_absorb_push(zero_state(), Seq::<u64>::empty(), 0);
            assert(lanes_of(Seq::<u8>::empty()) =~= Seq::<u64>::empty());
        }
        r
    }

    /// Absorbs one full lane at the current position of the rate block, and
    /// permutes the state when the block is complete.
    fn absorb_lane(&mut self, lane: u64)
        requires
            old(self).state@.len() == 25,
            old(self).lanes_in_block < RATE_LANES,
        ensures
            final(self).state@ == absorb_lane_spec(
                old(self).state@,
                old(self).lanes_in_block as int,
                lane,
            ),
            final(self).state@.len() == 25,
            final(self).lanes_in_block == (old(self).lanes_in_block + 1) % (RATE_LANES as int),
            final(self).lane_accumulator == old(self).lane_accumulator,
            final(self).lane_fill == old(self).lane_fill,
            final(self).absorbed == old(self).absorbed,
    {
        let j = self.lanes_in_block as usize;
        let mixed = self.state[j] ^ lane;
        self.state.set(j, mixed);
        self.lanes_in_block = self.lanes_in_block + 1;
        if self.lanes_in_block == RATE_LANES {
            self.state = keccak_f(&self.state);
            self.lanes_in_block = 0;
        }
    }

    /// Absorbs one byte of the message.
    pub fn update_byte(&mut self, v: u8)
        requires
            old(self).wf(),
        ensures
            final(self).wf(),
            final(self)@ == old(self)@.push(v),
    {
        let ghost msg = self.absorbed@;
        proof {
            reveal(adapter_inv);
            lemma_le_lane_high_zero(msg.subrange(msg.len() - self.lane_fill, msg.len() as int));
            lemma_place_byte(self.lane_accumulator, v as u64, self.lane_fill);
            if self.lane_fill < 7 {
                lemma_inv_partial(
                    msg,
                    self.lane_fill,
                    self.lanes_in_block,
                    self.lane_accumulator,
                    self.state@,
                    v,
                );
            } else {
                lemma_inv_lane(msg, self.lanes_in_block, self.lane_accumulator, self.state@, v);
            }
        }
        self.lane_accumulator = self.lane_accumulator | ((v as u64) << (self.lane_fill * 8));
        self.lane_fill = self.lane_fill + 1;
        self.absorbed = Ghost(msg.push(v));
        if self.lane_fill == 8 {
            self.absorb_lane(self.lane_accumulator);
            self.lane_accumulator = 0;
            self.lane_fill = 0;
        }
    }

    /// Pads the message absorbed so far and returns its 32-byte digest.
    pub fn finalize(self) -> (r: Vec<u8>)
        requires
            self.wf(),
        ensures
            r@ == keccak256_spec(self@),
            r@.len() == 32,
    {
        let ghost msg = self@;
        let mut h = self;
        proof {
            reveal(adapter_inv);
        }
        let bytes_to_pad = RATE_BYTES - h.lane_fill - h.lanes_in_block * 8;
        let ghost last: Seq<u8>;
        let ghost marker: u8;
        if bytes_to_pad == 1 {
            proof {
                last = msg;
                marker = 0x81;
            }
        } else {
            h.update_byte(1);
            let mut i: u64 = 0;
            while i < bytes_to_pad - 2
                invariant
                    2 <= bytes_to_pad <= RATE_BYTES,
                    i <= bytes_to_pad - 2,
                    msg.len() % (RATE_BYTES as nat) == RATE_BYTES - bytes_to_pad,
                    h.wf(),
                    h@ == msg.push(1) + Seq::new(i as nat, |k: int| 0u8),
                decreases bytes_to_pad - 2 - i,
            {
                h.update_byte(0);
                i = i + 1;
                assert(h@ =~= msg.push(1) + Seq::new(i as nat, |k: int| 0u8));
            }
            proof {
                last = h@;
                marker = 0x80;
            }
        }
        proof {
            assert(pad(msg) =~= last.push(marker));
            assert(h.wf() && h@ == last);
            reveal(adapter_inv);
            assert(h.lane_fill == 7 && h.lanes_in_block == RATE_LANES - 1);
            lemma_inv_lane(last, h.lanes_in_block, h.lane_accumulator, h.state@, marker);
            let padded = last.push(marker);
            assert(padded.subrange(0, padded.len() as int) =~= padded);
        }
        let marker_bits: u64 = if bytes_to_pad == 1 {
            0x81u64 << 56
        } else {
            0x80u64 << 56
        };
        h.absorb_lane(h.lane_accumulator | marker_bits);
        let mut lanes: Vec<u64> = Vec::new();
        let mut i: usize = 0;
        while i < 4
            invariant
                i <= 4,
                h.state@.len() == 25,
                lanes@ == h.state@.subrange(0, i as int),
            decreases 4 - i,
        {
            lanes.push(h.state[i]);
            i = i + 1;
            assert(lanes@ =~= h.state@.subrange(0, i as int));
        }
        u64_vec_to_u8_vec(lanes)
    }
}

/// Writes the lanes out one after the other, each in little-endian byte order.
pub fn u64_vec_to_u8_vec(input: Vec<u64>) -> (r: Vec<u8>)
    ensures
        r@ == le_bytes(input@),
{
    let mut output: Vec<u8> = Vec::new();
    let mut i: usize = 0;
    while i < input.len()
        invariant
            i <= input@.len(),
            output@ == le_bytes(input@.subrange(0, i as int)),
        decreases input@.len() - i,
    {
        let num = input[i];
        let ghost before = output@;
        let mut k: u64 = 0;
        while k < 8
            invariant
                k <= 8,
                output@ == before + Seq::new(k as nat, |j: int| lane_byte(num, j)),
            decreases 8 - k,
        {
            output.push(((num >> (k * 8)) & 0xff) as u8);
            k = k + 1;
            assert(output@ =~= before + Seq::new(k as nat, |j: int| lane_byte(num, j)));
        }
        proof {
            let a = input@.subrange(0, i as int);
            let b = input@.subrange(0, i + 1);
            assert forall|j: int| 0 <= j < 8 * b.len() implies #[trigger] le_bytes(b)[j] == (
            le_bytes(a) + Seq::new(8, |j: int| lane_byte(num, j)))[j] by {
                if j < 8 * a.len() {
                    assert(j / 8 < a.len());
                    assert(b[j / 8] == a[j / 8]);
                } else {
                    assert(j / 8 == i);
                }
            }
            assert(le_bytes(b) =~= le_bytes(a) + Seq::new(8, |j: int| lane_byte(num, j)));
        }
        i = i + 1;
    }
    assert(input@.subrange(0, input@.len() as int) =~= input@);
    output
}

/// Groups bytes eight by eight into little-endian lanes; a shorter last group
/// is completed with zero bytes.
pub fn u8_vec_to_u64_vec(input: Vec<u8>) -> (r: Vec<u64>)
    ensures
        r@ == lanes_of(input@),
{
    let mut output: Vec<u64> = Vec::new();
    let mut acc: u64 = 0;
    let mut fill: u64 = 0;
    let mut i: usize = 0;
    proof {
        lemma_le_lane_push(Seq::<u8>::empty(), 0);
        lemma_lanes_of_len(Seq::<u8>::empty());
        assert(input@.subrange(0, 0) =~= Seq::<u8>::empty());
        assert(lanes_of(Seq::<u8>::empty()) =~= Seq::<u64>::empty());
    }
    while i < input.len()
        invariant
            i <= input@.len(),
            fill < 8,
            fill <= i,
            (i - fill) % 8 == 0,
            output@ == lanes_of(input@.subrange(0, i - fill)),
            acc == le_lane(input@.subrange(i - fill, i as int)),
        decreases input@.len() - i,
    {
        let ghost full = i - fill;
        let v = input[i];
        proof {
            lemma_le_lane_high_zero(input@.subrange(full, i as int));
            lemma_place_byte(acc, v as u64, fill);
            lemma_le_lane_push(input@.subrange(full, i as int), v);
            assert(input@.subrange(full, i + 1) =~= input@.subrange(full, i as int).push(v));
        }
        acc = acc | ((v as u64) << (fill * 8));
        fill = fill + 1;
        i = i + 1;
        if fill == 8 {
            proof {
                let bs = input@.subrange(0, i as int);
                lemma_lanes_of_extend(bs, full);
                assert(bs.subrange(0, full) =~= input@.subrange(0, full));
                assert(bs.subrange(full, i as int) =~= input@.subrange(full, i as int));
                lemma_le_lane_push(Seq::<u8>::empty(), 0);
                assert(input@.subrange(i as int, i as int) =~= Seq::<u8>::empty());
            }
            output.push(acc);
            acc = 0;
            fill = 0;
        }
    }
    if fill > 0 {
        proof {
            let full = i - fill;
            lemma_lanes_of_extend(input@, full);
            assert(input@.subrange(0, i as int) =~= input@);
        }
        output.push(acc);
    } else {
        assert(input@.subrange(0, i as int) =~= input@);
    }
    output
}

/// Keccak-256 of `input`: a fresh hasher absorbs every byte in order and is
/// then finalized.
pub fn keccak256(input: &Vec<u8>) -> (r: Vec<u8>)
    ensures
        r@ == keccak256_spec(input@),
        r@.len() == 32,
{
    let mut hasher = KeccakHasher::new();
    let mut i: usize = 0;
    while i < input.len()
        invariant
            i <= input@.len(),
            hasher.wf(),
            hasher@ == input@.subrange(0, i as int),
        decreases input@.len() - i,
    {
        hasher.update_byte(input[i]);
        i = i + 1;
        assert(hasher@ =~= input@.subrange(0, i as int));
    }
    assert(input@.subrange(0, i as int) =~= input@);
    hasher.finalize()
}

/// Whether the Keccak-256 digest of `input` begins with the bytes `output`.
pub fn keccak256check(input: &Vec<u8>, output: &Vec<u8>) -> (r: bool)
    requires
        output@.len() <= 32,
    ensures
        r == (forall|i: int| 0 <= i < output@.len() ==> keccak256_spec(input@)[i] == output@[i]),
{
    let result = keccak256(input);
    let mut i: usize = 0;
    while i < output.len()
        invariant
            output@.len() <= 32,
            result@ == keccak256_spec(input@),
            result@.len() == 32,
            i <= output@.len(),
            forall|k: int| 0 <= k < i ==> keccak256_spec(input@)[k] == output@[k],
        decreases output@.len() - i,
    {
        if result[i] != output[i] {
            return false;
        }
        i = i + 1;
    }
    true
}

/// The digest of every message is 32 bytes long.
pub proof fn lemma_digest_len(msg: Seq<u8>)
    ensures
        keccak256_spec(msg).len() == 32,
{
    lemma_sponge_absorb_len(zero_state(), lanes_of(pad(msg)));
}

/// The digest depends on the message alone: equal messages have equal digests.
pub proof fn lemma_digest_deterministic(a: Seq<u8>, b: Seq<u8>)
    requires
        a == b,
    ensures
        keccak256_spec(a) == keccak256_spec(b),
{
}

} // verus!
