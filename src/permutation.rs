//! The Keccak-f[1600] permutation on a state of 25 little-endian 64-bit lanes,
//! lane `x + 5 * y` holding the lane at column `x` and row `y`.
use vstd::prelude::*;

verus! {

/// Rotation of a 64-bit lane to the left by `n` bits.
pub open spec fn rotl(x: u64, n: u64) -> u64 {
    if n == 0 || n >= 64 {
        x
    } else {
        (x << n) | (x >> ((64 - n) as u64))
    }
}

/// Parity of column `x`: the exclusive or of the five lanes in it.
pub open spec fn column(s: Seq<u64>, x: int) -> u64 {
    s[x] ^ s[x + 5] ^ s[x + 10] ^ s[x + 15] ^ s[x + 20]
}

/// The theta step: each lane is mixed with the parities of its two neighbouring columns.
pub open spec fn theta_spec(s: Seq<u64>) -> Seq<u64> {
    Seq::new(
        25,
        |i: int| s[i] ^ (column(s, (i % 5 + 4) % 5) ^ rotl(column(s, (i % 5 + 1) % 5), 1)),
    )
}

/// The rotation offset of the rho step for lane `i`.
pub open spec fn rho_offset(i: int) -> u64 {
    if i == 0 {
        0
    } else if i == 1 {
        1
    } else if i == 2 {
        62
    } else if i == 3 {
        28
    } else if i == 4 {
        27
    } else if i == 5 {
        36
    } else if i == 6 {
        44
    } else if i == 7 {
        6
    } else if i == 8 {
        55
    } else if i == 9 {
        20
    } else if i == 10 {
        3
    } else if i == 11 {
        10
    } else if i == 12 {
        43
    } else if i == 13 {
        25
    } else if i == 14 {
        39
    } else if i == 15 {
        41
    } else if i == 16 {
        45
    } else if i == 17 {
        15
    } else if i == 18 {
        21
    } else if i == 19 {
        8
    } else if i == 20 {
        18
    } else if i == 21 {
        2
    } else if i == 22 {
        61
    } else if i == 23 {
        56
    } else {
        14
    }
}

/// The lane that the pi step moves to position `j`: lane `(x, y)` of the result
/// comes from lane `((x + 3 * y) % 5, x)`.
pub open spec fn pi_source(j: int) -> int {
    (j % 5 + 3 * (j / 5)) % 5 + 5 * (j % 5)
}

/// The rho and pi steps: each lane is rotated by its offset and moved.
pub open spec fn rho_pi_spec(s: Seq<u64>) -> Seq<u64> {
    Seq::new(25, |j: int| rotl(s[pi_source(j)], rho_offset(pi_source(j))))
}

/// The chi step: the only non-linear step, applied along each row.
pub open spec fn chi_spec(b: Seq<u64>) -> Seq<u64> {
    Seq::new(
        25,
        |j: int|
            b[j] ^ (!b[(j % 5 + 1) % 5 + 5 * (j / 5)] & b[(j % 5 + 2) % 5 + 5 * (j / 5)]),
    )
}

/// The round constant of round `r`.
pub open spec fn round_constant(r: int) -> u64 {
    if r == 0 {
        0x0000000000000001
    } else if r == 1 {
        0x0000000000008082
    } else if r == 2 {
        0x800000000000808A
    } else if r == 3 {
        0x8000000080008000
    } else if r == 4 {
        0x000000000000808B
    } else if r == 5 {
        0x0000000080000001
    } else if r == 6 {
        0x8000000080008081
    } else if r == 7 {
        0x8000000000008009
    } else if r == 8 {
        0x000000000000008A
    } else if r == 9 {
        0x0000000000000088
    } else if r == 10 {
        0x0000000080008009
    } else if r == 11 {
        0x000000008000000A
    } else if r == 12 {
        0x000000008000808B
    } else if r == 13 {
        0x800000000000008B
    } else if r == 14 {
        0x8000000000008089
    } else if r == 15 {
        0x8000000000008003
    } else if r == 16 {
        0x8000000000008002
    } else if r == 17 {
        0x8000000000000080
    } else if r == 18 {
        0x000000000000800A
    } else if r == 19 {
        0x800000008000000A
    } else if r == 20 {
        0x8000000080008081
    } else if r == 21 {
        0x8000000000008080
    } else if r == 22 {
        0x0000000080000001
    } else {
        0x8000000080008008
    }
}

/// The iota step: the round constant enters lane 0.
pub open spec fn iota_spec(s: Seq<u64>, r: int) -> Seq<u64> {
    s.update(0, s[0] ^ round_constant(r))
}

/// One round of Keccak-f[1600].
pub open spec fn round_spec(s: Seq<u64>, r: int) -> Seq<u64> {
    iota_spec(chi_spec(rho_pi_spec(theta_spec(s))), r)
}

/// The first `n` rounds applied to `s`.
pub open spec fn rounds_spec(s: Seq<u64>, n: nat) -> Seq<u64>
    decreases n,
{
    if n == 0 {
        s
    } else {
        round_spec(rounds_spec(s, (n - 1) as nat), n - 1)
    }
}

/// Keccak-f[1600]: all 24 rounds.
#[verifier::opaque]
pub open spec fn keccak_f_spec(s: Seq<u64>) -> Seq<u64> {
    rounds_spec(s, 24)
}

/// Every round keeps the 25 lanes.
pub proof fn lemma_rounds_len(s: Seq<u64>, n: nat)
    requires
        s.len() == 25,
    ensures
        rounds_spec(s, n).len() == 25,
    decreases n,
{
    if n > 0 {
        lemma_rounds_len(s, (n - 1) as nat);
    }
}

/// The permutation keeps the 25 lanes.
pub proof fn lemma_keccak_f_len(s: Seq<u64>)
    requires
        s.len() == 25,
    ensures
        keccak_f_spec(s).len() == 25,
{
    reveal(keccak_f_spec);
    lemma_rounds_len(s, 24);
}

fn rotate_left(x: u64, n: u64) -> (r: u64)
    requires
        n < 64,
    ensures
        r == rotl(x, n),
{
    if n == 0 {
        x
    } else {
        (x << n) | (x >> (64 - n))
    }
}

/// Executable form of [`rho_offset`].
fn rho_offset_at(i: usize) -> (r: u64)
    requires
        i < 25,
    ensures
        r == rho_offset(i as int),
{
    if i == 0 {
        0
    } else if i == 1 {
        1
    } else if i == 2 {
        62
    } else if i == 3 {
        28
    } else if i == 4 {
        27
    } else if i == 5 {
        36
    } else if i == 6 {
        44
    } else if i == 7 {
        6
    } else if i == 8 {
        55
    } else if i == 9 {
        20
    } else if i == 10 {
        3
    } else if i == 11 {
        10
    } else if i == 12 {
        43
    } else if i == 13 {
        25
    } else if i == 14 {
        39
    } else if i == 15 {
        41
    } else if i == 16 {
        45
    } else if i == 17 {
        15
    } else if i == 18 {
        21
    } else if i == 19 {
        8
    } else if i == 20 {
        18
    } else if i == 21 {
        2
    } else if i == 22 {
        61
    } else if i == 23 {
        56
    } else {
        14
    }
}

/// Executable form of [`round_constant`].
fn round_constant_at(r: usize) -> (c: u64)
    requires
        r < 24,
    ensures
        c == round_constant(r as int),
{
    if r == 0 {
        0x0000000000000001
    } else if r == 1 {
        0x0000000000008082
    } else if r == 2 {
        0x800000000000808A
    } else if r == 3 {
        0x8000000080008000
    } else if r == 4 {
        0x000000000000808B
    } else if r == 5 {
        0x0000000080000001
    } else if r == 6 {
        0x8000000080008081
    } else if r == 7 {
        0x8000000000008009
    } else if r == 8 {
        0x000000000000008A
    } else if r == 9 {
        0x0000000000000088
    } else if r == 10 {
        0x0000000080008009
    } else if r == 11 {
        0x000000008000000A
    } else if r == 12 {
        0x000000008000808B
    } else if r == 13 {
        0x800000000000008B
    } else if r == 14 {
        0x8000000000008089
    } else if r == 15 {
        0x8000000000008003
    } else if r == 16 {
        0x8000000000008002
    } else if r == 17 {
        0x8000000000000080
    } else if r == 18 {
        0x000000000000800A
    } else if r == 19 {
        0x800000008000000A
    } else if r == 20 {
        0x8000000080008081
    } else if r == 21 {
        0x8000000000008080
    } else if r == 22 {
        0x0000000080000001
    } else {
        0x8000000080008008
    }
}

fn theta(s: &Vec<u64>) -> (r: Vec<u64>)
    requires
        s@.len() == 25,
    ensures
        r@ == theta_spec(s@),
{
    let mut c: Vec<u64> = Vec::new();
    let mut x: usize = 0;
    while x < 5
        invariant
            x <= 5,
            s@.len() == 25,
            c@.len() == x,
            forall|k: int| 0 <= k < x ==> c@[k] == column(s@, k),
        decreases 5 - x,
    {
        c.push(s[x] ^ s[x + 5] ^ s[x + 10] ^ s[x + 15] ^ s[x + 20]);
        x = x + 1;
    }
    let mut r: Vec<u64> = Vec::new();
    let mut i: usize = 0;
    while i < 25
        invariant
            i <= 25,
            s@.len() == 25,
            c@.len() == 5,
            forall|k: int| 0 <= k < 5 ==> c@[k] == column(s@, k),
            r@.len() == i,
            forall|k: int| 0 <= k < i ==> r@[k] == theta_spec(s@)[k],
        decreases 25 - i,
    {
        let x = i % 5;
        let d = c[(x + 4) % 5] ^ rotate_left(c[(x + 1) % 5], 1);
        r.push(s[i] ^ d);
        i = i + 1;
    }
    assert(r@ =~= theta_spec(s@));
    r
}

fn rho_pi(s: &Vec<u64>) -> (r: Vec<u64>)
    requires
        s@.len() == 25,
    ensures
        r@ == rho_pi_spec(s@),
{
    let mut r: Vec<u64> = Vec::new();
    let mut j: usize = 0;
    while j < 25
        invariant
            j <= 25,
            s@.len() == 25,
            r@.len() == j,
            forall|k: int| 0 <= k < j ==> r@[k] == rho_pi_spec(s@)[k],
        decreases 25 - j,
    {
        let src = (j % 5 + 3 * (j / 5)) % 5 + 5 * (j % 5);
        r.push(rotate_left(s[src], rho_offset_at(src)));
        j = j + 1;
    }
    assert(r@ =~= rho_pi_spec(s@));
    r
}

fn chi(b: &Vec<u64>) -> (r: Vec<u64>)
    requires
        b@.len() == 25,
    ensures
        r@ == chi_spec(b@),
{
    let mut r: Vec<u64> = Vec::new();
    let mut j: usize = 0;
    while j < 25
        invariant
            j <= 25,
            b@.len() == 25,
            r@.len() == j,
            forall|k: int| 0 <= k < j ==> r@[k] == chi_spec(b@)[k],
        decreases 25 - j,
    {
        let row = 5 * (j / 5);
        let x = j % 5;
        r.push(b[j] ^ (!b[(x + 1) % 5 + row] & b[(x + 2) % 5 + row]));
        j = j + 1;
    }
    assert(r@ =~= chi_spec(b@));
    r
}

/// Applies Keccak-f[1600] to a state of 25 lanes.
pub fn keccak_f(s: &Vec<u64>) -> (r: Vec<u64>)
    requires
        s@.len() == 25,
    ensures
        r@ == keccak_f_spec(s@),
        r@.len() == 25,
{
    let mut st: Vec<u64> = s.clone();
    assert(st@ =~= rounds_spec(s@, 0));
    let mut round: usize = 0;
    while round < 24
        invariant
            round <= 24,
            st@ == rounds_spec(s@, round as nat),
            st@.len() == 25,
        decreases 24 - round,
    {
        let mut next = chi(&rho_pi(&theta(&st)));
        let lane0 = next[0] ^ round_constant_at(round);
        next.set(0, lane0);
        assert(next@ =~= round_spec(st@, round as int));
        st = next;
        round = round + 1;
    }
    proof {
        reveal(keccak_f_spec);
    }
    st
}

} // verus!
