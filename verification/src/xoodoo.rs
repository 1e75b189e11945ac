//! The Xoodoo permutation on twelve 32-bit lanes.
//!
//! A state is a sequence of twelve lanes, read as three planes of four lanes
//! each: lane `x` of plane `y` is the word at index `4 * y + x`.

use vstd::prelude::*;

verus! {

/// Largest number of rounds the permutation can be asked for.
pub const MAX_ROUNDS: usize = 12;

/// The round constants, in the order in which a full twelve-round
/// permutation uses them.
pub const RC: [u32; 12] = [
    0x00000058, 0x00000038, 0x000003c0, 0x000000d0, 0x00000120, 0x00000014,
    0x00000060, 0x0000002c, 0x00000380, 0x000000f0, 0x000001a0, 0x00000012,
];

/// The constant of round `i` of the full permutation.
pub open spec fn round_constant(i: int) -> u32
    recommends
        0 <= i < 12,
{
    RC[i]
}

/// `x` rotated left by `n` bit positions, the amount taken modulo 32.
pub open spec fn rotl(x: u32, n: u32) -> u32 {
    let r = n % 32;
    if r == 0 {
        x
    } else {
        (x << r) | (x >> ((32 - r) as u32))
    }
}

/// Rotates `x` left by `n` bit positions, the amount taken modulo 32.
pub fn rotate_left(x: u32, n: u32) -> (r: u32)
    ensures
        r == rotl(x, n),
{
    let k: u32 = n % 32;
    if k == 0 {
        x
    } else {
        (x << k) | (x >> (32 - k))
    }
}

/// The parity of column `x`: the three lanes at position `x`, one of each
/// plane, added bitwise.
pub open spec fn column_parity(s: Seq<u32>, x: int) -> u32 {
    s[x] ^ s[4 + x] ^ s[8 + x]
}

/// What the mixing layer adds to every lane at position `x`: the parity of
/// the column to its left, rotated by 5 and by 14 bits.
pub open spec fn theta_effect(s: Seq<u32>, x: int) -> u32 {
    let p = column_parity(s, (x + 3) % 4);
    rotl(p, 5) ^ rotl(p, 14)
}

/// The mixing layer: every lane takes up the effect of its column.
pub open spec fn theta(s: Seq<u32>) -> Seq<u32> {
    Seq::new(12, |i: int| s[i] ^ theta_effect(s, i % 4))
}

/// The first plane shift: plane 1 moves one lane to the right, the lanes of
/// plane 2 rotate by 11 bits.
pub open spec fn rho_west(s: Seq<u32>) -> Seq<u32> {
    Seq::new(
        12,
        |i: int|
            if i < 4 {
                s[i]
            } else if i < 8 {
                s[4 + (i + 3) % 4]
            } else {
                rotl(s[i], 11)
            },
    )
}

/// The round constant goes into lane 0 of plane 0.
pub open spec fn iota(s: Seq<u32>, rc: u32) -> Seq<u32> {
    s.update(0, s[0] ^ rc)
}

/// The non-linear layer: each lane takes up the lane above it in its column,
/// complemented, and-ed with the lane two above.
pub open spec fn chi(s: Seq<u32>) -> Seq<u32> {
    Seq::new(12, |i: int| s[i] ^ (!s[(i + 4) % 12] & s[(i + 8) % 12]))
}

/// The second plane shift: the lanes of plane 1 rotate by 1 bit, plane 2
/// moves two lanes to the right and its lanes rotate by 8 bits.
pub open spec fn rho_east(s: Seq<u32>) -> Seq<u32> {
    Seq::new(
        12,
        |i: int|
            if i < 4 {
                s[i]
            } else if i < 8 {
                rotl(s[i], 1)
            } else {
                rotl(s[8 + (i + 2) % 4], 8)
            },
    )
}

/// One round of the permutation with round constant `rc`: the five layers
/// one after the other.
#[verifier::opaque]
pub open spec fn round_spec(s: Seq<u32>, rc: u32) -> Seq<u32> {
    rho_east(chi(iota(rho_west(theta(s)), rc)))
}

/// The state after the last `rounds` rounds of the full permutation: round
/// `12 - rounds` first, round 11 last. No more than twelve rounds can be
/// asked for.
pub open spec fn permute_spec(s: Seq<u32>, rounds: nat) -> Seq<u32>
    decreases rounds,
{
    if rounds == 0 || rounds > 12 {
        s
    } else {
        permute_spec(round_spec(s, round_constant(12 - rounds)), (rounds - 1) as nat)
    }
}

/// The state after the mixing layer, the first plane shift and the round
/// constant, lane by lane.
spec fn linear_half(s: Seq<u32>, rc: u32) -> Seq<u32> {
    let e0 = theta_effect(s, 0);
    let e1 = theta_effect(s, 1);
    let e2 = theta_effect(s, 2);
    let e3 = theta_effect(s, 3);
    seq![
        s[0] ^ e0 ^ rc,
        s[1] ^ e1,
        s[2] ^ e2,
        s[3] ^ e3,
        s[7] ^ e3,
        s[4] ^ e0,
        s[5] ^ e1,
        s[6] ^ e2,
        rotl(s[8] ^ e0, 11),
        rotl(s[9] ^ e1, 11),
        rotl(s[10] ^ e2, 11),
        rotl(s[11] ^ e3, 11),
    ]
}

/// The state after the non-linear layer and the second plane shift, lane by
/// lane.
spec fn nonlinear_half(k: Seq<u32>) -> Seq<u32> {
    seq![
        k[0] ^ (!k[4] & k[8]),
        k[1] ^ (!k[5] & k[9]),
        k[2] ^ (!k[6] & k[10]),
        k[3] ^ (!k[7] & k[11]),
        rotl(k[4] ^ (!k[8] & k[0]), 1),
        rotl(k[5] ^ (!k[9] & k[1]), 1),
        rotl(k[6] ^ (!k[10] & k[2]), 1),
        rotl(k[7] ^ (!k[11] & k[3]), 1),
        rotl(k[10] ^ (!k[2] & k[6]), 8),
        rotl(k[11] ^ (!k[3] & k[7]), 8),
        rotl(k[8] ^ (!k[0] & k[4]), 8),
        rotl(k[9] ^ (!k[1] & k[5]), 8),
    ]
}

/// The first three layers, lane by lane.
proof fn lemma_linear_half(s: Seq<u32>, rc: u32)
    requires
        s.len() == 12,
    ensures
        iota(rho_west(theta(s)), rc) == linear_half(s, rc),
{
    assert(iota(rho_west(theta(s)), rc) =~= linear_half(s, rc));
}

/// The last two layers, lane by lane.
proof fn lemma_nonlinear_half(k: Seq<u32>)
    requires
        k.len() == 12,
    ensures
        rho_east(chi(k)) == nonlinear_half(k),
{
    assert(rho_east(chi(k)) =~= nonlinear_half(k));
}

/// A round is its linear half followed by its non-linear half.
proof fn lemma_round_halves(s: Seq<u32>, rc: u32)
    requires
        s.len() == 12,
    ensures
        round_spec(s, rc) == nonlinear_half(linear_half(s, rc)),
{
    reveal(round_spec);
    lemma_linear_half(s, rc);
    lemma_nonlinear_half(linear_half(s, rc));
}

/// Applies one round with round constant `round_key` to the state.
pub fn round(st_words: &mut [u32], round_key: u32)
    requires
        old(st_words)@.len() == 12,
    ensures
        final(st_words)@ == round_spec(old(st_words)@, round_key),
{
    let ghost s = st_words@;

    let p0: u32 = st_words[0] ^ st_words[4] ^ st_words[8];
    let p1: u32 = st_words[1] ^ st_words[5] ^ st_words[9];
    let p2: u32 = st_words[2] ^ st_words[6] ^ st_words[10];
    let p3: u32 = st_words[3] ^ st_words[7] ^ st_words[11];

    let e0: u32 = rotate_left(p3, 5) ^ rotate_left(p3, 14);
    let e1: u32 = rotate_left(p0, 5) ^ rotate_left(p0, 14);
    let e2: u32 = rotate_left(p1, 5) ^ rotate_left(p1, 14);
    let e3: u32 = rotate_left(p2, 5) ^ rotate_left(p2, 14);

    let a0: u32 = st_words[0] ^ e0 ^ round_key;
    let a1: u32 = st_words[1] ^ e1;
    let a2: u32 = st_words[2] ^ e2;
    let a3: u32 = st_words[3] ^ e3;

    let b0: u32 = st_words[7] ^ e3;
    let b1: u32 = st_words[4] ^ e0;
    let b2: u32 = st_words[5] ^ e1;
    let b3: u32 = st_words[6] ^ e2;

    let c0: u32 = rotate_left(st_words[8] ^ e0, 11);
    let c1: u32 = rotate_left(st_words[9] ^ e1, 11);
    let c2: u32 = rotate_left(st_words[10] ^ e2, 11);
    let c3: u32 = rotate_left(st_words[11] ^ e3, 11);

    st_words[0] = a0 ^ (!b0 & c0);
    st_words[1] = a1 ^ (!b1 & c1);
    st_words[2] = a2 ^ (!b2 & c2);
    st_words[3] = a3 ^ (!b3 & c3);

    st_words[4] = rotate_left(b0 ^ (!c0 & a0), 1);
    st_words[5] = rotate_left(b1 ^ (!c1 & a1), 1);
    st_words[6] = rotate_left(b2 ^ (!c2 & a2), 1);
    st_words[7] = rotate_left(b3 ^ (!c3 & a3), 1);

    st_words[8] = rotate_left(c2 ^ (!a2 & b2), 8);
    st_words[9] = rotate_left(c3 ^ (!a3 & b3), 8);
    st_words[10] = rotate_left(c0 ^ (!a0 & b0), 8);
    st_words[11] = rotate_left(c1 ^ (!a1 & b1), 8);

    proof {
        lemma_round_halves(s, round_key);
        assert(st_words@ =~= nonlinear_half(linear_half(s, round_key)));
    }
}

/// A round keeps the number of lanes.
pub proof fn lemma_round_len(s: Seq<u32>, rc: u32)
    ensures
        round_spec(s, rc).len() == 12,
{
    reveal(round_spec);
}

/// The permutation keeps the number of lanes.
pub proof fn lemma_permute_len(s: Seq<u32>, rounds: nat)
    requires
        s.len() == 12,
    ensures
        permute_spec(s, rounds).len() == 12,
    decreases rounds,
{
    if rounds != 0 && rounds <= 12 {
        lemma_round_len(s, round_constant(12 - rounds));
        lemma_permute_len(round_spec(s, round_constant(12 - rounds)), (rounds - 1) as nat);
    }
}

/// Applies the last `ROUNDS` rounds of the full permutation to the state.
pub fn permute<const ROUNDS: usize>(state: &mut [u32])
    requires
        old(state)@.len() == 12,
        ROUNDS <= MAX_ROUNDS,
    ensures
        final(state)@ == permute_spec(old(state)@, ROUNDS as nat),
{
    let start: usize = MAX_ROUNDS - ROUNDS;
    let mut ridx: usize = start;
    while ridx < MAX_ROUNDS
        invariant
            start <= ridx <= 12,
            state@.len() == 12,
            permute_spec(state@, (12 - ridx) as nat) == permute_spec(
                old(state)@,
                ROUNDS as nat,
            ),
        decreases 12 - ridx,
    {
        proof {
            lemma_round_len(state@, RC[ridx as int]);
        }
        round(state, RC[ridx]);
        ridx += 1;
    }
}

} // verus!
