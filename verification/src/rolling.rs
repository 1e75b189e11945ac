//! The two rolling functions that move a mask from one block to the next.
//!
//! Both drop plane 0, move planes 1 and 2 down by one plane and put a new
//! plane on top: the old plane 0 with lane 0 recomputed, shifted cyclically
//! by three lanes. They differ in how lane 0 is recomputed.

use crate::xoodoo::{rotate_left, rotl};
use vstd::prelude::*;

verus! {

/// A plane whose lanes have moved `t` positions to the right, cyclically, each
/// rotated left by `v` bits.
pub open spec fn cyclic_shift_spec(plane: Seq<u32>, t: nat, v: u32) -> Seq<u32> {
    Seq::new(4, |i: int| rotl(plane[(i + 4 - t % 4) % 4], v))
}

/// Lane 0 of plane 0 as the linear roll recomputes it.
pub open spec fn roll_xc_lane(s: Seq<u32>) -> u32 {
    s[0] ^ ((s[0] << 13u32) ^ rotl(s[4], 3))
}

/// Lane 0 of plane 0 as the non-linear roll recomputes it.
pub open spec fn roll_xe_lane(s: Seq<u32>) -> u32 {
    (s[4] & s[8]) ^ rotl(s[0], 5) ^ rotl(s[4], 13) ^ 0x00000007u32
}

/// The state with plane 0 dropped, planes 1 and 2 moved down and, on top,
/// the old plane 0 with `lane` in place of its lane 0, shifted by three
/// lanes.
pub open spec fn roll_with(s: Seq<u32>, lane: u32) -> Seq<u32> {
    s.subrange(4, 12) + cyclic_shift_spec(s.subrange(0, 4).update(0, lane), 3, 0)
}

/// The linear roll, which moves the input mask.
pub open spec fn roll_xc_spec(s: Seq<u32>) -> Seq<u32> {
    roll_with(s, roll_xc_lane(s))
}

/// The non-linear roll, which moves the output mask.
pub open spec fn roll_xe_spec(s: Seq<u32>) -> Seq<u32> {
    roll_with(s, roll_xe_lane(s))
}

/// A rolled state, lane by lane: lanes 4 to 11 come first, then lanes 1
/// to 3, then the recomputed lane.
pub proof fn lemma_roll_lanes(s: Seq<u32>, lane: u32)
    requires
        s.len() == 12,
    ensures
        roll_with(s, lane) == seq![
            s[4],
            s[5],
            s[6],
            s[7],
            s[8],
            s[9],
            s[10],
            s[11],
            s[1],
            s[2],
            s[3],
            lane,
        ],
{
    let top = cyclic_shift_spec(s.subrange(0, 4).update(0, lane), 3, 0);
    assert(top =~= seq![s[1], s[2], s[3], lane]);
    assert(roll_with(s, lane) =~= seq![
        s[4],
        s[5],
        s[6],
        s[7],
        s[8],
        s[9],
        s[10],
        s[11],
        s[1],
        s[2],
        s[3],
        lane,
    ]);
}

/// Moves the lanes of a plane `T` positions to the right, cyclically, and
/// rotates each left by `V` bits.
pub fn cyclic_shift<const T: usize, const V: u32>(plane: &[u32]) -> (shifted: [u32; 4])
    requires
        plane@.len() == 4,
    ensures
        shifted@ == cyclic_shift_spec(plane@, T as nat, V),
{
    let t: usize = T % 4;
    let mut shifted: [u32; 4] = [0u32; 4];
    let mut i: usize = 0;
    while i < 4
        invariant
            i <= 4,
            t == T % 4,
            plane@.len() == 4,
            forall|j: int| 0 <= j < i ==> #[trigger] shifted@[(t + j) % 4] == rotl(plane@[j], V),
        decreases 4 - i,
    {
        shifted[(t + i) % 4] = rotate_left(plane[i], V);
        i += 1;
    }
    assert(shifted@ =~= cyclic_shift_spec(plane@, T as nat, V)) by {
        assert forall|k: int| 0 <= k < 4 implies shifted@[k] == rotl(
            plane@[(k + 4 - t % 4) % 4],
            V,
        ) by {
            let j = (k + 4 - t % 4) % 4;
            assert((t + j) % 4 == k);
        }
    }
    shifted
}

/// Puts `lane` in place of lane 0 and rolls the state by one plane.
fn roll(state: &mut [u32], lane: u32)
    requires
        old(state)@.len() == 12,
    ensures
        final(state)@ == roll_with(old(state)@, lane),
{
    let ghost s = state@;
    state[0] = lane;
    let b: [u32; 4] = cyclic_shift::<3, 0>(&state[0..4]);
    assert(b@ =~= cyclic_shift_spec(s.subrange(0, 4).update(0, lane), 3, 0));
    let mut i: usize = 0;
    while i < 8
        invariant
            i <= 8,
            state@.len() == 12,
            forall|j: int| 0 <= j < i ==> state@[j] == s[j + 4],
            forall|j: int| i + 4 <= j < 12 ==> state@[j] == s[j],
        decreases 8 - i,
    {
        state[i] = state[i + 4];
        i += 1;
    }
    let mut i: usize = 0;
    while i < 4
        invariant
            i <= 4,
            state@.len() == 12,
            forall|j: int| 0 <= j < 8 ==> state@[j] == s[j + 4],
            forall|j: int| 0 <= j < i ==> state@[8 + j] == b@[j],
        decreases 4 - i,
    {
        state[8 + i] = b[i];
        i += 1;
    }
    assert(state@ =~= roll_with(s, lane));
}

/// The linear roll: moves an input mask on by one block.
pub fn roll_xc(state: &mut [u32])
    requires
        old(state)@.len() == 12,
    ensures
        final(state)@ == roll_xc_spec(old(state)@),
{
    let lane: u32 = state[0] ^ ((state[0] << 13) ^ rotate_left(state[4], 3));
    roll(state, lane);
}

/// The non-linear roll: moves an output mask on by one block.
pub fn roll_xe(state: &mut [u32])
    requires
        old(state)@.len() == 12,
    ensures
        final(state)@ == roll_xe_spec(old(state)@),
{
    let tmp: u32 = state[4] & state[8];
    let lane: u32 = tmp ^ rotate_left(state[0], 5) ^ rotate_left(state[4], 13) ^ 0x00000007u32;
    roll(state, lane);
}

} // verus!
