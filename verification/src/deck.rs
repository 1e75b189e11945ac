//! The deck function as a mathematical state machine.
//!
//! A `DeckState` is what an instance stands for between two calls; the spec
//! functions on it say what each operation does.

use crate::block::{
    bytes_to_words, pad10x_spec, pad_block, words_to_bytes, xor_words, zero_bytes, zero_words,
};
use crate::rolling::{roll_xc_spec, roll_xe_spec};
use crate::xoodoo::permute_spec;
use vstd::prelude::*;

verus! {

/// Number of rounds of every permutation call of the deck function.
pub const ROUNDS: usize = 6;

/// The state of a deck function.
pub struct DeckState {
    /// The input mask: the mask of the next block to be absorbed.
    pub imask: Seq<u32>,
    /// The output mask: the mask from which the block after the current
    /// output block is made.
    pub omask: Seq<u32>,
    /// The accumulator: the sum of all blocks absorbed so far, each masked
    /// and permuted.
    pub acc: Seq<u32>,
    /// The bytes absorbed since the last whole block.
    pub pending: Seq<u8>,
    /// The current output block.
    pub oblk: Seq<u8>,
    /// How many bytes of the current output block are used up.
    pub ooff: nat,
    /// Whether the state is finalized, that is, ready for squeezing.
    pub finalized: bool,
}

/// The byte that closes a message: the lowest `width` bits of the domain
/// separator `ds` with a one bit above them.
pub open spec fn pad_byte(ds: u8, width: nat) -> u8 {
    (1u8 << (width as u8)) | (ds & (((1u8 << (width as u8)) - 1) as u8))
}

/// The accumulator after the block `block` has been absorbed under the mask
/// `imask`.
pub open spec fn accumulate(acc: Seq<u32>, imask: Seq<u32>, block: Seq<u8>) -> Seq<u32> {
    xor_words(acc, permute_spec(xor_words(bytes_to_words(block), imask), ROUNDS as nat))
}

/// The output block made from the output mask `omask` under the input mask
/// `imask`.
pub open spec fn output_block(omask: Seq<u32>, imask: Seq<u32>) -> Seq<u8> {
    words_to_bytes(xor_words(permute_spec(omask, ROUNDS as nat), imask))
}

/// Input mask, accumulator and pending bytes after all whole blocks of
/// `data` have been absorbed, first to last.
pub open spec fn absorb_blocks(imask: Seq<u32>, acc: Seq<u32>, data: Seq<u8>) -> (Seq<u32>, Seq<u32>, Seq<u8>)
    decreases data.len(),
{
    if data.len() < 48 {
        (imask, acc, data)
    } else {
        absorb_blocks(
            roll_xc_spec(imask),
            accumulate(acc, imask, data.subrange(0, 48)),
            data.subrange(48, data.len() as int),
        )
    }
}

impl DeckState {
    /// The states that an instance can be in.
    pub open spec fn wf(self) -> bool {
        &&& self.imask.len() == 12
        &&& self.omask.len() == 12
        &&& self.acc.len() == 12
        &&& self.oblk.len() == 48
        &&& self.pending.len() < 48
        &&& self.ooff <= 48
        &&& self.finalized ==> self.pending.len() == 0
        &&& !self.finalized ==> self.omask == zero_words() && self.oblk == zero_bytes(48)
            && self.ooff == 0
    }

    /// The state of a new instance under the key `key`.
    pub open spec fn init(key: Seq<u8>) -> DeckState {
        DeckState {
            imask: permute_spec(bytes_to_words(pad10x_spec(key)), ROUNDS as nat),
            omask: zero_words(),
            acc: zero_words(),
            pending: Seq::empty(),
            oblk: zero_bytes(48),
            ooff: 0,
            finalized: false,
        }
    }

    /// The state after the bytes `msg` have been absorbed. A finalized state
    /// takes nothing up.
    pub open spec fn absorb(self, msg: Seq<u8>) -> DeckState {
        if self.finalized {
            self
        } else {
            let (imask, acc, pending) = absorb_blocks(self.imask, self.acc, self.pending + msg);
            DeckState { imask, acc, pending, ..self }
        }
    }

    /// The state after the message has been closed with the domain separator
    /// `ds` of `width` bits and the first `offset` bytes of output have been
    /// skipped. A finalized state stays as it is.
    pub open spec fn finalize(self, ds: u8, width: nat, offset: nat) -> DeckState {
        if self.finalized {
            self
        } else {
            let acc = accumulate(self.acc, self.imask, pad_block(self.pending, pad_byte(ds, width)));
            let imask = roll_xc_spec(roll_xc_spec(self.imask));
            let omask = permute_spec(acc, ROUNDS as nat);
            DeckState {
                imask,
                omask: roll_xe_spec(omask),
                acc,
                pending: Seq::empty(),
                oblk: output_block(omask, imask),
                ooff: offset,
                finalized: true,
            }
        }
    }

    /// The state with the next output block in place of the current one.
    pub open spec fn refill(self) -> DeckState {
        DeckState {
            omask: roll_xe_spec(self.omask),
            oblk: output_block(self.omask, self.imask),
            ooff: 0,
            ..self
        }
    }

    /// The state with the next output block in place of the current one, if
    /// that one is used up.
    pub open spec fn refill_if_used_up(self) -> DeckState {
        if self.ooff >= 48 {
            self.refill()
        } else {
            self
        }
    }

    /// The next `n` bytes of output and the state after they have been
    /// taken. An output block that is used up is replaced at once. A state
    /// that is not finalized gives nothing.
    pub open spec fn squeeze(self, n: nat) -> (Seq<u8>, DeckState)
        decreases n,
    {
        if !self.finalized || n == 0 {
            (Seq::empty(), self)
        } else {
            let ready = self.refill_if_used_up();
            let byte = ready.oblk[ready.ooff as int];
            let next = DeckState { ooff: ready.ooff + 1, ..ready }.refill_if_used_up();
            let (rest, last) = next.squeeze((n - 1) as nat);
            (seq![byte] + rest, last)
        }
    }

    /// The state ready for the next message: the output side is cleared,
    /// input mask and accumulator stay. A state that is not finalized stays
    /// as it is.
    pub open spec fn restart(self) -> DeckState {
        if !self.finalized {
            self
        } else {
            DeckState {
                omask: zero_words(),
                oblk: zero_bytes(48),
                ooff: 0,
                finalized: false,
                ..self
            }
        }
    }
}

/// Taking bytes out of the current output block: as long as the block
/// holds them, the next `r` of `n` bytes are its bytes from the cursor on,
/// and the rest is squeezed with the cursor moved on by `r`.
pub proof fn lemma_squeeze_chunk(m: DeckState, n: nat, r: nat)
    requires
        m.finalized,
        m.oblk.len() == 48,
        m.ooff + r <= 48,
        r <= n,
        r == 0 && m.ooff == 48 ==> n > 0,
    ensures
        ({
            let moved = DeckState { ooff: m.ooff + r, ..m }.refill_if_used_up();
            let chunk = m.oblk.subrange(m.ooff as int, (m.ooff + r) as int);
            &&& m.squeeze(n).0 == chunk + moved.squeeze((n - r) as nat).0
            &&& m.squeeze(n).1 == moved.squeeze((n - r) as nat).1
        }),
    decreases r,
{
    let moved = DeckState { ooff: m.ooff + r, ..m }.refill_if_used_up();
    let chunk = m.oblk.subrange(m.ooff as int, (m.ooff + r) as int);
    if r == 0 {
        assert(chunk =~= Seq::empty());
        if m.ooff == 48 {
            assert(moved.refill_if_used_up() == moved);
        } else {
            assert(moved == m);
        }
        assert(chunk + moved.squeeze(n).0 =~= moved.squeeze(n).0);
    } else {
        let next = DeckState { ooff: m.ooff + 1, ..m }.refill_if_used_up();
        if r == 1 {
            assert(next == moved);
            assert(chunk =~= seq![m.oblk[m.ooff as int]]);
        } else {
            lemma_squeeze_chunk(next, (n - 1) as nat, (r - 1) as nat);
            let tail = next.oblk.subrange(next.ooff as int, (next.ooff + r - 1) as int);
            assert(DeckState { ooff: next.ooff + (r - 1) as nat, ..next } == DeckState {
                ooff: m.ooff + r,
                ..m
            });
            assert(chunk =~= seq![m.oblk[m.ooff as int]] + tail);
            assert(seq![m.oblk[m.ooff as int]] + (tail + moved.squeeze((n - r) as nat).0) =~= chunk
                + moved.squeeze((n - r) as nat).0);
        }
    }
}

} // verus!
