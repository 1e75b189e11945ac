//! The deck function Xoofff: key setup, incremental absorbing, finalizing,
//! incremental squeezing and restarting.

use crate::block::{
    bytes_to_le_words, close_block, copy_bytes, lemma_written_through_more,
    lemma_written_through_prefix, pad10x, words_to_le_bytes, written_through, xor_into,
    zero_bytes, zero_words, BLOCK_SIZE,
};
use crate::deck::{
    absorb_blocks, accumulate, lemma_squeeze_chunk, output_block, pad_byte, DeckState, ROUNDS,
};
use crate::rolling::{roll_xc, roll_xc_spec, roll_xe, roll_xe_spec};
use crate::xoodoo::permute;
use vstd::prelude::*;

verus! {

/// A deck function under one key.
///
/// Any number of bytes can be absorbed, in any number of calls. Once the
/// state is finalized, any number of bytes can be squeezed out, in any number
/// of calls. A restart makes the state ready for the next message of a
/// sequence: it then takes up bytes again, and a later output depends on all
/// the messages so far.
#[derive(Clone, Copy)]
pub struct Xoofff {
    imask: [u32; 12],
    omask: [u32; 12],
    acc: [u32; 12],
    iblk: [u8; 48],
    oblk: [u8; 48],
    ioff: usize,
    ooff: usize,
    finalized: bool,
}

impl View for Xoofff {
    type V = DeckState;

    closed spec fn view(&self) -> DeckState {
        DeckState {
            imask: self.imask@,
            omask: self.omask@,
            acc: self.acc@,
            pending: Seq::new(self.ioff as nat, |i: int| self.iblk@[i]),
            oblk: self.oblk@,
            ooff: self.ooff as nat,
            finalized: self.finalized,
        }
    }
}

impl Xoofff {
    /// The 48 bytes of the input buffer. The pending bytes are the first of
    /// them; the others are left over from blocks absorbed before.
    pub closed spec fn input_buffer(&self) -> Seq<u8> {
        self.iblk@
    }

    /// The pending bytes are the first bytes of the input buffer.
    pub proof fn lemma_pending_is_buffered(&self)
        requires
            self@.wf(),
        ensures
            self.input_buffer().len() == 48,
            self@.pending == self.input_buffer().subrange(0, self@.pending.len() as int),
    {
        assert(self@.pending =~= self.input_buffer().subrange(0, self@.pending.len() as int));
    }

    /// Makes a deck function under the key `key`, which is shorter than a
    /// block.
    pub fn new(key: &[u8]) -> (deck: Xoofff)
        requires
            key@.len() < 48,
        ensures
            deck@ == DeckState::init(key@),
            deck@.wf(),
            deck.input_buffer() == zero_bytes(48),
    {
        let padded_key: [u8; 48] = pad10x(key);
        let mut masked_key: [u32; 12] = bytes_to_le_words(&padded_key);
        permute::<ROUNDS>(&mut masked_key);

        let deck = Xoofff {
            imask: masked_key,
            omask: [0u32; 12],
            acc: [0u32; 12],
            iblk: [0u8; 48],
            oblk: [0u8; 48],
            ioff: 0,
            ooff: 0,
            finalized: false,
        };
        assert(deck@.pending =~= Seq::empty());
        assert(deck@.omask =~= zero_words());
        assert(deck@.acc =~= zero_words());
        assert(deck@.oblk =~= zero_bytes(48));
        assert(deck.input_buffer() =~= zero_bytes(48));
        deck
    }

    /// Takes the full input block up into the accumulator and moves the
    /// input mask on.
    fn absorb_block(&mut self)
        ensures
            final(self).imask@ == roll_xc_spec(old(self).imask@),
            final(self).acc@ == accumulate(old(self).acc@, old(self).imask@, old(self).iblk@),
            final(self).omask == old(self).omask,
            final(self).iblk == old(self).iblk,
            final(self).oblk == old(self).oblk,
            final(self).ioff == old(self).ioff,
            final(self).ooff == old(self).ooff,
            final(self).finalized == old(self).finalized,
    {
        let mut words: [u32; 12] = bytes_to_le_words(&self.iblk);
        xor_into(&mut words, &self.imask);
        permute::<ROUNDS>(&mut words);
        xor_into(&mut self.acc, &words);
        roll_xc(&mut self.imask);
    }

    /// Absorbs the bytes `msg`. Whole blocks are taken up at once; what is
    /// left waits for the bytes of the next call. A finalized state takes
    /// nothing up.
    pub fn absorb(&mut self, msg: &[u8])
        requires
            old(self)@.wf(),
        ensures
            final(self)@ == old(self)@.absorb(msg@),
            final(self)@.wf(),
            old(self)@.finalized || msg@.len() == 0 ==> *final(self) == *old(self),
            !old(self)@.finalized ==> final(self).input_buffer() == written_through(
                old(self).input_buffer(),
                old(self)@.pending + msg@,
            ),
    {
        if self.finalized {
            return ;
        }
        let ghost pre = *self;
        let ghost goal = absorb_blocks(pre@.imask, pre@.acc, pre@.pending + msg@);
        let mlen: usize = msg.len();
        let mut moff: usize = 0;
        proof {
            assert(msg@.subrange(0, mlen as int) =~= msg@);
            assert(pre@.pending + msg@.subrange(0, 0) =~= pre.iblk@.subrange(0, pre.ioff as int));
            lemma_written_through_prefix(pre.iblk@, pre.ioff as int);
        }

        while mlen - moff >= BLOCK_SIZE - self.ioff
            invariant
                mlen == msg@.len(),
                moff <= mlen,
                self.ioff < 48,
                !self.finalized,
                self.omask == pre.omask,
                self.oblk == pre.oblk,
                self.ooff == pre.ooff,
                moff == 0 ==> *self == pre,
                (pre.ioff + moff) % 48 == self.ioff,
                self.iblk@ == written_through(
                    pre.iblk@,
                    pre@.pending + msg@.subrange(0, moff as int),
                ),
                absorb_blocks(
                    self@.imask,
                    self@.acc,
                    self@.pending + msg@.subrange(moff as int, mlen as int),
                ) == goal,
            decreases mlen - moff,
        {
            let byte_cnt: usize = BLOCK_SIZE - self.ioff;
            let ghost data = self@.pending + msg@.subrange(moff as int, mlen as int);
            proof {
                let seen = pre@.pending + msg@.subrange(0, moff as int);
                let more = msg@.subrange(moff as int, moff + byte_cnt);
                lemma_written_through_more(pre.iblk@, seen, more);
                assert(more.subrange(0, byte_cnt as int) =~= more);
                assert(seen + more =~= pre@.pending + msg@.subrange(0, moff + byte_cnt));
            }

            copy_bytes(&mut self.iblk, self.ioff, msg, moff, byte_cnt);
            assert(self.iblk@ =~= data.subrange(0, 48));
            self.absorb_block();
            moff += byte_cnt;
            self.ioff = 0;

            assert(self@.pending + msg@.subrange(moff as int, mlen as int) =~= data.subrange(
                48,
                data.len() as int,
            ));
        }

        let rm_bytes: usize = mlen - moff;
        let ghost data = self@.pending + msg@.subrange(moff as int, mlen as int);
        proof {
            let seen = pre@.pending + msg@.subrange(0, moff as int);
            let more = msg@.subrange(moff as int, mlen as int);
            lemma_written_through_more(pre.iblk@, seen, more);
            assert(more.subrange(0, rm_bytes as int) =~= more);
            assert(seen + more =~= pre@.pending + msg@);
        }
        copy_bytes(&mut self.iblk, self.ioff, msg, moff, rm_bytes);
        self.ioff += rm_bytes;
        assert(self@.pending =~= data);
        proof {
            if mlen == 0 {
                assert(self.iblk@ =~= pre.iblk@);
                assert(self.iblk =~= pre.iblk);
            }
        }
    }

    /// Makes the next output block from the output mask and moves the
    /// output mask on.
    fn next_block(&mut self)
        ensures
            final(self).oblk@ == output_block(old(self).omask@, old(self).imask@),
            final(self).omask@ == roll_xe_spec(old(self).omask@),
            final(self).ooff == 0,
            final(self).imask == old(self).imask,
            final(self).acc == old(self).acc,
            final(self).iblk == old(self).iblk,
            final(self).ioff == old(self).ioff,
            final(self).finalized == old(self).finalized,
    {
        let mut words: [u32; 12] = self.omask;
        permute::<ROUNDS>(&mut words);
        xor_into(&mut words, &self.imask);
        words_to_le_bytes(&words, &mut self.oblk);
        self.ooff = 0;
        roll_xe(&mut self.omask);
    }

    /// Closes the message absorbed so far and makes the state ready for
    /// squeezing.
    ///
    /// The lowest `ds_bit_width` bits of `domain_seperator` go into the
    /// byte that closes the message. The first `offset` bytes of output are
    /// skipped. A finalized state stays as it is.
    pub fn finalize(&mut self, domain_seperator: u8, ds_bit_width: usize, offset: usize)
        requires
            old(self)@.wf(),
            ds_bit_width <= 7,
            offset <= 48,
        ensures
            final(self)@ == old(self)@.finalize(
                domain_seperator,
                ds_bit_width as nat,
                offset as nat,
            ),
            final(self)@.wf(),
            old(self)@.finalized ==> *final(self) == *old(self),
            !old(self)@.finalized ==> final(self).input_buffer() == zero_bytes(48),
    {
        if self.finalized {
            return ;
        }
        let ghost pre = self@;
        let width: u8 = ds_bit_width as u8;
        assert(width <= 7 ==> (1u8 << width) >= 1) by (bit_vector);
        let mask: u8 = (1u8 << width) - 1u8;
        let pad: u8 = (1u8 << width) | (domain_seperator & mask);
        assert(pad == pad_byte(domain_seperator, ds_bit_width as nat));

        assert(self.iblk@.subrange(0, self.ioff as int) =~= pre.pending);
        close_block(&mut self.iblk, self.ioff, pad);
        self.absorb_block();
        roll_xc(&mut self.imask);

        self.iblk = [0u8; 48];
        self.ioff = 0;
        self.finalized = true;

        self.omask = self.acc;
        permute::<ROUNDS>(&mut self.omask);
        self.next_block();
        self.ooff = offset;
        assert(self@.pending =~= Seq::empty());
        assert(self.input_buffer() =~= zero_bytes(48));
    }

    /// Fills `out` with the next bytes of output. A state that is not
    /// finalized gives nothing: `out` stays as it is.
    pub fn squeeze(&mut self, out: &mut [u8])
        requires
            old(self)@.wf(),
        ensures
            final(self)@ == old(self)@.squeeze(old(out)@.len()).1,
            final(self)@.wf(),
            final(self).input_buffer() == old(self).input_buffer(),
            final(out)@.len() == old(out)@.len(),
            old(self)@.finalized ==> final(out)@ == old(self)@.squeeze(old(out)@.len()).0,
            !old(self)@.finalized ==> final(out)@ == old(out)@ && *final(self) == *old(self),
    {
        if !self.finalized {
            return ;
        }
        let olen: usize = out.len();
        let ghost goal = self@.squeeze(olen as nat);
        let mut off: usize = 0;
        assert(out@.subrange(0, 0) + goal.0 =~= goal.0);

        while off < olen
            invariant
                off <= olen,
                olen == out@.len(),
                self.finalized,
                self@.wf(),
                self.iblk == old(self).iblk,
                goal.0 == out@.subrange(0, off as int) + self@.squeeze((olen - off) as nat).0,
                goal.1 == self@.squeeze((olen - off) as nat).1,
            decreases olen - off, self.ooff,
        {
            let avail: usize = BLOCK_SIZE - self.ooff;
            let rest: usize = olen - off;
            let read: usize = if avail < rest {
                avail
            } else {
                rest
            };
            let ghost before = self@;
            let ghost done = out@.subrange(0, off as int);
            proof {
                lemma_squeeze_chunk(before, rest as nat, read as nat);
            }
            copy_bytes(out, off, &self.oblk, self.ooff, read);
            self.ooff += read;
            off += read;

            if self.ooff == BLOCK_SIZE {
                self.next_block();
            }
            assert(self@ == DeckState {
                ooff: before.ooff + read as nat,
                ..before
            }.refill_if_used_up());
            assert(out@.subrange(0, off as int) =~= done + before.oblk.subrange(
                before.ooff as int,
                (before.ooff + read) as int,
            ));
            assert(goal.0 =~= out@.subrange(0, off as int) + self@.squeeze((olen - off) as nat).0);
        }
        assert(out@.subrange(0, off as int) =~= out@);
        assert(goal.0 =~= out@);
    }

    /// Makes a finalized state ready for the next message: the output side
    /// is cleared, input mask and accumulator stay. A state that is not
    /// finalized stays as it is.
    pub fn restart(&mut self)
        requires
            old(self)@.wf(),
        ensures
            final(self)@ == old(self)@.restart(),
            final(self)@.wf(),
            final(self).input_buffer() == old(self).input_buffer(),
            !old(self)@.finalized ==> *final(self) == *old(self),
    {
        if !self.finalized {
            return ;
        }
        self.omask = [0u32; 12];
        self.oblk = [0u8; 48];
        self.ooff = 0;
        self.finalized = false;
        assert(self@.omask =~= zero_words());
        assert(self@.oblk =~= zero_bytes(48));
        assert(self@.pending =~= old(self)@.pending);
    }
}

} // verus!
