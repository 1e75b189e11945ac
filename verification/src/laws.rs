//! What holds of the deck function whatever the key and the messages.

use crate::block::{bytes_to_words, pad10x_spec, pad_block, zero_bytes, zero_words};
use crate::deck::{
    absorb_blocks, accumulate, lemma_squeeze_chunk, output_block, pad_byte, DeckState, ROUNDS,
};
use crate::rolling::{roll_xc_spec, roll_xe_spec};
use crate::xoodoo::{lemma_permute_len, permute_spec};
use vstd::prelude::*;

verus! {

/// The chunks of a message put together, first to last.
pub open spec fn concat(chunks: Seq<Seq<u8>>) -> Seq<u8>
    decreases chunks.len(),
{
    if chunks.len() == 0 {
        Seq::empty()
    } else {
        concat(chunks.drop_last()) + chunks.last()
    }
}

/// The state after the chunks have been absorbed one by one, first to last.
pub open spec fn absorb_all(m: DeckState, chunks: Seq<Seq<u8>>) -> DeckState
    decreases chunks.len(),
{
    if chunks.len() == 0 {
        m
    } else {
        absorb_all(m, chunks.drop_last()).absorb(chunks.last())
    }
}

/// The sum of the sizes of some reads.
pub open spec fn total(sizes: Seq<nat>) -> nat
    decreases sizes.len(),
{
    if sizes.len() == 0 {
        0
    } else {
        total(sizes.drop_last()) + sizes.last()
    }
}

/// The output of reads of the given sizes, one after the other, put
/// together, and the state after the last of them.
pub open spec fn squeeze_all(m: DeckState, sizes: Seq<nat>) -> (Seq<u8>, DeckState)
    decreases sizes.len(),
{
    if sizes.len() == 0 {
        (Seq::empty(), m)
    } else {
        let (head, mid) = squeeze_all(m, sizes.drop_last());
        let (tail, last) = mid.squeeze(sizes.last());
        (head + tail, last)
    }
}

/// A new state is well-formed.
pub proof fn lemma_init_wf(key: Seq<u8>)
    ensures
        DeckState::init(key).wf(),
{
    lemma_permute_len(bytes_to_words(pad10x_spec(key)), ROUNDS as nat);
}

/// Absorbing whole blocks keeps the number of lanes of mask and accumulator
/// and leaves less than a block pending.
pub proof fn lemma_absorb_blocks_wf(imask: Seq<u32>, acc: Seq<u32>, data: Seq<u8>)
    requires
        imask.len() == 12,
        acc.len() == 12,
    ensures
        absorb_blocks(imask, acc, data).0.len() == 12,
        absorb_blocks(imask, acc, data).1.len() == 12,
        absorb_blocks(imask, acc, data).2.len() < 48,
    decreases data.len(),
{
    if data.len() >= 48 {
        lemma_absorb_blocks_wf(
            roll_xc_spec(imask),
            accumulate(acc, imask, data.subrange(0, 48)),
            data.subrange(48, data.len() as int),
        );
    }
}

/// Absorbing keeps a state well-formed.
pub proof fn lemma_absorb_wf(m: DeckState, msg: Seq<u8>)
    requires
        m.wf(),
    ensures
        m.absorb(msg).wf(),
{
    lemma_absorb_blocks_wf(m.imask, m.acc, m.pending + msg);
}

/// Finalizing keeps a state well-formed.
pub proof fn lemma_finalize_wf(m: DeckState, ds: u8, width: nat, offset: nat)
    requires
        m.wf(),
        offset <= 48,
    ensures
        m.finalize(ds, width, offset).wf(),
        m.finalize(ds, width, offset).finalized,
{
    if !m.finalized {
        let acc = accumulate(m.acc, m.imask, pad_block(m.pending, pad_byte(ds, width)));
        lemma_permute_len(acc, ROUNDS as nat);
    }
}

/// Squeezing keeps a state well-formed and finalized, and leaves input mask
/// and accumulator as they are.
pub proof fn lemma_squeeze_wf(m: DeckState, n: nat)
    requires
        m.wf(),
    ensures
        m.squeeze(n).1.wf(),
        m.squeeze(n).1.finalized == m.finalized,
        m.squeeze(n).1.imask == m.imask,
        m.squeeze(n).1.acc == m.acc,
        m.finalized ==> m.squeeze(n).0.len() == n,
    decreases n,
{
    if m.finalized && n > 0 {
        let ready = m.refill_if_used_up();
        let next = DeckState { ooff: ready.ooff + 1, ..ready }.refill_if_used_up();
        lemma_squeeze_wf(next, (n - 1) as nat);
    }
}

/// Restarting keeps a state well-formed, leaves input mask and accumulator
/// as they are, and gives a state that absorbs.
pub proof fn lemma_restart_wf(m: DeckState)
    requires
        m.wf(),
    ensures
        m.restart().wf(),
        !m.restart().finalized,
        m.restart().imask == m.imask,
        m.restart().acc == m.acc,
        m.finalized ==> m.restart().pending.len() == 0,
{
}

/// Whole blocks can be absorbed in two steps: what is left pending after
/// the first step goes before the bytes of the second.
pub proof fn lemma_absorb_blocks_append(
    imask: Seq<u32>,
    acc: Seq<u32>,
    data: Seq<u8>,
    more: Seq<u8>,
)
    ensures
        ({
            let (i, a, p) = absorb_blocks(imask, acc, data);
            absorb_blocks(imask, acc, data + more) == absorb_blocks(i, a, p + more)
        }),
    decreases data.len(),
{
    if data.len() >= 48 {
        let all = data + more;
        assert(all.subrange(0, 48) =~= data.subrange(0, 48));
        assert(all.subrange(48, all.len() as int) =~= data.subrange(48, data.len() as int) + more);
        lemma_absorb_blocks_append(
            roll_xc_spec(imask),
            accumulate(acc, imask, data.subrange(0, 48)),
            data.subrange(48, data.len() as int),
            more,
        );
    }
}

/// Absorbing nothing leaves a state as it is.
pub proof fn lemma_absorb_empty(m: DeckState)
    requires
        m.wf(),
    ensures
        m.absorb(Seq::empty()) == m,
{
    assert(m.pending + Seq::<u8>::empty() =~= m.pending);
}

/// Absorbing two chunks one after the other gives the state that absorbing
/// them in one piece gives.
pub proof fn lemma_absorb_append(m: DeckState, first: Seq<u8>, second: Seq<u8>)
    ensures
        m.absorb(first).absorb(second) == m.absorb(first + second),
{
    if !m.finalized {
        lemma_absorb_blocks_append(m.imask, m.acc, m.pending + first, second);
        assert((m.pending + first) + second =~= m.pending + (first + second));
    }
}

/// Absorbing a message chunk by chunk, whatever the chunks, gives the state
/// that absorbing it in one call gives.
pub proof fn lemma_absorb_chunks(m: DeckState, chunks: Seq<Seq<u8>>)
    requires
        m.wf(),
    ensures
        absorb_all(m, chunks) == m.absorb(concat(chunks)),
    decreases chunks.len(),
{
    if chunks.len() == 0 {
        lemma_absorb_empty(m);
    } else {
        lemma_absorb_chunks(m, chunks.drop_last());
        lemma_absorb_append(m, concat(chunks.drop_last()), chunks.last());
    }
}

/// Squeezing in two reads gives, put together, the bytes that one read of
/// the whole length gives, and the same state.
pub proof fn lemma_squeeze_append(m: DeckState, first: nat, second: nat)
    ensures
        m.squeeze(first + second).0 == m.squeeze(first).0 + m.squeeze(first).1.squeeze(second).0,
        m.squeeze(first + second).1 == m.squeeze(first).1.squeeze(second).1,
    decreases first,
{
    if !m.finalized {
        assert(Seq::<u8>::empty() + Seq::<u8>::empty() =~= Seq::<u8>::empty());
    } else if first == 0 {
        assert(Seq::<u8>::empty() + m.squeeze(second).0 =~= m.squeeze(second).0);
    } else {
        let ready = m.refill_if_used_up();
        let byte = ready.oblk[ready.ooff as int];
        let next = DeckState { ooff: ready.ooff + 1, ..ready }.refill_if_used_up();
        lemma_squeeze_append(next, (first - 1) as nat, second);
        let a = next.squeeze((first - 1) as nat);
        assert(seq![byte] + (a.0 + a.1.squeeze(second).0) =~= (seq![byte] + a.0) + a.1.squeeze(
            second,
        ).0);
    }
}

/// Squeezing in reads of any sizes gives, put together, the bytes that one
/// read of the whole length gives, and the same state.
pub proof fn lemma_squeeze_reads(m: DeckState, sizes: Seq<nat>)
    ensures
        squeeze_all(m, sizes) == m.squeeze(total(sizes)),
    decreases sizes.len(),
{
    if sizes.len() > 0 {
        lemma_squeeze_reads(m, sizes.drop_last());
        lemma_squeeze_append(m, total(sizes.drop_last()), sizes.last());
    }
}

/// The output depends on the key, the message, the parameters of
/// finalizing and the number of bytes alone: not on the chunks in which the
/// message was absorbed, nor on the sizes of the reads.
pub proof fn lemma_output_determined(
    key: Seq<u8>,
    chunks_a: Seq<Seq<u8>>,
    chunks_b: Seq<Seq<u8>>,
    ds: u8,
    width: nat,
    offset: nat,
    sizes_a: Seq<nat>,
    sizes_b: Seq<nat>,
)
    requires
        concat(chunks_a) == concat(chunks_b),
        total(sizes_a) == total(sizes_b),
    ensures
        squeeze_all(absorb_all(DeckState::init(key), chunks_a).finalize(ds, width, offset), sizes_a)
            == squeeze_all(
            absorb_all(DeckState::init(key), chunks_b).finalize(ds, width, offset),
            sizes_b,
        ),
{
    let m = DeckState::init(key);
    lemma_init_wf(key);
    lemma_absorb_chunks(m, chunks_a);
    lemma_absorb_chunks(m, chunks_b);
    let f = m.absorb(concat(chunks_a)).finalize(ds, width, offset);
    lemma_squeeze_reads(f, sizes_a);
    lemma_squeeze_reads(f, sizes_b);
}

/// The mask `k` rolled on by `n` blocks.
pub open spec fn roll_xc_iter(k: Seq<u32>, n: nat) -> Seq<u32>
    decreases n,
{
    if n == 0 {
        k
    } else {
        roll_xc_spec(roll_xc_iter(k, (n - 1) as nat))
    }
}

/// A message closed by the byte `last` and filled up with zero bytes to
/// whole blocks.
pub open spec fn pad_message(msg: Seq<u8>, last: u8) -> Seq<u8> {
    msg + seq![last] + zero_bytes((47 - msg.len() % 48) as nat)
}

/// Block `i` of `data`.
pub open spec fn block(data: Seq<u8>, i: int) -> Seq<u8> {
    data.subrange(48 * i, 48 * i + 48)
}

/// The accumulator `acc` with the first `n` blocks of `data` added, block
/// `i` under the mask `k` rolled on by `i` blocks.
pub open spec fn fold_blocks(k: Seq<u32>, acc: Seq<u32>, data: Seq<u8>, n: nat) -> Seq<u32>
    decreases n,
{
    if n == 0 {
        acc
    } else {
        accumulate(
            fold_blocks(k, acc, data, (n - 1) as nat),
            roll_xc_iter(k, (n - 1) as nat),
            block(data, n - 1),
        )
    }
}

/// The accumulator `acc` with a whole message added, closed by the byte
/// `last`, whose first block goes under the mask `k`.
pub open spec fn message_acc(k: Seq<u32>, acc: Seq<u32>, msg: Seq<u8>, last: u8) -> Seq<u32> {
    fold_blocks(k, acc, pad_message(msg, last), msg.len() / 48 + 1)
}

/// The mask for the first block of the message that follows `msg`, whose
/// own first block went under the mask `k`: one roll for each block of the
/// closed message and one more.
pub open spec fn message_mask(k: Seq<u32>, msg: Seq<u8>) -> Seq<u32> {
    roll_xc_iter(k, msg.len() / 48 + 2)
}

/// Rolling a rolled mask `n` times is rolling the mask `n` times and once
/// more.
proof fn lemma_roll_iter_shift(k: Seq<u32>, n: nat)
    ensures
        roll_xc_iter(roll_xc_spec(k), n) == roll_xc_iter(k, n + 1),
    decreases n,
{
    if n == 0 {
        assert(roll_xc_iter(k, 0) == k);
        assert(roll_xc_iter(k, 1) == roll_xc_spec(roll_xc_iter(k, 0)));
    } else {
        lemma_roll_iter_shift(k, (n - 1) as nat);
    }
}

/// Adding the first block, then `n` blocks of the rest under the rolled
/// mask, is adding the first `n + 1` blocks.
proof fn lemma_fold_shift(k: Seq<u32>, acc: Seq<u32>, data: Seq<u8>, n: nat)
    requires
        48 * (n + 1) <= data.len(),
    ensures
        fold_blocks(
            roll_xc_spec(k),
            accumulate(acc, k, block(data, 0)),
            data.subrange(48, data.len() as int),
            n,
        ) == fold_blocks(k, acc, data, n + 1),
    decreases n,
{
    let rest = data.subrange(48, data.len() as int);
    let first = accumulate(acc, k, block(data, 0));
    if n == 0 {
        assert(fold_blocks(k, acc, data, 0) == acc);
        assert(roll_xc_iter(k, 0) == k);
        assert(fold_blocks(k, acc, data, 1) == accumulate(
            fold_blocks(k, acc, data, 0),
            roll_xc_iter(k, 0),
            block(data, 0),
        ));
    } else {
        lemma_fold_shift(k, acc, data, (n - 1) as nat);
        lemma_roll_iter_shift(k, (n - 1) as nat);
        assert(block(rest, n - 1) =~= block(data, n as int));
        assert(fold_blocks(roll_xc_spec(k), first, rest, n) == accumulate(
            fold_blocks(roll_xc_spec(k), first, rest, (n - 1) as nat),
            roll_xc_iter(roll_xc_spec(k), (n - 1) as nat),
            block(rest, n - 1),
        ));
        assert(fold_blocks(k, acc, data, n + 1) == accumulate(
            fold_blocks(k, acc, data, n),
            roll_xc_iter(k, n),
            block(data, n as int),
        ));
    }
}

/// The sum of the first `n` blocks depends on those blocks alone.
proof fn lemma_fold_prefix(k: Seq<u32>, acc: Seq<u32>, data: Seq<u8>, other: Seq<u8>, n: nat)
    requires
        48 * n <= data.len(),
        48 * n <= other.len(),
        forall|i: int| 0 <= i < 48 * n ==> data[i] == other[i],
    ensures
        fold_blocks(k, acc, data, n) == fold_blocks(k, acc, other, n),
    decreases n,
{
    if n > 0 {
        lemma_fold_prefix(k, acc, data, other, (n - 1) as nat);
        assert(block(data, n - 1) =~= block(other, n - 1));
    }
}

/// Absorbing the whole blocks of `data` rolls the mask once for each block,
/// adds block `i` under the mask rolled on by `i` blocks, and leaves what
/// follows the last whole block.
pub proof fn lemma_absorb_blocks_fold(k: Seq<u32>, acc: Seq<u32>, data: Seq<u8>)
    ensures
        ({
            let q = data.len() / 48;
            absorb_blocks(k, acc, data) == (
                roll_xc_iter(k, q),
                fold_blocks(k, acc, data, q),
                data.subrange(48 * (q as int), data.len() as int),
            )
        }),
    decreases data.len(),
{
    let q = data.len() / 48;
    if data.len() < 48 {
        assert(data.subrange(0, data.len() as int) =~= data);
    } else {
        let rest = data.subrange(48, data.len() as int);
        let first = accumulate(acc, k, data.subrange(0, 48));
        assert(rest.len() / 48 == q - 1);
        lemma_absorb_blocks_fold(roll_xc_spec(k), first, rest);
        lemma_roll_iter_shift(k, (q - 1) as nat);
        lemma_fold_shift(k, acc, data, (q - 1) as nat);
        assert(rest.subrange(48 * (q - 1), rest.len() as int) =~= data.subrange(
            48 * (q as int),
            data.len() as int,
        ));
    }
}

/// One message: absorbing it into a state that holds no pending bytes and
/// finalizing adds its blocks, the last one closed and filled up, to the
/// accumulator, block `i` under the input mask rolled on by `i` blocks, and
/// leaves the input mask rolled on by one more than the number of blocks.
pub proof fn lemma_message(m: DeckState, msg: Seq<u8>, ds: u8, width: nat, offset: nat)
    requires
        m.wf(),
        !m.finalized,
        m.pending.len() == 0,
    ensures
        ({
            let f = m.absorb(msg).finalize(ds, width, offset);
            &&& f.acc == message_acc(m.imask, m.acc, msg, pad_byte(ds, width))
            &&& f.imask == message_mask(m.imask, msg)
        }),
{
    let q = msg.len() / 48;
    let last = pad_byte(ds, width);
    let padded = pad_message(msg, last);
    let tail = msg.subrange(48 * (q as int), msg.len() as int);
    assert(m.pending + msg =~= msg);
    lemma_absorb_blocks_fold(m.imask, m.acc, msg);
    lemma_fold_prefix(m.imask, m.acc, msg, padded, q);
    assert(block(padded, q as int) =~= pad_block(tail, last));
    let a = m.absorb(msg);
    assert(a.imask == roll_xc_iter(m.imask, q));
    assert(a.acc == fold_blocks(m.imask, m.acc, msg, q));
    assert(a.pending == tail);
    let f = a.finalize(ds, width, offset);
    assert(f.acc == accumulate(a.acc, a.imask, pad_block(tail, last)));
    assert(fold_blocks(m.imask, m.acc, padded, q + 1) == accumulate(
        fold_blocks(m.imask, m.acc, padded, q),
        roll_xc_iter(m.imask, q),
        block(padded, q as int),
    ));
    assert(roll_xc_iter(m.imask, q + 1) == roll_xc_spec(roll_xc_iter(m.imask, q)));
    assert(roll_xc_iter(m.imask, q + 2) == roll_xc_spec(roll_xc_iter(m.imask, q + 1)));
}

/// A sequence of two messages: after the first message has been absorbed
/// and closed, any number of bytes squeezed, the state restarted and the
/// second message absorbed and closed, the accumulator holds the blocks of
/// both messages, each under its own mask: block `i` of the first message
/// under the key mask rolled on by `i` blocks, the blocks of the second
/// under the masks that follow, with one mask left out between the
/// messages.
pub proof fn lemma_restart_chains(
    key: Seq<u8>,
    first: Seq<u8>,
    ds1: u8,
    width1: nat,
    offset1: nat,
    squeezed: nat,
    second: Seq<u8>,
    ds2: u8,
    width2: nat,
    offset2: nat,
)
    requires
        offset1 <= 48,
    ensures
        ({
            let k = DeckState::init(key).imask;
            let one = DeckState::init(key).absorb(first).finalize(ds1, width1, offset1);
            let two = one.squeeze(squeezed).1.restart().absorb(second).finalize(
                ds2,
                width2,
                offset2,
            );
            &&& one.acc == message_acc(k, zero_words(), first, pad_byte(ds1, width1))
            &&& one.imask == message_mask(k, first)
            &&& two.acc == message_acc(one.imask, one.acc, second, pad_byte(ds2, width2))
            &&& two.imask == message_mask(one.imask, second)
        }),
{
    let m = DeckState::init(key);
    lemma_init_wf(key);
    lemma_message(m, first, ds1, width1, offset1);
    lemma_absorb_wf(m, first);
    let one = m.absorb(first).finalize(ds1, width1, offset1);
    lemma_finalize_wf(m.absorb(first), ds1, width1, offset1);
    lemma_squeeze_wf(one, squeezed);
    let drained = one.squeeze(squeezed).1;
    lemma_restart_wf(drained);
    lemma_message(drained.restart(), second, ds2, width2, offset2);
}

/// The output mask `y` rolled on by `n` blocks.
pub open spec fn roll_xe_iter(y: Seq<u32>, n: nat) -> Seq<u32>
    decreases n,
{
    if n == 0 {
        y
    } else {
        roll_xe_spec(roll_xe_iter(y, (n - 1) as nat))
    }
}

/// Block `j` of the output of a finalized state: the permuted accumulator,
/// rolled on by `j` blocks, permuted again and added to the input mask.
pub open spec fn stream_block(f: DeckState, j: nat) -> Seq<u8> {
    output_block(roll_xe_iter(permute_spec(f.acc, ROUNDS as nat), j), f.imask)
}

/// The state of a finalized state's output at the start of block `j`.
pub open spec fn stream_state(f: DeckState, j: nat) -> DeckState {
    DeckState {
        omask: roll_xe_iter(permute_spec(f.acc, ROUNDS as nat), j + 1),
        oblk: stream_block(f, j),
        ooff: 0,
        ..f
    }
}

/// The output is a stream of blocks: after finalizing with no offset,
/// bytes `48 * j .. 48 * j + 48` of the output are block `j` of the stream,
/// and the state after `48 * j` bytes is the state at the start of block
/// `j`.
pub proof fn lemma_output_blocks(m: DeckState, ds: u8, width: nat, j: nat)
    requires
        m.wf(),
        !m.finalized,
    ensures
        ({
            let f = m.finalize(ds, width, 0);
            &&& f.squeeze(48 * j).1 == stream_state(f, j)
            &&& f.squeeze(48 * j + 48).0.subrange(48 * (j as int), 48 * (j as int) + 48) == stream_block(
                f,
                j,
            )
        }),
    decreases j,
{
    let f = m.finalize(ds, width, 0);
    let y = permute_spec(f.acc, ROUNDS as nat);
    lemma_finalize_wf(m, ds, width, 0);
    if j == 0 {
        assert(roll_xe_iter(y, 0) == y);
        assert(roll_xe_iter(y, 1) == roll_xe_spec(roll_xe_iter(y, 0)));
        assert(f == stream_state(f, 0));
    } else {
        lemma_output_blocks(m, ds, width, (j - 1) as nat);
        let before = stream_state(f, (j - 1) as nat);
        lemma_squeeze_append(f, (48 * (j - 1)) as nat, 48);
        lemma_squeeze_chunk(before, 48, 48);
        assert(roll_xe_iter(y, j + 1) == roll_xe_spec(roll_xe_iter(y, j)));
        assert(DeckState { ooff: 48, ..before }.refill_if_used_up() == stream_state(f, j));
    }
    let here = stream_state(f, j);
    lemma_squeeze_append(f, 48 * j, 48);
    lemma_squeeze_wf(f, 48 * j);
    lemma_squeeze_chunk(here, 48, 48);
    assert(here.oblk.len() == 48);
    assert(here.oblk.subrange(0, 48) =~= here.oblk);
    let tail = DeckState { ooff: 48, ..here }.refill_if_used_up().squeeze(0).0;
    assert(tail =~= Seq::empty());
    assert((f.squeeze(48 * j).0 + (here.oblk + tail)).subrange(48 * (j as int), 48 * (j as int) + 48)
        =~= here.oblk);
}

/// The offset given to finalizing skips that many bytes at the start of the
/// output: what comes out is the output without offset, from byte `offset`
/// on.
pub proof fn lemma_offset_skips(m: DeckState, ds: u8, width: nat, offset: nat, n: nat)
    requires
        m.wf(),
        !m.finalized,
        offset <= 48,
    ensures
        m.finalize(ds, width, offset).squeeze(n).0 == m.finalize(ds, width, 0).squeeze(
            offset + n,
        ).0.subrange(offset as int, (offset + n) as int),
{
    let whole = m.finalize(ds, width, 0);
    let late = m.finalize(ds, width, offset);
    lemma_finalize_wf(m, ds, width, 0);
    lemma_finalize_wf(m, ds, width, offset);
    assert(late == DeckState { ooff: offset, ..whole });
    let moved = late.refill_if_used_up();
    if n > 0 {
        lemma_squeeze_chunk(whole, offset + n, offset);
        lemma_squeeze_chunk(late, n, 0);
        assert(late.oblk.subrange(offset as int, offset as int) =~= Seq::empty());
        assert(Seq::<u8>::empty() + moved.squeeze(n).0 =~= moved.squeeze(n).0);
        lemma_squeeze_wf(late, n);
        let skipped = whole.oblk.subrange(0, offset as int);
        assert((skipped + moved.squeeze(n).0).subrange(offset as int, (offset + n) as int)
            =~= moved.squeeze(n).0);
    } else {
        lemma_squeeze_wf(whole, offset);
        assert(whole.squeeze(offset).0.subrange(offset as int, offset as int) =~= Seq::empty());
    }
}

} // verus!
