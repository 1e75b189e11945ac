//! Blocks of 48 bytes: how they are padded and how they are read as twelve
//! little-endian lanes.

use vstd::prelude::*;

verus! {

/// Number of bytes of a block: the width of the permutation.
pub const BLOCK_SIZE: usize = 48;

/// Number of 32-bit lanes of a block.
pub const LANE_CNT: usize = 12;

/// `n` zero bytes.
pub open spec fn zero_bytes(n: nat) -> Seq<u8> {
    Seq::new(n, |i: int| 0u8)
}

/// Twelve zero lanes.
pub open spec fn zero_words() -> Seq<u32> {
    Seq::new(12, |i: int| 0u32)
}

/// The lane whose four bytes are `b0`, `b1`, `b2`, `b3`, least significant
/// first.
pub open spec fn le_word(b0: u8, b1: u8, b2: u8, b3: u8) -> u32 {
    (b0 as u32) | ((b1 as u32) << 8u32) | ((b2 as u32) << 16u32) | ((b3 as u32) << 24u32)
}

/// Byte `j` of lane `w`, counted from the least significant.
pub open spec fn le_byte(w: u32, j: int) -> u8 {
    ((w >> ((8 * j) as u32)) & 0xffu32) as u8
}

/// A block of 48 bytes read as twelve lanes: bytes `4 * i .. 4 * i + 4`
/// make lane `i`.
pub open spec fn bytes_to_words(bytes: Seq<u8>) -> Seq<u32> {
    Seq::new(
        12,
        |i: int| le_word(bytes[4 * i], bytes[4 * i + 1], bytes[4 * i + 2], bytes[4 * i + 3]),
    )
}

/// Twelve lanes written out as a block of 48 bytes.
pub open spec fn words_to_bytes(words: Seq<u32>) -> Seq<u8> {
    Seq::new(48, |i: int| le_byte(words[i / 4], i % 4))
}

/// Two states added lane by lane.
pub open spec fn xor_words(a: Seq<u32>, b: Seq<u32>) -> Seq<u32> {
    Seq::new(12, |i: int| a[i] ^ b[i])
}

/// A message shorter than a block, closed by the byte `last` and filled up
/// with zero bytes to a whole block.
pub open spec fn pad_block(msg: Seq<u8>, last: u8) -> Seq<u8> {
    msg + seq![last] + zero_bytes((47 - msg.len()) as nat)
}

/// A message shorter than a block, padded to a whole block by a single one
/// bit and zero bits.
pub open spec fn pad10x_spec(msg: Seq<u8>) -> Seq<u8> {
    pad_block(msg, 0x01)
}

/// Closes `buf` after its first `len` bytes with the byte `last` and clears
/// what follows.
pub fn close_block(buf: &mut [u8; 48], len: usize, last: u8)
    requires
        len < 48,
    ensures
        final(buf)@ == pad_block(old(buf)@.subrange(0, len as int), last),
{
    let ghost head = buf@.subrange(0, len as int);
    buf[len] = last;
    let mut i: usize = len + 1;
    while i < 48
        invariant
            len < i <= 48,
            buf@.subrange(0, len as int) == head,
            buf@[len as int] == last,
            forall|j: int| len < j < i ==> buf@[j] == 0u8,
        decreases 48 - i,
    {
        buf[i] = 0;
        i += 1;
        assert(buf@.subrange(0, len as int) =~= head);
    }
    assert(buf@ =~= pad_block(head, last)) by {
        assert forall|j: int| 0 <= j < 48 implies buf@[j] == pad_block(head, last)[j] by {
            if j < len {
                assert(buf@[j] == buf@.subrange(0, len as int)[j]);
            }
        }
    }
}

/// Pads a message shorter than a block to a whole block: the message, the
/// byte `0x01`, then zero bytes.
pub fn pad10x(msg: &[u8]) -> (res: [u8; 48])
    requires
        msg@.len() < 48,
    ensures
        res@ == pad10x_spec(msg@),
{
    let mlen: usize = msg.len();
    let mut res: [u8; 48] = [0u8; 48];
    let mut i: usize = 0;
    while i < mlen
        invariant
            i <= mlen,
            mlen == msg@.len(),
            mlen < 48,
            forall|j: int| 0 <= j < i ==> res@[j] == msg@[j],
        decreases mlen - i,
    {
        res[i] = msg[i];
        i += 1;
    }
    assert(res@.subrange(0, mlen as int) =~= msg@);
    close_block(&mut res, mlen, 0x01);
    res
}

/// The bytes `dst` with the `n` bytes of `src` from position `from` on
/// written over those from position `at` on.
pub open spec fn overwrite(dst: Seq<u8>, at: int, src: Seq<u8>, from: int, n: int) -> Seq<u8> {
    dst.subrange(0, at) + src.subrange(from, from + n) + dst.subrange(at + n, dst.len() as int)
}

/// The buffer of 48 bytes `buf` after the bytes `data` have been written
/// through it from its start on, each block of them over the one before: at
/// each position the last byte of `data` that came to lie there, or the byte
/// of `buf` where none did.
pub open spec fn written_through(buf: Seq<u8>, data: Seq<u8>) -> Seq<u8> {
    Seq::new(
        48,
        |p: int|
            if p < data.len() {
                data[p + 48 * ((data.len() - 1 - p) / 48)]
            } else {
                buf[p]
            },
    )
}

/// Writing nothing through a buffer leaves it as it is, and so does writing
/// its own first bytes.
pub proof fn lemma_written_through_prefix(buf: Seq<u8>, len: int)
    requires
        buf.len() == 48,
        0 <= len < 48,
    ensures
        written_through(buf, buf.subrange(0, len)) == buf,
{
    assert(written_through(buf, buf.subrange(0, len)) =~= buf);
}

/// Writing more bytes through a buffer, up to the end of the block that is
/// being filled, overwrites the bytes at the positions that follow.
pub proof fn lemma_written_through_more(buf: Seq<u8>, data: Seq<u8>, more: Seq<u8>)
    requires
        buf.len() == 48,
        data.len() % 48 + more.len() <= 48,
    ensures
        written_through(buf, data + more) == overwrite(
            written_through(buf, data),
            (data.len() % 48) as int,
            more,
            0,
            more.len() as int,
        ),
{
    let at = (data.len() % 48) as int;
    let full = data.len() / 48;
    let n = more.len() as int;
    let all = data + more;
    let a = written_through(buf, all);
    let b = overwrite(written_through(buf, data), at, more, 0, n);
    assert(data.len() == 48 * full + at);
    assert forall|p: int| 0 <= p < 48 implies a[p] == b[p] by {
        if p < at {
            assert((data.len() - 1 - p) / 48 == full);
            assert((all.len() - 1 - p) / 48 == full);
        } else if p < at + n {
            assert((all.len() - 1 - p) / 48 == full);
        } else if full > 0 {
            assert((data.len() - 1 - p) / 48 == full - 1);
            assert((all.len() - 1 - p) / 48 == full - 1);
        }
    }
    assert(a =~= b);
}

/// Copies `n` bytes of `src`, from position `from` on, into `dst` from
/// position `at` on.
pub fn copy_bytes(dst: &mut [u8], at: usize, src: &[u8], from: usize, n: usize)
    requires
        at + n <= old(dst)@.len(),
        from + n <= src@.len(),
    ensures
        final(dst)@ == overwrite(old(dst)@, at as int, src@, from as int, n as int),
{
    let ghost before = dst@;
    let dst_len: usize = dst.len();
    let src_len: usize = src.len();
    let mut i: usize = 0;
    while i < n
        invariant
            i <= n,
            at + n <= dst_len,
            from + n <= src_len,
            dst_len == dst@.len(),
            src_len == src@.len(),
            before.len() == dst_len,
            forall|j: int| 0 <= j < at ==> dst@[j] == before[j],
            forall|j: int| at <= j < at + i ==> dst@[j] == src@[from + j - at],
            forall|j: int| at + i <= j < dst_len ==> dst@[j] == before[j],
        decreases n - i,
    {
        dst[at + i] = src[from + i];
        i += 1;
    }
    assert(dst@ =~= overwrite(before, at as int, src@, from as int, n as int));
}

/// Reads four bytes as a lane, least significant byte first.
pub fn word_from_le_bytes(b0: u8, b1: u8, b2: u8, b3: u8) -> (w: u32)
    ensures
        w == le_word(b0, b1, b2, b3),
{
    (b0 as u32) | ((b1 as u32) << 8) | ((b2 as u32) << 16) | ((b3 as u32) << 24)
}

/// Reads a block as twelve little-endian lanes.
pub fn bytes_to_le_words(bytes: &[u8; 48]) -> (words: [u32; 12])
    ensures
        words@ == bytes_to_words(bytes@),
{
    let mut words: [u32; 12] = [0u32; 12];
    let mut i: usize = 0;
    while i < 12
        invariant
            i <= 12,
            forall|j: int| 0 <= j < i ==> words@[j] == bytes_to_words(bytes@)[j],
        decreases 12 - i,
    {
        words[i] = word_from_le_bytes(
            bytes[4 * i],
            bytes[4 * i + 1],
            bytes[4 * i + 2],
            bytes[4 * i + 3],
        );
        i += 1;
    }
    assert(words@ =~= bytes_to_words(bytes@));
    words
}

/// Writes twelve lanes out as a block, each lane least significant byte
/// first.
pub fn words_to_le_bytes(words: &[u32; 12], bytes: &mut [u8; 48])
    ensures
        final(bytes)@ == words_to_bytes(words@),
{
    let mut i: usize = 0;
    while i < 12
        invariant
            i <= 12,
            forall|j: int| 0 <= j < 4 * i ==> bytes@[j] == words_to_bytes(words@)[j],
        decreases 12 - i,
    {
        let w: u32 = words[i];
        assert(w & 0xff <= 0xff && (w >> 8) & 0xff <= 0xff && (w >> 16) & 0xff <= 0xff && (w >> 24)
            & 0xff <= 0xff) by (bit_vector);
        bytes[4 * i] = (w & 0xff) as u8;
        bytes[4 * i + 1] = ((w >> 8) & 0xff) as u8;
        bytes[4 * i + 2] = ((w >> 16) & 0xff) as u8;
        bytes[4 * i + 3] = ((w >> 24) & 0xff) as u8;
        assert(w >> 0 == w) by (bit_vector);
        i += 1;
    }
    assert(bytes@ =~= words_to_bytes(words@));
}

/// Adds `src` to `dst`, lane by lane.
pub fn xor_into(dst: &mut [u32; 12], src: &[u32; 12])
    ensures
        final(dst)@ == xor_words(old(dst)@, src@),
{
    let ghost before = dst@;
    let mut i: usize = 0;
    while i < 12
        invariant
            i <= 12,
            forall|j: int| 0 <= j < i ==> dst@[j] == before[j] ^ src@[j],
            forall|j: int| i <= j < 12 ==> dst@[j] == before[j],
        decreases 12 - i,
    {
        dst[i] = dst[i] ^ src[i];
        i += 1;
    }
    assert(dst@ =~= xor_words(before, src@));
}

} // verus!
