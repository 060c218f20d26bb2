//! Big-endian scalar access into byte buffers.

use vstd::prelude::*;

verus! {

/// The four bytes that hold `x`, most significant byte first.
pub open spec fn be32(x: u32) -> Seq<u8> {
    seq![
        (x / 0x100_0000) as u8,
        (x / 0x1_0000 % 0x100) as u8,
        (x / 0x100 % 0x100) as u8,
        (x % 0x100) as u8,
    ]
}

/// The two bytes that hold `x`, most significant byte first.
pub open spec fn be16(x: u16) -> Seq<u8> {
    seq![(x / 0x100) as u8, (x % 0x100) as u8]
}

/// The number whose big-endian encoding is `b[at]`, .., `b[at + 3]`.
pub open spec fn word_at(b: Seq<u8>, at: int) -> u32
    recommends
        0 <= at,
        at + 4 <= b.len(),
{
    (b[at] * 0x100_0000 + b[at + 1] * 0x1_0000 + b[at + 2] * 0x100 + b[at + 3]) as u32
}

/// The number whose big-endian encoding is `b[at]`, `b[at + 1]`.
pub open spec fn half_at(b: Seq<u8>, at: int) -> u16
    recommends
        0 <= at,
        at + 2 <= b.len(),
{
    (b[at] * 0x100 + b[at + 1]) as u16
}

/// `b` with the four bytes from `at` on replaced by the encoding of `x`.
pub open spec fn with_word(b: Seq<u8>, at: int, x: u32) -> Seq<u8>
    recommends
        0 <= at,
        at + 4 <= b.len(),
{
    b.update(at, be32(x)[0]).update(at + 1, be32(x)[1]).update(at + 2, be32(x)[2]).update(
        at + 3,
        be32(x)[3],
    )
}

/// `b` with the two bytes from `at` on replaced by the encoding of `x`.
pub open spec fn with_half(b: Seq<u8>, at: int, x: u16) -> Seq<u8>
    recommends
        0 <= at,
        at + 2 <= b.len(),
{
    b.update(at, be16(x)[0]).update(at + 1, be16(x)[1])
}

/// The concatenated big-endian encodings of the numbers in `words`.
pub open spec fn words_bytes(words: Seq<u32>) -> Seq<u8> {
    Seq::new(4 * words.len(), |j: int| be32(words[j / 4])[j % 4])
}

/// The `n` numbers held big-endian, one after the other, in `b` from `at` on.
pub open spec fn words_at(b: Seq<u8>, at: int, n: nat) -> Seq<u32>
    recommends
        0 <= at,
        at + 4 * n <= b.len(),
{
    Seq::new(n, |i: int| word_at(b, at + 4 * i))
}

/// Decoding undoes encoding: wherever the four bytes of `x` stand, `x` is read.
pub proof fn lemma_word_at_be32(b: Seq<u8>, at: int, x: u32)
    requires
        0 <= at,
        at + 4 <= b.len(),
        b.subrange(at, at + 4) == be32(x),
    ensures
        word_at(b, at) == x,
{
    let e = b.subrange(at, at + 4);
    assert(e[0] == b[at] && e[1] == b[at + 1] && e[2] == b[at + 2] && e[3] == b[at + 3]);
}

/// The encoding of a list extended by `x` is the list's encoding followed by
/// the bytes of `x`.
pub proof fn lemma_words_bytes_push(words: Seq<u32>, x: u32)
    ensures
        words_bytes(words.push(x)) == words_bytes(words) + be32(x),
{
    assert(words_bytes(words.push(x)) =~= words_bytes(words) + be32(x));
}

/// Reading back an encoded list gives the list.
pub proof fn lemma_words_at_bytes(b: Seq<u8>, at: int, words: Seq<u32>)
    requires
        0 <= at,
        at + 4 * words.len() <= b.len(),
        b.subrange(at, at + 4 * words.len()) == words_bytes(words),
    ensures
        words_at(b, at, words.len()) == words,
{
    assert forall|i: int| 0 <= i < words.len() implies word_at(b, at + 4 * i) == words[i] by {
        let e = b.subrange(at, at + 4 * words.len());
        assert(b.subrange(at + 4 * i, at + 4 * i + 4) =~= be32(words[i])) by {
            assert forall|k: int| 0 <= k < 4 implies b[at + 4 * i + k] == be32(words[i])[k] by {
                assert(e[4 * i + k] == b[at + 4 * i + k]);
                assert((4 * i + k) / 4 == i && (4 * i + k) % 4 == k);
            }
        }
        lemma_word_at_be32(b, at + 4 * i, words[i]);
    }
    assert(words_at(b, at, words.len()) =~= words);
}

/// Reads the big-endian 32-bit number at `offset`.
pub fn read_u32(bytes: &[u8], offset: u32) -> (r: u32)
    requires
        offset + 4 <= bytes@.len(),
    ensures
        r == word_at(bytes@, offset as int),
{
    let i = offset as usize;
    let b0 = bytes[i] as u32;
    let b1 = bytes[i + 1] as u32;
    let b2 = bytes[i + 2] as u32;
    let b3 = bytes[i + 3] as u32;
    b0 * 0x100_0000 + b1 * 0x1_0000 + b2 * 0x100 + b3
}

/// Appends the big-endian encoding of `n`.
pub fn push_u32(bytes: &mut Vec<u8>, n: u32)
    ensures
        final(bytes)@ == old(bytes)@ + be32(n),
{
    bytes.push((n / 0x100_0000) as u8);
    bytes.push((n / 0x1_0000 % 0x100) as u8);
    bytes.push((n / 0x100 % 0x100) as u8);
    bytes.push((n % 0x100) as u8);
}

/// Overwrites the four bytes at `offset` with the big-endian encoding of `data`.
pub fn write_u32(bytes: &mut [u8], offset: u32, data: u32)
    requires
        offset + 4 <= old(bytes)@.len(),
    ensures
        final(bytes)@ == with_word(old(bytes)@, offset as int, data),
{
    let i = offset as usize;
    bytes[i] = (data / 0x100_0000) as u8;
    bytes[i + 1] = (data / 0x1_0000 % 0x100) as u8;
    bytes[i + 2] = (data / 0x100 % 0x100) as u8;
    bytes[i + 3] = (data % 0x100) as u8;
}

/// Reads the big-endian 16-bit number at `offset`.
pub fn read_u16(bytes: &[u8], offset: u32) -> (r: u16)
    requires
        offset + 2 <= bytes@.len(),
    ensures
        r == half_at(bytes@, offset as int),
{
    let i = offset as usize;
    let b0 = bytes[i] as u16;
    let b1 = bytes[i + 1] as u16;
    b0 * 0x100 + b1
}

/// Overwrites the two bytes at `offset` with the big-endian encoding of `data`.
pub fn write_u16(bytes: &mut [u8], offset: u32, data: u16)
    requires
        offset + 2 <= old(bytes)@.len(),
    ensures
        final(bytes)@ == with_half(old(bytes)@, offset as int, data),
{
    let i = offset as usize;
    bytes[i] = (data / 0x100) as u8;
    bytes[i + 1] = (data % 0x100) as u8;
}

} // verus!
