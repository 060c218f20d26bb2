//! The relocation bitmap: one bit for each four-byte word of the data
//! section, packed into chunks of 64 words.

use vstd::prelude::*;
use crate::bytes::{be32, push_u32, read_u32, words_at, words_bytes, lemma_words_bytes_push};

verus! {

/// Whether bit number `bit` of `chunk` is set.
pub open spec fn bit_set(chunk: u64, bit: u64) -> bool {
    chunk & (1u64 << bit) != 0
}

/// The number of chunks that cover a data section of `data_size` bytes.
pub open spec fn chunks_for(data_size: nat) -> nat {
    (data_size + 255) / 256
}

/// `chunks` followed by as many empty chunks as it takes to reach length `n`.
pub open spec fn grown(chunks: Seq<u64>, n: nat) -> Seq<u64> {
    if chunks.len() >= n {
        chunks
    } else {
        chunks + Seq::new((n - chunks.len()) as nat, |i: int| 0u64)
    }
}

/// Whether the word with index `word` is marked as holding a relocatable
/// offset. Words past the end of the bitmap are unmarked.
pub open spec fn is_marked(chunks: Seq<u64>, word: int) -> bool {
    &&& 0 <= word
    &&& word / 64 < chunks.len()
    &&& bit_set(chunks[word / 64], (word % 64) as u64)
}

/// The bitmap after marking `word`; it grows to hold the word's chunk.
pub open spec fn set_mark(chunks: Seq<u64>, word: int) -> Seq<u64>
    recommends
        0 <= word,
{
    let g = grown(chunks, (word / 64 + 1) as nat);
    g.update(word / 64, g[word / 64] | (1u64 << ((word % 64) as u64)))
}

/// The bitmap after unmarking `word`; it grows to hold the word's chunk.
pub open spec fn clear_mark(chunks: Seq<u64>, word: int) -> Seq<u64>
    recommends
        0 <= word,
{
    let g = grown(chunks, (word / 64 + 1) as nat);
    g.update(word / 64, g[word / 64] & !(1u64 << ((word % 64) as u64)))
}

/// The byte offsets of the marked words with index below `n`, in ascending
/// order.
pub open spec fn marked_offsets(chunks: Seq<u64>, n: nat) -> Seq<u32>
    decreases n,
{
    if n == 0 {
        Seq::empty()
    } else {
        let rest = marked_offsets(chunks, (n - 1) as nat);
        if is_marked(chunks, n - 1) {
            rest.push((4 * (n - 1)) as u32)
        } else {
            rest
        }
    }
}

/// The relocation list of a bitmap: the byte offset of every marked word,
/// ascending and without duplicates.
pub open spec fn encode(chunks: Seq<u64>) -> Seq<u32> {
    marked_offsets(chunks, 64 * chunks.len())
}

/// The bitmap of a relocation list for a data section of `data_size` bytes:
/// it starts out with the chunks that cover the data section, all empty, and
/// each offset in turn marks the word it lies in.
pub open spec fn decode(offsets: Seq<u32>, data_size: nat) -> Seq<u64>
    decreases offsets.len(),
{
    if offsets.len() == 0 {
        Seq::new(chunks_for(data_size), |i: int| 0u64)
    } else {
        set_mark(decode(offsets.drop_last(), data_size), offsets.last() as int / 4)
    }
}

/// Whether the byte offset of every marked word fits in 32 bits.
pub open spec fn addressable(chunks: Seq<u64>) -> bool {
    forall|word: int| is_marked(chunks, word) ==> word < 0x4000_0000
}

/// Whether the bitmap is as long as its marks and a data section of
/// `data_size` bytes make it, and no longer: it covers the data section, and
/// if it reaches past the data section, its last chunk holds a mark.
pub open spec fn tight(chunks: Seq<u64>, data_size: nat) -> bool {
    &&& chunks.len() >= chunks_for(data_size)
    &&& chunks.len() > chunks_for(data_size) ==> chunks.last() != 0
}

/// Whether `offsets` holds an offset that lies in the word `word`.
pub open spec fn lists(offsets: Seq<u32>, word: int) -> bool {
    exists|i: int| 0 <= i < offsets.len() && (#[trigger] offsets[i]) as int / 4 == word
}

/// Reports whether the word at byte offset `offset` is marked.
pub fn check(chunks: &Vec<u64>, offset: u32) -> (r: bool)
    ensures
        r == is_marked(chunks@, offset as int / 4),
{
    let word = offset / 4;
    let idx = (word / 64) as usize;
    let bit = (word % 64) as u64;
    if chunks.len() <= idx {
        return false;
    }
    chunks[idx] & (1u64 << bit) != 0
}

/// Extends `chunks` with empty chunks up to length `n`.
fn grow(chunks: &mut Vec<u64>, n: usize)
    ensures
        final(chunks)@ == grown(old(chunks)@, n as nat),
{
    if chunks.len() < n {
        chunks.resize(n, 0u64);
        assert(chunks@ =~= grown(old(chunks)@, n as nat));
    }
}

/// Marks the word at byte offset `offset`.
pub fn set(chunks: &mut Vec<u64>, offset: u32)
    ensures
        final(chunks)@ == set_mark(old(chunks)@, offset as int / 4),
{
    let word = offset / 4;
    let idx = (word / 64) as usize;
    let bit = (word % 64) as u64;
    grow(chunks, idx + 1);
    let prev = chunks[idx];
    chunks[idx] = prev | (1u64 << bit);
}

/// Unmarks the word at byte offset `offset`.
pub fn clear(chunks: &mut Vec<u64>, offset: u32)
    ensures
        final(chunks)@ == clear_mark(old(chunks)@, offset as int / 4),
{
    let word = offset / 4;
    let idx = (word / 64) as usize;
    let bit = (word % 64) as u64;
    grow(chunks, idx + 1);
    let prev = chunks[idx];
    chunks[idx] = prev & !(1u64 << bit);
}

/// Reports whether the byte offset of every marked word fits in 32 bits:
/// whether every chunk from number 2^24 on is empty.
pub fn is_addressable(chunks: &Vec<u64>) -> (ok: bool)
    ensures
        ok == addressable(chunks@),
{
    let mut i: usize = 0x100_0000;
    while i < chunks.len()
        invariant
            0x100_0000 <= i,
            forall|k: int| 0x100_0000 <= k < i && k < chunks.len() ==> chunks@[k] == 0,
        decreases chunks.len() - i,
    {
        if chunks[i] != 0 {
            proof {
                lemma_nonzero_has_bit(chunks@[i as int]);
                let bit = choose|bit: u64| bit < 64 && bit_set(chunks@[i as int], bit);
                let word = 64 * i + bit;
                assert(word / 64 == i && word % 64 == bit);
                assert(is_marked(chunks@, word));
            }
            return false;
        }
        i = i + 1;
    }
    proof {
        assert forall|word: int| is_marked(chunks@, word) implies word < 0x4000_0000 by {
            if word >= 0x4000_0000 {
                lemma_bit_zero((word % 64) as u64);
            }
        }
    }
    true
}

/// Counts the marked words.
pub fn count_marked(chunks: &Vec<u64>) -> (count: u32)
    requires
        addressable(chunks@),
    ensures
        count == encode(chunks@).len(),
{
    let mut count: u32 = 0;
    let mut i: usize = 0;
    while i < chunks.len()
        invariant
            i <= chunks.len(),
            addressable(chunks@),
            count == marked_offsets(chunks@, 64 * (i as nat)).len(),
        decreases chunks.len() - i,
    {
        let chunk = chunks[i];
        let mut b: u64 = 0;
        while b < 64
            invariant
                i < chunks.len(),
                chunk == chunks@[i as int],
                b <= 64,
                addressable(chunks@),
                count == marked_offsets(chunks@, (64 * i + b) as nat).len(),
            decreases 64 - b,
        {
            let ghost word = 64 * i + b;
            assert(word / 64 == i && word % 64 == b);
            if chunk & (1u64 << b) != 0 {
                proof {
                    assert(is_marked(chunks@, word));
                    lemma_marked_offsets_len(chunks@, word as nat);
                }
                count = count + 1;
            }
            b = b + 1;
        }
        i = i + 1;
    }
    count
}

/// Appends the relocation list of `chunks`, each offset as a big-endian word.
pub fn push_offsets(out: &mut Vec<u8>, chunks: &Vec<u64>)
    requires
        addressable(chunks@),
    ensures
        final(out)@ == old(out)@ + words_bytes(encode(chunks@)),
{
    assert(out@ =~= old(out)@ + words_bytes(marked_offsets(chunks@, 0)));
    let mut i: usize = 0;
    while i < chunks.len()
        invariant
            i <= chunks.len(),
            addressable(chunks@),
            out@ == old(out)@ + words_bytes(marked_offsets(chunks@, 64 * (i as nat))),
        decreases chunks.len() - i,
    {
        let chunk = chunks[i];
        let mut b: u64 = 0;
        while b < 64
            invariant
                i < chunks.len(),
                chunk == chunks@[i as int],
                b <= 64,
                addressable(chunks@),
                out@ == old(out)@ + words_bytes(marked_offsets(chunks@, (64 * i + b) as nat)),
            decreases 64 - b,
        {
            let ghost word = 64 * i + b;
            assert(word / 64 == i && word % 64 == b);
            if chunk & (1u64 << b) != 0 {
                assert(is_marked(chunks@, word));
                let target = ((i as u64 * 64 + b) * 4) as u32;
                proof {
                    let before = marked_offsets(chunks@, word as nat);
                    lemma_words_bytes_push(before, target);
                    assert(old(out)@ + words_bytes(before) + be32(target) =~= old(out)@ + (
                    words_bytes(before) + be32(target)));
                }
                push_u32(out, target);
            }
            b = b + 1;
        }
        i = i + 1;
    }
}

/// Builds the bitmap for a data section of `data_size` bytes from the
/// `count` big-endian offsets that stand in `bytes` from `at` on.
pub fn decode_at(bytes: &[u8], at: u32, count: u32, data_size: u32) -> (chunks: Vec<u64>)
    requires
        at + 4 * count <= bytes@.len(),
        at + 4 * count <= u32::MAX,
    ensures
        chunks@ == decode(words_at(bytes@, at as int, count as nat), data_size as nat),
{
    let n = ((data_size as u64 + 255) / 256) as usize;
    let mut chunks: Vec<u64> = Vec::new();
    grow(&mut chunks, n);
    assert(chunks@ =~= decode(words_at(bytes@, at as int, 0), data_size as nat));
    let mut i: u32 = 0;
    while i < count
        invariant
            i <= count,
            at + 4 * count <= bytes@.len(),
            at + 4 * count <= u32::MAX,
            chunks@ == decode(words_at(bytes@, at as int, i as nat), data_size as nat),
        decreases count - i,
    {
        let offset = read_u32(bytes, at + i * 4);
        proof {
            let next = words_at(bytes@, at as int, (i + 1) as nat);
            assert(next.drop_last() =~= words_at(bytes@, at as int, i as nat));
            assert(next.last() == offset);
        }
        set(&mut chunks, offset);
        i = i + 1;
    }
    chunks
}

/// Setting bit `b` sets that bit and changes no other.
proof fn lemma_bit_or(c: u64, b: u64, other: u64)
    by (bit_vector)
    requires
        b < 64,
        other < 64,
    ensures
        bit_set(c | (1u64 << b), other) == (other == b || bit_set(c, other)),
{
}

/// Clearing bit `b` clears that bit and changes no other.
proof fn lemma_bit_and_not(c: u64, b: u64, other: u64)
    by (bit_vector)
    requires
        b < 64,
        other < 64,
    ensures
        bit_set(c & !(1u64 << b), other) == (other != b && bit_set(c, other)),
{
}

/// The empty chunk has no bit set.
proof fn lemma_bit_zero(other: u64)
    by (bit_vector)
    ensures
        !bit_set(0u64, other),
{
}

/// A chunk in which a bit was set is not empty.
proof fn lemma_bit_or_nonzero(c: u64, b: u64)
    by (bit_vector)
    requires
        b < 64,
    ensures
        c | (1u64 << b) != 0,
{
}

/// The lowest `k` bits of `x`.
spec fn low_bits(x: u64, k: u64) -> u64 {
    if k >= 64 {
        x
    } else {
        x & !(u64::MAX << k)
    }
}

/// The lowest zero bits of a chunk are the empty chunk.
proof fn lemma_low_bits_none(x: u64)
    by (bit_vector)
    ensures
        low_bits(x, 0) == 0,
{
}

/// Two chunks that agree in their lowest `k` bits and in bit `k` agree in
/// their lowest `k + 1` bits.
proof fn lemma_low_bits_step(x: u64, y: u64, k: u64, next: u64)
    by (bit_vector)
    requires
        k < 64,
        next == k + 1,
        low_bits(x, k) == low_bits(y, k),
        bit_set(x, k) == bit_set(y, k),
    ensures
        low_bits(x, next) == low_bits(y, next),
{
}

/// Two chunks with the same bits set agree in their lowest `k` bits.
proof fn lemma_low_bits_agree(x: u64, y: u64, k: u64)
    requires
        k <= 64,
        forall|bit: u64| bit < 64 ==> bit_set(x, bit) == bit_set(y, bit),
    ensures
        low_bits(x, k) == low_bits(y, k),
    decreases k,
{
    if k == 0 {
        lemma_low_bits_none(x);
        lemma_low_bits_none(y);
    } else {
        let prev = (k - 1) as u64;
        lemma_low_bits_agree(x, y, prev);
        lemma_low_bits_step(x, y, prev, k);
    }
}

/// Two chunks with the same bits set are the same chunk.
pub proof fn lemma_chunk_ext(x: u64, y: u64)
    requires
        forall|bit: u64| bit < 64 ==> bit_set(x, bit) == bit_set(y, bit),
    ensures
        x == y,
{
    lemma_low_bits_agree(x, y, 64);
}

/// A chunk other than zero has a bit set.
pub proof fn lemma_nonzero_has_bit(x: u64)
    requires
        x != 0,
    ensures
        exists|bit: u64| bit < 64 && bit_set(x, bit),
{
    if !(exists|bit: u64| bit < 64 && bit_set(x, bit)) {
        assert forall|bit: u64| bit < 64 implies bit_set(x, bit) == bit_set(0u64, bit) by {
            lemma_bit_zero(bit);
        }
        lemma_chunk_ext(x, 0);
    }
}

/// Growing a bitmap marks no word and unmarks none.
pub proof fn lemma_grown_marks(chunks: Seq<u64>, n: nat, word: int)
    ensures
        is_marked(grown(chunks, n), word) == is_marked(chunks, word),
        grown(chunks, n).len() == (if chunks.len() >= n { chunks.len() } else { n }),
{
    if 0 <= word && word / 64 < grown(chunks, n).len() && word / 64 >= chunks.len() {
        lemma_bit_zero((word % 64) as u64);
    }
}

/// Marking a word marks that word and changes no other.
pub proof fn lemma_set_mark(chunks: Seq<u64>, word: int, other: int)
    requires
        0 <= word,
    ensures
        is_marked(set_mark(chunks, word), other) == (other == word || is_marked(chunks, other)),
{
    let g = grown(chunks, (word / 64 + 1) as nat);
    lemma_grown_marks(chunks, (word / 64 + 1) as nat, other);
    if 0 <= other && other / 64 == word / 64 {
        lemma_bit_or(g[word / 64], (word % 64) as u64, (other % 64) as u64);
    }
}

/// Unmarking a word unmarks that word and changes no other.
pub proof fn lemma_clear_mark(chunks: Seq<u64>, word: int, other: int)
    requires
        0 <= word,
    ensures
        is_marked(clear_mark(chunks, word), other) == (other != word && is_marked(chunks, other)),
{
    let g = grown(chunks, (word / 64 + 1) as nat);
    lemma_grown_marks(chunks, (word / 64 + 1) as nat, other);
    if 0 <= other && other / 64 == word / 64 {
        lemma_bit_and_not(g[word / 64], (word % 64) as u64, (other % 64) as u64);
    }
}

/// A relocation list is never longer than the range of words it was taken from.
pub proof fn lemma_marked_offsets_len(chunks: Seq<u64>, n: nat)
    ensures
        marked_offsets(chunks, n).len() <= n,
    decreases n,
{
    if n > 0 {
        lemma_marked_offsets_len(chunks, (n - 1) as nat);
    }
}

/// Past the last marked word the relocation list grows no more.
pub proof fn lemma_marked_offsets_stable(chunks: Seq<u64>, m: nat, n: nat)
    requires
        m <= n,
        forall|word: int| is_marked(chunks, word) ==> word < m,
    ensures
        marked_offsets(chunks, n) == marked_offsets(chunks, m),
    decreases n,
{
    if m < n {
        lemma_marked_offsets_stable(chunks, m, (n - 1) as nat);
    }
}

/// Two bitmaps that mark the same words list the same offsets below `n`.
proof fn lemma_marked_offsets_same(a: Seq<u64>, b: Seq<u64>, n: nat)
    requires
        forall|word: int| is_marked(a, word) == is_marked(b, word),
    ensures
        marked_offsets(a, n) == marked_offsets(b, n),
    decreases n,
{
    if n > 0 {
        lemma_marked_offsets_same(a, b, (n - 1) as nat);
    }
}

/// Marking a word makes the list of offsets below `n` longer by one entry at
/// most, and no longer if the word is not below `n`.
proof fn lemma_marked_offsets_set(chunks: Seq<u64>, word: int, n: nat)
    requires
        0 <= word,
    ensures
        marked_offsets(set_mark(chunks, word), n).len() <= marked_offsets(chunks, n).len() + (if word
            < n {
            1nat
        } else {
            0nat
        }),
    decreases n,
{
    if n > 0 {
        lemma_marked_offsets_set(chunks, word, (n - 1) as nat);
        lemma_set_mark(chunks, word, n - 1);
    }
}

/// Every entry of a relocation list is the offset of a marked word, the
/// entries ascend strictly, and every marked word is listed.
pub proof fn lemma_marked_offsets(chunks: Seq<u64>, n: nat)
    requires
        addressable(chunks),
    ensures
        forall|i: int|
            0 <= i < marked_offsets(chunks, n).len() ==> (#[trigger] marked_offsets(chunks, n)[i])
                % 4 == 0 && marked_offsets(chunks, n)[i] / 4 < n && is_marked(
                chunks,
                marked_offsets(chunks, n)[i] as int / 4,
            ),
        forall|i: int, j: int|
            0 <= i < j < marked_offsets(chunks, n).len() ==> marked_offsets(chunks, n)[i]
                < marked_offsets(chunks, n)[j],
        forall|word: int|
            0 <= word < n && is_marked(chunks, word) ==> lists(marked_offsets(chunks, n), word),
    decreases n,
{
    if n > 0 {
        let rest = marked_offsets(chunks, (n - 1) as nat);
        let all = marked_offsets(chunks, n);
        lemma_marked_offsets(chunks, (n - 1) as nat);
        assert forall|word: int| 0 <= word < n && is_marked(chunks, word) implies lists(
            all,
            word,
        ) by {
            if word < n - 1 {
                let i = choose|i: int|
                    0 <= i < rest.len() && (#[trigger] rest[i]) as int / 4 == word;
                assert(all[i] == rest[i]);
            } else {
                assert(all[all.len() - 1] as int / 4 == word);
            }
        }
    }
}

/// The relocation list of an addressable bitmap has at most 2^30 entries.
pub proof fn lemma_encode_len(chunks: Seq<u64>)
    requires
        addressable(chunks),
    ensures
        encode(chunks).len() <= 0x4000_0000,
{
    let n = 64 * chunks.len();
    if n > 0x4000_0000 {
        lemma_marked_offsets_stable(chunks, 0x4000_0000, n);
    }
    lemma_marked_offsets_len(chunks, if n > 0x4000_0000 { 0x4000_0000 } else { n });
}

/// Two bitmaps that mark the same words have the same relocation list.
pub proof fn lemma_encode_same_marks(a: Seq<u64>, b: Seq<u64>)
    requires
        forall|word: int| is_marked(a, word) == is_marked(b, word),
    ensures
        encode(a) == encode(b),
{
    let n = if a.len() >= b.len() { 64 * a.len() } else { 64 * b.len() };
    lemma_marked_offsets_stable(a, 64 * a.len(), n);
    lemma_marked_offsets_stable(b, 64 * b.len(), n);
    lemma_marked_offsets_same(a, b, n);
}

/// Decoding marks the words that the offsets of the list lie in, and no
/// others. Offsets that lie in one word mark it once.
pub proof fn lemma_decode_marks(offsets: Seq<u32>, data_size: nat, word: int)
    ensures
        is_marked(decode(offsets, data_size), word) == lists(offsets, word),
    decreases offsets.len(),
{
    if offsets.len() == 0 {
        if 0 <= word {
            lemma_bit_zero((word % 64) as u64);
        }
    } else {
        let rest = offsets.drop_last();
        lemma_decode_marks(rest, data_size, word);
        lemma_set_mark(decode(rest, data_size), offsets.last() as int / 4, word);
        if lists(rest, word) {
            let i = choose|i: int| 0 <= i < rest.len() && (#[trigger] rest[i]) as int / 4 == word;
            assert(offsets[i] == rest[i]);
        }
        if lists(offsets, word) {
            let i = choose|i: int|
                0 <= i < offsets.len() && (#[trigger] offsets[i]) as int / 4 == word;
            if i < rest.len() {
                assert(rest[i] == offsets[i]);
            }
        }
    }
}

/// A decoded bitmap is tight for the data size it was decoded with.
pub proof fn lemma_decode_tight(offsets: Seq<u32>, data_size: nat)
    ensures
        tight(decode(offsets, data_size), data_size),
    decreases offsets.len(),
{
    if offsets.len() > 0 {
        let rest = decode(offsets.drop_last(), data_size);
        lemma_decode_tight(offsets.drop_last(), data_size);
        let word = offsets.last() as int / 4;
        let g = grown(rest, (word / 64 + 1) as nat);
        lemma_bit_or_nonzero(g[word / 64], (word % 64) as u64);
    }
}

/// The words that a decoded bitmap marks have offsets that fit in 32 bits.
pub proof fn lemma_decode_addressable(offsets: Seq<u32>, data_size: nat)
    ensures
        addressable(decode(offsets, data_size)),
{
    assert forall|word: int| is_marked(decode(offsets, data_size), word) implies word
        < 0x4000_0000 by {
        lemma_decode_marks(offsets, data_size, word);
    }
}

/// A decoded bitmap has no more marks than the list it was decoded from has
/// entries.
pub proof fn lemma_encode_decode_len(offsets: Seq<u32>, data_size: nat)
    ensures
        encode(decode(offsets, data_size)).len() <= offsets.len(),
    decreases offsets.len(),
{
    if offsets.len() == 0 {
        let zeros = decode(offsets, data_size);
        assert forall|word: int| !is_marked(zeros, word) by {
            lemma_decode_marks(offsets, data_size, word);
        }
        lemma_marked_offsets_stable(zeros, 0, 64 * zeros.len());
    } else {
        let rest = decode(offsets.drop_last(), data_size);
        let word = offsets.last() as int / 4;
        let all = set_mark(rest, word);
        lemma_encode_decode_len(offsets.drop_last(), data_size);
        lemma_marked_offsets_stable(rest, 64 * rest.len(), 64 * all.len());
        lemma_marked_offsets_set(rest, word, 64 * all.len());
    }
}

/// Two tight bitmaps for one data size that mark the same words are equal.
pub proof fn lemma_tight_same_marks(a: Seq<u64>, b: Seq<u64>, data_size: nat)
    requires
        tight(a, data_size),
        tight(b, data_size),
        forall|word: int| is_marked(a, word) == is_marked(b, word),
    ensures
        a == b,
{
    if a.len() < b.len() {
        lemma_nonzero_has_bit(b.last());
        let bit = choose|bit: u64| bit < 64 && bit_set(b.last(), bit);
        let word = 64 * (b.len() - 1) + bit;
        assert(word / 64 == b.len() - 1 && word % 64 == bit);
        assert(is_marked(b, word));
        assert(!is_marked(a, word));
    }
    if b.len() < a.len() {
        lemma_nonzero_has_bit(a.last());
        let bit = choose|bit: u64| bit < 64 && bit_set(a.last(), bit);
        let word = 64 * (a.len() - 1) + bit;
        assert(word / 64 == a.len() - 1 && word % 64 == bit);
        assert(is_marked(a, word));
        assert(!is_marked(b, word));
    }
    assert forall|i: int| 0 <= i < a.len() implies a[i] == b[i] by {
        assert forall|bit: u64| bit < 64 implies bit_set(a[i], bit) == bit_set(b[i], bit) by {
            let word = 64 * i + bit;
            assert(word / 64 == i && word % 64 == bit);
            assert(is_marked(a, word) == is_marked(b, word));
        }
        lemma_chunk_ext(a[i], b[i]);
    }
    assert(a =~= b);
}

/// Decoding the relocation list of a bitmap marks the words that the bitmap
/// marks.
pub proof fn lemma_decode_encode_marks(chunks: Seq<u64>, data_size: nat)
    requires
        addressable(chunks),
    ensures
        forall|word: int|
            is_marked(decode(encode(chunks), data_size), word) == is_marked(chunks, word),
{
    let list = encode(chunks);
    lemma_marked_offsets(chunks, 64 * chunks.len());
    assert forall|word: int| is_marked(decode(list, data_size), word) == is_marked(
        chunks,
        word,
    ) by {
        lemma_decode_marks(list, data_size, word);
        if lists(list, word) {
            let i = choose|i: int| 0 <= i < list.len() && (#[trigger] list[i]) as int / 4 == word;
            assert(is_marked(chunks, list[i] as int / 4));
        }
    }
}

/// The relocation list of a bitmap is the relocation list of what it
/// decodes to.
pub proof fn lemma_encode_decode_encode(chunks: Seq<u64>, data_size: nat)
    requires
        addressable(chunks),
    ensures
        encode(decode(encode(chunks), data_size)) == encode(chunks),
        addressable(decode(encode(chunks), data_size)),
{
    lemma_decode_encode_marks(chunks, data_size);
    lemma_encode_same_marks(decode(encode(chunks), data_size), chunks);
    lemma_decode_addressable(encode(chunks), data_size);
}

/// A tight bitmap comes back unchanged when its relocation list is decoded.
pub proof fn lemma_decode_encode(chunks: Seq<u64>, data_size: nat)
    requires
        addressable(chunks),
        tight(chunks, data_size),
    ensures
        decode(encode(chunks), data_size) == chunks,
{
    lemma_decode_encode_marks(chunks, data_size);
    lemma_decode_tight(encode(chunks), data_size);
    lemma_tight_same_marks(decode(encode(chunks), data_size), chunks, data_size);
}

} // verus!
