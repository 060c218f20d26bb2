//! The root table and the external-reference table: ordered lists of
//! (data offset, symbol offset) pairs, two big-endian words each.

use vstd::prelude::*;
use crate::bytes::{be32, push_u32, read_u32, words_at, words_bytes, lemma_words_bytes_push};

verus! {

/// An offset into the data section.
pub type DatOffset = u32;

/// An offset into the symbol table.
pub type SymbolOffset = u32;

/// A named entry point: the object at `obj_offset` goes by the symbol at
/// `symbol_offset`.
#[derive(Copy, Clone, PartialEq, Eq, Debug, Structural)]
pub struct Root {
    pub obj_offset: DatOffset,
    pub symbol_offset: SymbolOffset,
}

/// A patch point: the data word at `obj_offset` is to be filled in with the
/// address that the symbol at `symbol_offset` resolves to.
#[derive(Copy, Clone, PartialEq, Eq, Debug, Structural)]
pub struct Ref {
    pub obj_offset: DatOffset,
    pub symbol_offset: SymbolOffset,
}

/// The words of a root table: each root's data offset, then its symbol offset.
pub open spec fn root_words(roots: Seq<Root>) -> Seq<u32> {
    Seq::new(
        2 * roots.len(),
        |k: int|
            if k % 2 == 0 {
                roots[k / 2].obj_offset
            } else {
                roots[k / 2].symbol_offset
            },
    )
}

/// The roots that a list of words holds, two words to a root.
pub open spec fn roots_from(words: Seq<u32>) -> Seq<Root> {
    Seq::new(
        words.len() / 2,
        |i: int| Root { obj_offset: words[2 * i], symbol_offset: words[2 * i + 1] },
    )
}

/// The words of an external-reference table: each entry's data offset, then
/// its symbol offset.
pub open spec fn ref_words(refs: Seq<Ref>) -> Seq<u32> {
    Seq::new(
        2 * refs.len(),
        |k: int|
            if k % 2 == 0 {
                refs[k / 2].obj_offset
            } else {
                refs[k / 2].symbol_offset
            },
    )
}

/// The external references that a list of words holds, two words to an entry.
pub open spec fn refs_from(words: Seq<u32>) -> Seq<Ref> {
    Seq::new(
        words.len() / 2,
        |i: int| Ref { obj_offset: words[2 * i], symbol_offset: words[2 * i + 1] },
    )
}

/// A root table read back from its own words is unchanged.
pub proof fn lemma_roots_round_trip(roots: Seq<Root>)
    ensures
        roots_from(root_words(roots)) == roots,
{
    assert(roots_from(root_words(roots)) =~= roots);
}

/// An external-reference table read back from its own words is unchanged.
pub proof fn lemma_refs_round_trip(refs: Seq<Ref>)
    ensures
        refs_from(ref_words(refs)) == refs,
{
    assert(refs_from(ref_words(refs)) =~= refs);
}

/// Reads the `count` roots that stand in `bytes` from `at` on.
pub fn read_roots(bytes: &[u8], at: u32, count: u32) -> (roots: Vec<Root>)
    requires
        at + 8 * count <= bytes@.len(),
        at + 8 * count <= u32::MAX,
    ensures
        roots@ == roots_from(words_at(bytes@, at as int, 2 * (count as nat))),
{
    let mut roots: Vec<Root> = Vec::new();
    let mut i: u32 = 0;
    while i < count
        invariant
            i <= count,
            at + 8 * count <= bytes@.len(),
            at + 8 * count <= u32::MAX,
            roots@ == roots_from(words_at(bytes@, at as int, 2 * (i as nat))),
        decreases count - i,
    {
        let root = Root {
            obj_offset: read_u32(bytes, at + i * 8),
            symbol_offset: read_u32(bytes, at + i * 8 + 4),
        };
        roots.push(root);
        i = i + 1;
        assert(roots@ =~= roots_from(words_at(bytes@, at as int, 2 * (i as nat))));
    }
    roots
}

/// Reads the `count` external references that stand in `bytes` from `at` on.
pub fn read_refs(bytes: &[u8], at: u32, count: u32) -> (refs: Vec<Ref>)
    requires
        at + 8 * count <= bytes@.len(),
        at + 8 * count <= u32::MAX,
    ensures
        refs@ == refs_from(words_at(bytes@, at as int, 2 * (count as nat))),
{
    let mut refs: Vec<Ref> = Vec::new();
    let mut i: u32 = 0;
    while i < count
        invariant
            i <= count,
            at + 8 * count <= bytes@.len(),
            at + 8 * count <= u32::MAX,
            refs@ == refs_from(words_at(bytes@, at as int, 2 * (i as nat))),
        decreases count - i,
    {
        let entry = Ref {
            obj_offset: read_u32(bytes, at + i * 8),
            symbol_offset: read_u32(bytes, at + i * 8 + 4),
        };
        refs.push(entry);
        i = i + 1;
        assert(refs@ =~= refs_from(words_at(bytes@, at as int, 2 * (i as nat))));
    }
    refs
}

/// Appends the root table, two big-endian words to a root.
pub fn push_roots(out: &mut Vec<u8>, roots: &Vec<Root>)
    ensures
        final(out)@ == old(out)@ + words_bytes(root_words(roots@)),
{
    assert(out@ =~= old(out)@ + words_bytes(root_words(roots@.take(0))));
    let mut i: usize = 0;
    while i < roots.len()
        invariant
            i <= roots.len(),
            out@ == old(out)@ + words_bytes(root_words(roots@.take(i as int))),
        decreases roots.len() - i,
    {
        let root = roots[i];
        proof {
            let before = root_words(roots@.take(i as int));
            let mid = before.push(root.obj_offset);
            lemma_words_bytes_push(before, root.obj_offset);
            lemma_words_bytes_push(mid, root.symbol_offset);
            assert(mid.push(root.symbol_offset) =~= root_words(roots@.take(i + 1)));
            assert(old(out)@ + words_bytes(before) + be32(root.obj_offset) + be32(
                root.symbol_offset,
            ) =~= old(out)@ + (words_bytes(before) + be32(root.obj_offset) + be32(
                root.symbol_offset,
            )));
        }
        push_u32(out, root.obj_offset);
        push_u32(out, root.symbol_offset);
        i = i + 1;
    }
    assert(roots@.take(roots.len() as int) =~= roots@);
}

/// Appends the external-reference table, two big-endian words to an entry.
pub fn push_refs(out: &mut Vec<u8>, refs: &Vec<Ref>)
    ensures
        final(out)@ == old(out)@ + words_bytes(ref_words(refs@)),
{
    assert(out@ =~= old(out)@ + words_bytes(ref_words(refs@.take(0))));
    let mut i: usize = 0;
    while i < refs.len()
        invariant
            i <= refs.len(),
            out@ == old(out)@ + words_bytes(ref_words(refs@.take(i as int))),
        decreases refs.len() - i,
    {
        let entry = refs[i];
        proof {
            let before = ref_words(refs@.take(i as int));
            let mid = before.push(entry.obj_offset);
            lemma_words_bytes_push(before, entry.obj_offset);
            lemma_words_bytes_push(mid, entry.symbol_offset);
            assert(mid.push(entry.symbol_offset) =~= ref_words(refs@.take(i + 1)));
            assert(old(out)@ + words_bytes(before) + be32(entry.obj_offset) + be32(
                entry.symbol_offset,
            ) =~= old(out)@ + (words_bytes(before) + be32(entry.obj_offset) + be32(
                entry.symbol_offset,
            )));
        }
        push_u32(out, entry.obj_offset);
        push_u32(out, entry.symbol_offset);
        i = i + 1;
    }
    assert(refs@.take(refs.len() as int) =~= refs@);
}

} // verus!
