//! Laws that relate the operations of a container to one another.

use vstd::prelude::*;
use vstd::utf8::is_ascii_chars;
use crate::bytes::{be32, word_at, words_at, words_bytes};
use crate::bytes::{lemma_word_at_be32, lemma_words_at_bytes};
use crate::container::{decoded, lemma_decoded_exportable, well_formed, DatView};
use crate::header::Header;
use crate::reloc::{decode, encode, is_marked, lists, tight};
use crate::reloc::{
    lemma_clear_mark, lemma_decode_encode, lemma_encode_decode_encode, lemma_marked_offsets,
    lemma_set_mark,
};
use crate::symbols::{ascii_bytes, ascii_text, entry, is_ascii_bytes, symbol_bytes, terminated};
use crate::symbols::{lemma_ascii_text_bytes, lemma_terminator_is};
use crate::table::{ref_words, root_words};
use crate::table::{lemma_refs_round_trip, lemma_roots_round_trip};

verus! {

/// Each of six sequences that are joined stands in the whole at the offset
/// that the lengths of those before it add up to.
proof fn lemma_six_parts(
    a: Seq<u8>,
    b: Seq<u8>,
    c: Seq<u8>,
    d: Seq<u8>,
    e: Seq<u8>,
    f: Seq<u8>,
)
    ensures
        ({
            let all = a + b + c + d + e + f;
            let b_at = a.len() as int;
            let c_at = b_at + b.len();
            let d_at = c_at + c.len();
            let e_at = d_at + d.len();
            let f_at = e_at + e.len();
            &&& all.len() == f_at + f.len()
            &&& all.subrange(0, b_at) == a
            &&& all.subrange(b_at, c_at) == b
            &&& all.subrange(c_at, d_at) == c
            &&& all.subrange(d_at, e_at) == d
            &&& all.subrange(e_at, f_at) == e
            &&& all.subrange(f_at, all.len() as int) == f
        }),
{
    let all = a + b + c + d + e + f;
    let b_at = a.len() as int;
    let c_at = b_at + b.len();
    let d_at = c_at + c.len();
    let e_at = d_at + d.len();
    let f_at = e_at + e.len();
    assert(all.subrange(0, b_at) =~= a);
    assert(all.subrange(b_at, c_at) =~= b);
    assert(all.subrange(c_at, d_at) =~= c);
    assert(all.subrange(d_at, e_at) =~= d);
    assert(all.subrange(e_at, f_at) =~= e);
    assert(all.subrange(f_at, all.len() as int) =~= f);
}

/// The header that is read from where a header was written is that header.
proof fn lemma_header_at(b: Seq<u8>, h: Header)
    requires
        b.len() >= 32,
        b.subrange(0, 32) == h.bytes(),
    ensures
        Header::at(b) == h,
{
    lemma_words_at_bytes(b, 0, h.words());
    let head = words_at(b, 0, 8);
    assert(head[0] == word_at(b, 0) && head[1] == word_at(b, 4) && head[2] == word_at(b, 8)
        && head[3] == word_at(b, 12) && head[4] == word_at(b, 16));
}

/// Where the parts of a container stand in its file.
proof fn lemma_layout(m: DatView)
    requires
        m.exportable(),
    ensures
        ({
            let b = m.serialize();
            let h = m.header();
            &&& b.len() == m.file_len()
            &&& h.reloc_start() == 32 + m.data.len()
            &&& h.root_start() == h.reloc_start() + 4 * encode(m.relocation).len()
            &&& h.ref_start() == h.root_start() + 8 * m.roots.len()
            &&& h.symbol_start() == h.ref_start() + 8 * m.extern_refs.len()
            &&& b.len() == h.symbol_start() + m.symbols.len()
            &&& b.subrange(0, 32) == h.bytes()
            &&& b.subrange(32, h.reloc_start()) == m.data
            &&& b.subrange(h.reloc_start(), h.root_start()) == words_bytes(encode(m.relocation))
            &&& b.subrange(h.root_start(), h.ref_start()) == words_bytes(root_words(m.roots))
            &&& b.subrange(h.ref_start(), h.symbol_start()) == words_bytes(
                ref_words(m.extern_refs),
            )
            &&& b.subrange(h.symbol_start(), b.len() as int) == m.symbols
        }),
{
    lemma_six_parts(
        m.header().bytes(),
        m.data,
        words_bytes(encode(m.relocation)),
        words_bytes(root_words(m.roots)),
        words_bytes(ref_words(m.extern_refs)),
        m.symbols,
    );
}

/// What bytes decode to when the parts of a container stand in them where
/// their header says.
proof fn lemma_decoded_parts(b: Seq<u8>, m: DatView)
    requires
        m.exportable(),
        Header::at(b) == m.header(),
        b.len() == m.header().symbol_start() + m.symbols.len(),
        b.subrange(32, m.header().reloc_start()) == m.data,
        b.subrange(m.header().reloc_start(), m.header().root_start()) == words_bytes(
            encode(m.relocation),
        ),
        b.subrange(m.header().root_start(), m.header().ref_start()) == words_bytes(
            root_words(m.roots),
        ),
        b.subrange(m.header().ref_start(), m.header().symbol_start()) == words_bytes(
            ref_words(m.extern_refs),
        ),
        b.subrange(m.header().symbol_start(), b.len() as int) == m.symbols,
    ensures
        decoded(b).data == m.data,
        decoded(b).relocation == decode(encode(m.relocation), m.data.len()),
        decoded(b).roots == m.roots,
        decoded(b).extern_refs == m.extern_refs,
        decoded(b).symbols == m.symbols,
{
    let h = m.header();
    lemma_words_at_bytes(b, h.reloc_start(), encode(m.relocation));
    lemma_words_at_bytes(b, h.root_start(), root_words(m.roots));
    lemma_roots_round_trip(m.roots);
    lemma_words_at_bytes(b, h.ref_start(), ref_words(m.extern_refs));
    lemma_refs_round_trip(m.extern_refs);
}

/// The file of a container that the format can hold is a container, and
/// decoding it gives the data section, the tables and the symbols back as
/// they were, with the bitmap that the relocation list decodes to.
pub proof fn lemma_decoded_serialize(m: DatView)
    requires
        m.exportable(),
    ensures
        well_formed(m.serialize()),
        Header::at(m.serialize()) == m.header(),
        decoded(m.serialize()).data == m.data,
        decoded(m.serialize()).relocation == decode(encode(m.relocation), m.data.len()),
        decoded(m.serialize()).roots == m.roots,
        decoded(m.serialize()).extern_refs == m.extern_refs,
        decoded(m.serialize()).symbols == m.symbols,
{
    lemma_layout(m);
    lemma_header_at(m.serialize(), m.header());
    lemma_decoded_parts(m.serialize(), m);
}

/// Two containers that differ only in bitmaps with one relocation list have
/// the same file.
proof fn lemma_serialize_same_list(a: DatView, b: DatView)
    requires
        a.data == b.data,
        encode(a.relocation) == encode(b.relocation),
        a.roots == b.roots,
        a.extern_refs == b.extern_refs,
        a.symbols == b.symbols,
    ensures
        a.file_len() == b.file_len(),
        a.serialize() == b.serialize(),
{
}

/// Round trip. A container that was decoded from a file comes back
/// unchanged when it is encoded and the bytes are decoded again: the same
/// data section, the same marks in a bitmap of the same length, the same
/// roots, external references and symbols.
pub proof fn law_import_of_export(b: Seq<u8>)
    requires
        well_formed(b),
    ensures
        decoded(b).exportable(),
        well_formed(decoded(b).serialize()),
        decoded(decoded(b).serialize()) == decoded(b),
{
    let m = decoded(b);
    lemma_decoded_exportable(b);
    lemma_decoded_serialize(m);
    lemma_decode_encode(m.relocation, m.data.len());
}

/// Round trip, for containers however they came about. A container that
/// the format can hold and whose bitmap is tight for its data section comes
/// back unchanged when it is encoded and the bytes are decoded.
pub proof fn law_import_of_export_tight(m: DatView)
    requires
        m.exportable(),
        tight(m.relocation, m.data.len()),
    ensures
        well_formed(m.serialize()),
        decoded(m.serialize()) == m,
{
    lemma_decoded_serialize(m);
    lemma_decode_encode(m.relocation, m.data.len());
}

/// Canonical order. The relocation list of a container lists the offset of
/// every marked word, and nothing else; every entry is a multiple of four,
/// and the entries ascend strictly, so none occurs twice.
pub proof fn law_relocation_list_canonical(m: DatView)
    requires
        m.exportable(),
    ensures
        forall|i: int|
            0 <= i < encode(m.relocation).len() ==> (#[trigger] encode(m.relocation)[i]) % 4 == 0
                && m.has_ref(encode(m.relocation)[i] as int),
        forall|i: int, j: int|
            0 <= i < j < encode(m.relocation).len() ==> encode(m.relocation)[i] < encode(
                m.relocation,
            )[j],
        forall|word: int| is_marked(m.relocation, word) ==> lists(encode(m.relocation), word),
{
    lemma_marked_offsets(m.relocation, 64 * m.relocation.len());
}

/// Canonical stability. The file of a container is a fixed point:
/// decoding it and encoding the result gives the same bytes again.
pub proof fn law_export_of_import(m: DatView)
    requires
        m.exportable(),
    ensures
        well_formed(m.serialize()),
        decoded(m.serialize()).exportable(),
        decoded(m.serialize()).serialize() == m.serialize(),
{
    let back = decoded(m.serialize());
    lemma_decoded_serialize(m);
    lemma_encode_decode_encode(m.relocation, m.data.len());
    lemma_serialize_same_list(back, m);
}

/// Rejection. An input that is shorter than a header is no container, nor
/// is one whose header records another length than the input has, nor one
/// in which a section that the header declares ends past the input's end.
/// So no input that is cut off before its symbol table starts is one.
pub proof fn law_malformed_inputs(b: Seq<u8>)
    ensures
        b.len() < 32 ==> !well_formed(b),
        word_at(b, 0) != b.len() ==> !well_formed(b),
        b.len() < Header::at(b).reloc_start() ==> !well_formed(b),
        b.len() < Header::at(b).root_start() ==> !well_formed(b),
        b.len() < Header::at(b).ref_start() ==> !well_formed(b),
        b.len() < Header::at(b).symbol_start() ==> !well_formed(b),
{
}

/// Truncation. No proper prefix of a container is a container.
pub proof fn law_truncated_input(b: Seq<u8>, n: int)
    requires
        well_formed(b),
        0 <= n < b.len(),
    ensures
        !well_formed(b.take(n)),
{
    let cut = b.take(n);
    if n >= 32 {
        assert(cut[0] == b[0] && cut[1] == b[1] && cut[2] == b[2] && cut[3] == b[3]);
    }
}

/// Marking. After a reference is set at an aligned offset within the data
/// section, that word is marked and holds the target. After the reference
/// is removed again, the word is unmarked and still holds the target.
/// Neither step changes the mark of any other word.
pub proof fn law_ref_set_then_remove(m: DatView, at: int, to: u32)
    requires
        0 <= at,
        at % 4 == 0,
        at + 4 <= m.data.len(),
    ensures
        m.with_ref(at, to).has_ref(at),
        m.with_ref(at, to).word(at) == to,
        !m.with_ref(at, to).without_ref(at).has_ref(at),
        m.with_ref(at, to).without_ref(at).word(at) == to,
        forall|other: int|
            0 <= other && other % 4 == 0 && other != at ==> m.with_ref(at, to).has_ref(other)
                == m.has_ref(other),
        forall|other: int|
            0 <= other && other % 4 == 0 && other != at ==> m.without_ref(at).has_ref(other)
                == m.has_ref(other),
{
    assert forall|other: int| 0 <= other && other % 4 == 0 && other != at implies m.without_ref(
        at,
    ).has_ref(other) == m.has_ref(other) by {
        lemma_clear_mark(m.relocation, at / 4, other / 4);
    }
    let set = m.with_ref(at, to);
    lemma_set_mark(m.relocation, at / 4, at / 4);
    assert(set.data.subrange(at, at + 4) =~= be32(to));
    lemma_word_at_be32(set.data, at, to);
    assert forall|other: int| 0 <= other && other % 4 == 0 && other != at implies set.has_ref(
        other,
    ) == m.has_ref(other) by {
        lemma_set_mark(m.relocation, at / 4, other / 4);
    }
    lemma_clear_mark(set.relocation, at / 4, at / 4);
}

/// Marks stay within the data section. The empty container marks no word,
/// and if all marked words of a container lie within its data section,
/// they still do after an allocation, after a reference is set at an
/// aligned offset within the data section, after a reference is removed,
/// after a number is written within the data section and after a symbol is
/// added.
pub proof fn law_marks_stay_in_data(
    m: DatView,
    size: nat,
    at: int,
    to: u32,
    half: u16,
    text: Seq<char>,
)
    requires
        m.marks_in_data(),
        0 <= at,
    ensures
        DatView::empty().marks_in_data(),
        m.with_alloc(size).marks_in_data(),
        at % 4 == 0 && at + 4 <= m.data.len() ==> m.with_ref(at, to).marks_in_data(),
        m.without_ref(at).marks_in_data(),
        at + 4 <= m.data.len() ==> m.with_word(at, to).marks_in_data(),
        at + 2 <= m.data.len() ==> m.with_half(at, half).marks_in_data(),
        m.with_symbol(text).marks_in_data(),
{
    assert forall|word: int| is_marked(m.without_ref(at).relocation, word) implies 4 * word + 4
        <= m.data.len() by {
        lemma_clear_mark(m.relocation, at / 4, word);
    }
    if at % 4 == 0 && at + 4 <= m.data.len() {
        assert forall|word: int| is_marked(m.with_ref(at, to).relocation, word) implies 4 * word
            + 4 <= m.with_ref(at, to).data.len() by {
            lemma_set_mark(m.relocation, at / 4, word);
        }
    }
}

/// Scalars. A 32-bit number that is written into the data section is read
/// back at the same offset, and writing it changes neither the length of
/// the data section nor any byte outside the number's own four.
pub proof fn law_write_then_read_u32(m: DatView, at: int, x: u32)
    requires
        0 <= at,
        at + 4 <= m.data.len(),
    ensures
        m.with_word(at, x).word(at) == x,
        m.with_word(at, x).data.len() == m.data.len(),
        forall|k: int|
            0 <= k < m.data.len() && !(at <= k < at + 4) ==> m.with_word(at, x).data[k]
                == m.data[k],
{
    assert(m.with_word(at, x).data.subrange(at, at + 4) =~= be32(x));
    lemma_word_at_be32(m.with_word(at, x).data, at, x);
}

/// Scalars. A 16-bit number that is written into the data section is read
/// back at the same offset, and writing it changes neither the length of
/// the data section nor any byte outside the number's own two.
pub proof fn law_write_then_read_u16(m: DatView, at: int, x: u16)
    requires
        0 <= at,
        at + 2 <= m.data.len(),
    ensures
        m.with_half(at, x).half(at) == x,
        m.with_half(at, x).data.len() == m.data.len(),
        forall|k: int|
            0 <= k < m.data.len() && !(at <= k < at + 2) ==> m.with_half(at, x).data[k]
                == m.data[k],
{
}

/// Symbols. A symbol of ASCII characters other than NUL that is added to
/// the symbol table is read back, character for character, at the offset
/// at which the table ended before; the table then ends one byte past the
/// symbol's last character, which is where the next symbol will start.
pub proof fn law_symbol_add_then_read(m: DatView, text: Seq<char>)
    requires
        is_ascii_chars(text),
        forall|i: int| 0 <= i < text.len() ==> text[i] != '\0',
    ensures
        ({
            let at = m.symbols.len() as int;
            let after = m.with_symbol(text).symbols;
            &&& terminated(after, at)
            &&& symbol_bytes(after, at) == ascii_bytes(text)
            &&& is_ascii_bytes(symbol_bytes(after, at))
            &&& ascii_text(symbol_bytes(after, at)) == text
            &&& after.len() == at + text.len() + 1
        }),
{
    let at = m.symbols.len() as int;
    let after = m.with_symbol(text).symbols;
    let bytes = ascii_bytes(text);
    lemma_ascii_text_bytes(text);
    assert forall|i: int| 0 <= i < bytes.len() implies bytes[i] != 0 by {
        assert(text[i] != '\0');
    }
    assert(entry(text) == bytes.push(0u8));
    assert(after =~= m.symbols + bytes.push(0u8));
    lemma_terminator_is(after, at, at + text.len());
    assert(symbol_bytes(after, at) =~= bytes);
}

/// The container after one allocation for each of `sizes`, in order.
pub open spec fn after_allocs(m: DatView, sizes: Seq<nat>) -> DatView
    decreases sizes.len(),
{
    if sizes.len() == 0 {
        m
    } else {
        after_allocs(m, sizes.drop_last()).with_alloc(sizes.last())
    }
}

/// The offset that allocation number `i` of `sizes` returns.
pub open spec fn alloc_offset(m: DatView, sizes: Seq<nat>, i: int) -> nat {
    after_allocs(m, sizes.take(i)).alloc_start()
}

/// Allocations only append: the data section after the first `i` of them
/// is the start of the data section after the first `j`.
proof fn lemma_allocs_append(m: DatView, sizes: Seq<nat>, i: int, j: int)
    requires
        0 <= i <= j <= sizes.len(),
    ensures
        after_allocs(m, sizes.take(i)).data.len() <= after_allocs(m, sizes.take(j)).data.len(),
        after_allocs(m, sizes.take(j)).data.subrange(
            0,
            after_allocs(m, sizes.take(i)).data.len() as int,
        ) == after_allocs(m, sizes.take(i)).data,
    decreases j - i,
{
    let first = after_allocs(m, sizes.take(i)).data;
    if i == j {
        assert(first.subrange(0, first.len() as int) =~= first);
    } else {
        lemma_allocs_append(m, sizes, i, j - 1);
        assert(sizes.take(j).drop_last() =~= sizes.take(j - 1));
        let before = after_allocs(m, sizes.take(j - 1)).data;
        let last = after_allocs(m, sizes.take(j)).data;
        assert(last.subrange(0, first.len() as int) =~= before.subrange(0, first.len() as int));
    }
}

/// Allocation. Of any two allocations in a series, the later one starts at
/// or after the end of the earlier one's region, so their regions do not
/// overlap, and it starts at a greater offset if the earlier one was not
/// empty. When the series is done, the region of every one of them holds
/// zero bytes only.
pub proof fn law_allocations(m: DatView, sizes: Seq<nat>, i: int, j: int)
    requires
        0 <= i < j < sizes.len(),
    ensures
        alloc_offset(m, sizes, i) + sizes[i] <= alloc_offset(m, sizes, j),
        sizes[i] > 0 ==> alloc_offset(m, sizes, i) < alloc_offset(m, sizes, j),
        alloc_offset(m, sizes, j) + sizes[j] <= after_allocs(m, sizes).data.len(),
        forall|k: int|
            alloc_offset(m, sizes, i) <= k < alloc_offset(m, sizes, i) + sizes[i]
                ==> after_allocs(m, sizes).data[k] == 0,
        forall|k: int|
            alloc_offset(m, sizes, j) <= k < alloc_offset(m, sizes, j) + sizes[j]
                ==> after_allocs(m, sizes).data[k] == 0,
{
    lemma_alloc_region(m, sizes, i);
    lemma_alloc_region(m, sizes, j);
    lemma_allocs_append(m, sizes, i + 1, j);
}

/// The region of allocation number `i` ends where the data section ended
/// right after it, and holds zero bytes only when the series is done.
proof fn lemma_alloc_region(m: DatView, sizes: Seq<nat>, i: int)
    requires
        0 <= i < sizes.len(),
    ensures
        alloc_offset(m, sizes, i) + sizes[i] == after_allocs(m, sizes.take(i + 1)).data.len(),
        after_allocs(m, sizes.take(i)).data.len() <= alloc_offset(m, sizes, i),
        after_allocs(m, sizes.take(i + 1)).data.len() <= after_allocs(m, sizes).data.len(),
        forall|k: int|
            alloc_offset(m, sizes, i) <= k < alloc_offset(m, sizes, i) + sizes[i]
                ==> after_allocs(m, sizes).data[k] == 0,
{
    assert(sizes.take(i + 1).drop_last() =~= sizes.take(i));
    assert(sizes.take(sizes.len() as int) =~= sizes);
    lemma_allocs_append(m, sizes, i + 1, sizes.len() as int);
    let then = after_allocs(m, sizes.take(i + 1)).data;
    let end = after_allocs(m, sizes).data;
    assert forall|k: int|
        alloc_offset(m, sizes, i) <= k < alloc_offset(m, sizes, i) + sizes[i] implies end[k]
        == 0 by {
        assert(end.subrange(0, then.len() as int)[k] == end[k]);
    }
}

} // verus!
