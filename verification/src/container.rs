//! The container: the data section with its relocation bitmap, root table,
//! external-reference table and symbol table, and the transform between
//! that and the bytes of a file.

use vstd::prelude::*;
use crate::bytes::{half_at, with_half, with_word, word_at, words_at, words_bytes};
use crate::error::{DatError, DatResult};
use crate::header::{Header, HEADER_SIZE};
use crate::reloc::{addressable, count_marked, decode, decode_at, encode, push_offsets};
use crate::reloc::{clear_mark, is_addressable, is_marked, set_mark, tight};
use crate::reloc::{
    lemma_decode_addressable, lemma_decode_tight, lemma_encode_decode_len, lemma_encode_len,
};
use crate::symbols::{ascii_text, entry, is_ascii_bytes, symbol_bytes, terminated};
use crate::table::{DatOffset, SymbolOffset};
use crate::table::{push_refs, push_roots, read_refs, read_roots};
use crate::table::{ref_words, refs_from, root_words, roots_from, Ref, Root};

verus! {

/// A container in memory.
#[derive(Clone, PartialEq, Debug)]
pub struct DatFile {
    /// The data section. Its bytes are opaque to the container.
    pub data: Vec<u8>,
    /// The relocation bitmap: bit `w % 64` of chunk `w / 64` says whether the
    /// word at byte offset `4 * w` of the data section holds an offset that
    /// is to be relocated.
    pub relocation: Vec<u64>,
    /// The root table.
    pub roots: Vec<Root>,
    /// The external-reference table.
    pub extern_refs: Vec<Ref>,
    /// The symbol table: NUL-terminated ASCII strings, one after the other.
    pub symbols: Vec<u8>,
}

/// What a container holds, as mathematical sequences.
pub struct DatView {
    pub data: Seq<u8>,
    pub relocation: Seq<u64>,
    pub roots: Seq<Root>,
    pub extern_refs: Seq<Ref>,
    pub symbols: Seq<u8>,
}

impl View for DatFile {
    type V = DatView;

    open spec fn view(&self) -> DatView {
        DatView {
            data: self.data@,
            relocation: self.relocation@,
            roots: self.roots@,
            extern_refs: self.extern_refs@,
            symbols: self.symbols@,
        }
    }
}

impl DatView {
    /// The container that holds nothing.
    pub open spec fn empty() -> DatView {
        DatView {
            data: Seq::empty(),
            relocation: Seq::empty(),
            roots: Seq::empty(),
            extern_refs: Seq::empty(),
            symbols: Seq::empty(),
        }
    }

    /// The number of zero bytes that an allocation puts before the new
    /// region when the data section is `len` bytes long: none if `len` is a
    /// multiple of four, and otherwise four more than the remainder of `len`
    /// by four. The second case does not bring the length to a multiple of
    /// four.
    pub open spec fn pad_len(len: nat) -> nat {
        if len % 4 == 0 {
            0
        } else {
            len % 4 + 4
        }
    }

    /// The offset at which the next allocated region starts.
    pub open spec fn alloc_start(self) -> nat {
        self.data.len() + Self::pad_len(self.data.len())
    }

    /// The container after an allocation of `size` bytes: the data section
    /// is extended by the padding and the new region, all zero.
    pub open spec fn with_alloc(self, size: nat) -> DatView {
        DatView {
            data: self.data + Seq::new(
                Self::pad_len(self.data.len()) + size,
                |i: int| 0u8,
            ),
            ..self
        }
    }

    /// The 32-bit number at offset `at` of the data section.
    pub open spec fn word(self, at: int) -> u32 {
        word_at(self.data, at)
    }

    /// The 16-bit number at offset `at` of the data section.
    pub open spec fn half(self, at: int) -> u16 {
        half_at(self.data, at)
    }

    /// The container with the 32-bit number `x` written at offset `at` of
    /// the data section.
    pub open spec fn with_word(self, at: int, x: u32) -> DatView {
        DatView { data: with_word(self.data, at, x), ..self }
    }

    /// The container with the 16-bit number `x` written at offset `at` of
    /// the data section.
    pub open spec fn with_half(self, at: int, x: u16) -> DatView {
        DatView { data: with_half(self.data, at, x), ..self }
    }

    /// Whether the word at offset `at` of the data section is marked as
    /// holding an offset that is to be relocated.
    pub open spec fn has_ref(self, at: int) -> bool {
        is_marked(self.relocation, at / 4)
    }

    /// The container with `to` written at offset `at` of the data section
    /// and that word marked.
    pub open spec fn with_ref(self, at: int, to: u32) -> DatView {
        DatView {
            data: with_word(self.data, at, to),
            relocation: set_mark(self.relocation, at / 4),
            ..self
        }
    }

    /// The container with the word at offset `at` of the data section
    /// unmarked. The data section is as it was.
    pub open spec fn without_ref(self, at: int) -> DatView {
        DatView { relocation: clear_mark(self.relocation, at / 4), ..self }
    }

    /// The container with the symbol `text` added to the symbol table.
    pub open spec fn with_symbol(self, text: Seq<char>) -> DatView {
        DatView { symbols: self.symbols + entry(text), ..self }
    }

    /// Whether every marked word lies within the data section. Decoding
    /// does not see to this; allocating, setting and removing references,
    /// writing and adding symbols keep it.
    pub open spec fn marks_in_data(self) -> bool {
        forall|word: int| is_marked(self.relocation, word) ==> 4 * word + 4 <= self.data.len()
    }

    /// The length in bytes of the file that holds this container.
    pub open spec fn file_len(self) -> nat {
        HEADER_SIZE as nat + self.data.len() + 4 * encode(self.relocation).len() + 8
            * self.roots.len() + 8 * self.extern_refs.len() + self.symbols.len()
    }

    /// Whether the format can hold this container: the length of the file
    /// and the offset of every marked word fit in 32 bits.
    pub open spec fn exportable(self) -> bool {
        &&& self.file_len() <= u32::MAX
        &&& addressable(self.relocation)
    }

    /// The header of the file that holds this container.
    pub open spec fn header(self) -> Header {
        Header {
            file_size: self.file_len() as u32,
            data_size: self.data.len() as u32,
            reloc_count: encode(self.relocation).len() as u32,
            root_count: self.roots.len() as u32,
            ref_count: self.extern_refs.len() as u32,
        }
    }

    /// The bytes of the file that holds this container: the header, the
    /// data section, the relocation list in ascending order, the root table,
    /// the external-reference table and the symbol table.
    pub open spec fn serialize(self) -> Seq<u8> {
        self.header().bytes() + self.data + words_bytes(encode(self.relocation)) + words_bytes(
            root_words(self.roots),
        ) + words_bytes(ref_words(self.extern_refs)) + self.symbols
    }
}

/// Whether `b` is a container: it starts with a header that records the
/// length of `b`, and the data section, the relocation list, the root table
/// and the external-reference table that the header declares all end within
/// `b`. What is left after them is the symbol table.
pub open spec fn well_formed(b: Seq<u8>) -> bool {
    &&& Header::parses(b)
    &&& Header::at(b).reloc_start() <= b.len()
    &&& Header::at(b).root_start() <= b.len()
    &&& Header::at(b).ref_start() <= b.len()
    &&& Header::at(b).symbol_start() <= b.len()
}

/// The container that the bytes `b` hold.
pub open spec fn decoded(b: Seq<u8>) -> DatView
    recommends
        well_formed(b),
{
    let h = Header::at(b);
    DatView {
        data: b.subrange(HEADER_SIZE as int, h.reloc_start()),
        relocation: decode(
            words_at(b, h.reloc_start(), h.reloc_count as nat),
            h.data_size as nat,
        ),
        roots: roots_from(words_at(b, h.root_start(), 2 * (h.root_count as nat))),
        extern_refs: refs_from(words_at(b, h.ref_start(), 2 * (h.ref_count as nat))),
        symbols: b.subrange(h.symbol_start(), b.len() as int),
    }
}

/// What a file decodes to can be held by the format, and its bitmap is
/// tight for its data section.
pub proof fn lemma_decoded_exportable(b: Seq<u8>)
    requires
        well_formed(b),
    ensures
        decoded(b).exportable(),
        tight(decoded(b).relocation, decoded(b).data.len()),
{
    let h = Header::at(b);
    let list = words_at(b, h.reloc_start(), h.reloc_count as nat);
    lemma_decode_addressable(list, h.data_size as nat);
    lemma_decode_tight(list, h.data_size as nat);
    lemma_encode_decode_len(list, h.data_size as nat);
}

impl DatFile {
    /// Decodes a container from the bytes of a file.
    ///
    /// The header is read first, then the data section, the relocation
    /// list, the root table and the external-reference table; what is left
    /// is the symbol table. The call fails as soon as a section that the
    /// header declares does not fit in what is left of the file. Nothing
    /// else is checked: relocation entries, roots and external references
    /// may point anywhere. A relocation entry that points past the data
    /// section makes the bitmap grow.
    pub fn import(dat_file: &[u8]) -> (r: DatResult<Self>)
        ensures
            r is Ok <==> well_formed(dat_file@),
            r matches Ok(f) ==> f@ == decoded(dat_file@) && f@.exportable(),
    {
        let header = match Header::parse(dat_file) {
            Ok(h) => h,
            Err(e) => {
                return Err(e);
            },
        };
        let file_size = header.file_size as u64;

        let reloc_offset = 0x20 + header.data_size as u64;
        if file_size < reloc_offset {
            return Err(DatError::InvalidFile);
        }
        let mut data: Vec<u8> = Vec::with_capacity(header.data_size as usize);
        data.extend_from_slice(&dat_file[0x20..reloc_offset as usize]);
        assert(data@ =~= dat_file@.subrange(0x20, reloc_offset as int));

        let root_offset = reloc_offset + header.reloc_count as u64 * 4;
        if file_size < root_offset {
            return Err(DatError::InvalidFile);
        }
        let relocation = decode_at(
            dat_file,
            reloc_offset as u32,
            header.reloc_count,
            header.data_size,
        );

        let ref_offset = root_offset + header.root_count as u64 * 8;
        if file_size < ref_offset {
            return Err(DatError::InvalidFile);
        }
        let roots = read_roots(dat_file, root_offset as u32, header.root_count);

        let symbol_offset = ref_offset + header.ref_count as u64 * 8;
        if file_size < symbol_offset {
            return Err(DatError::InvalidFile);
        }
        let extern_refs = read_refs(dat_file, ref_offset as u32, header.ref_count);

        let mut symbols: Vec<u8> = Vec::with_capacity(dat_file.len() - symbol_offset as usize);
        symbols.extend_from_slice(&dat_file[symbol_offset as usize..dat_file.len()]);
        assert(symbols@ =~= dat_file@.subrange(symbol_offset as int, dat_file@.len() as int));

        proof {
            lemma_decoded_exportable(dat_file@);
        }
        Ok(DatFile { data, relocation, roots, extern_refs, symbols })
    }

    /// The number of entries in the relocation list: the number of marked
    /// words.
    fn count_relocation_entries(&self) -> (count: u32)
        requires
            addressable(self.relocation@),
        ensures
            count == encode(self.relocation@).len(),
    {
        count_marked(&self.relocation)
    }

    /// Reports whether the format can hold the container, that is, whether
    /// [`DatFile::export`] may be called: the length of the file and the
    /// offset of every marked word fit in 32 bits.
    pub fn is_exportable(&self) -> (ok: bool)
        ensures
            ok == self@.exportable(),
    {
        if !is_addressable(&self.relocation) {
            return false;
        }
        proof {
            lemma_encode_len(self.relocation@);
        }
        let list_len: u64 = 4 * (self.count_relocation_entries() as u64);
        let mut left: u64 = 0xffff_ffff - 0x20;
        if list_len > left {
            return false;
        }
        left = left - list_len;
        if self.data.len() as u64 > left {
            return false;
        }
        left = left - self.data.len() as u64;
        if self.roots.len() as u64 > left / 8 {
            return false;
        }
        left = left - 8 * (self.roots.len() as u64);
        if self.extern_refs.len() as u64 > left / 8 {
            return false;
        }
        left = left - 8 * (self.extern_refs.len() as u64);
        self.symbols.len() as u64 <= left
    }

    /// Encodes the container as the bytes of a file.
    ///
    /// The header's counts are taken from what the container holds now, and
    /// the relocation list is written in ascending order without
    /// duplicates, so the bytes depend only on the contents and not on how
    /// they came about. The call never fails.
    pub fn export(&self) -> (r: DatResult<Vec<u8>>)
        requires
            self@.exportable(),
        ensures
            r matches Ok(file) && file@ == self@.serialize() && file@.len() == self@.file_len(),
    {
        let relocation_entries = self.count_relocation_entries();
        let mut file_size: usize = 0x20;
        file_size += self.data.len();
        file_size += (relocation_entries as usize) * 4;
        file_size += self.roots.len() * 8;
        file_size += self.extern_refs.len() * 8;
        file_size += self.symbols.len();

        let header = Header {
            file_size: file_size as u32,
            data_size: self.data.len() as u32,
            reloc_count: relocation_entries,
            root_count: self.roots.len() as u32,
            ref_count: self.extern_refs.len() as u32,
        };

        let mut file: Vec<u8> = Vec::with_capacity(file_size);
        header.serialize(&mut file);
        assert(file@ =~= self@.header().bytes());
        file.extend_from_slice(self.data.as_slice());
        assert(file@ =~= self@.header().bytes() + self@.data);
        push_offsets(&mut file, &self.relocation);
        push_roots(&mut file, &self.roots);
        push_refs(&mut file, &self.extern_refs);
        let ghost before = file@;
        file.extend_from_slice(self.symbols.as_slice());
        assert(file@ =~= before + self@.symbols);
        Ok(file)
    }

    /// A container that holds nothing.
    pub fn new() -> (f: Self)
        ensures
            f@ == DatView::empty(),
    {
        DatFile {
            data: Vec::new(),
            relocation: Vec::new(),
            roots: Vec::new(),
            extern_refs: Vec::new(),
            symbols: Vec::new(),
        }
    }

    /// Extends the data section by `size` zero bytes and returns the offset
    /// at which they start. If the data section's length is not a multiple
    /// of four, zero bytes of padding come first: see [`DatView::pad_len`]
    /// for their number, which does not make the returned offset a multiple
    /// of four.
    pub fn object_alloc(&mut self, size: u32) -> (offset: DatOffset)
        requires
            old(self)@.alloc_start() + size <= u32::MAX,
        ensures
            offset == old(self)@.alloc_start(),
            final(self)@ == old(self)@.with_alloc(size as nat),
    {
        let ghost before = self.data@;
        if self.data.len() % 4 != 0 {
            let aligned_len = self.data.len() + (self.data.len() % 4) + 4;
            self.data.resize(aligned_len, 0);
            assert(self.data@.subrange(0, before.len() as int) == before);
        }
        let ghost padded = self.data@;
        assert(forall|i: int| 0 <= i < before.len() ==> padded[i] == padded.subrange(
            0,
            before.len() as int,
        )[i]);
        let offset = self.data.len() as u32;
        self.data.resize(self.data.len() + size as usize, 0);
        assert(forall|i: int| 0 <= i < padded.len() ==> self.data@[i] == self.data@.subrange(
            0,
            padded.len() as int,
        )[i]);
        assert(self.data@ =~= old(self)@.with_alloc(size as nat).data);
        offset
    }

    /// Writes `to` at offset `at` of the data section and marks that word
    /// as holding an offset that is to be relocated.
    pub fn ref_set(&mut self, at: DatOffset, to: DatOffset)
        requires
            at % 4 == 0,
            at + 4 <= old(self)@.data.len(),
        ensures
            final(self)@ == old(self)@.with_ref(at as int, to),
    {
        crate::bytes::write_u32(self.data.as_mut_slice(), at, to);
        crate::reloc::set(&mut self.relocation, at);
    }

    /// Unmarks the word at offset `at` of the data section. The word itself
    /// is left as it is.
    pub fn ref_remove(&mut self, at: DatOffset)
        requires
            at % 4 == 0,
        ensures
            final(self)@ == old(self)@.without_ref(at as int),
    {
        crate::reloc::clear(&mut self.relocation, at);
    }

    /// Reports whether the word at offset `at` of the data section is marked.
    pub fn ref_check(&self, at: DatOffset) -> (marked: bool)
        requires
            at % 4 == 0,
        ensures
            marked == self@.has_ref(at as int),
    {
        crate::reloc::check(&self.relocation, at)
    }

    /// Adds `symbol` to the symbol table, with a terminating zero byte
    /// unless it ends with one, and returns the offset at which it starts.
    pub fn symbol_add(&mut self, symbol: &str) -> (offset: SymbolOffset)
        requires
            symbol.is_ascii(),
            old(self)@.symbols.len() <= u32::MAX,
        ensures
            offset == old(self)@.symbols.len(),
            final(self)@ == old(self)@.with_symbol(symbol@),
    {
        crate::symbols::add(&mut self.symbols, symbol)
    }

    /// Reads the symbol that starts at offset `at` of the symbol table: the
    /// bytes up to the next zero byte, as a string if all of them are ASCII
    /// codes, and nothing if one of them is not.
    pub fn symbol_read(&mut self, at: SymbolOffset) -> (symbol: Option<&str>)
        requires
            terminated(old(self)@.symbols, at as int),
        ensures
            final(self)@ == old(self)@,
            symbol is Some <==> is_ascii_bytes(symbol_bytes(old(self)@.symbols, at as int)),
            symbol matches Some(s) ==> s@ == ascii_text(
                symbol_bytes(old(self)@.symbols, at as int),
            ),
    {
        crate::symbols::read(&self.symbols, at)
    }

    /// Reads the big-endian 32-bit number at offset `at` of the data section.
    pub fn read_u32(&mut self, at: DatOffset) -> (x: u32)
        requires
            at % 4 == 0,
            at + 4 <= old(self)@.data.len(),
        ensures
            final(self)@ == old(self)@,
            x == old(self)@.word(at as int),
    {
        crate::bytes::read_u32(self.data.as_slice(), at)
    }

    /// Writes `data` as a big-endian 32-bit number at offset `at` of the
    /// data section.
    pub fn write_u32(&mut self, at: DatOffset, data: u32)
        requires
            at % 4 == 0,
            at + 4 <= old(self)@.data.len(),
        ensures
            final(self)@ == old(self)@.with_word(at as int, data),
    {
        crate::bytes::write_u32(self.data.as_mut_slice(), at, data);
    }

    /// Reads the big-endian 16-bit number at offset `at` of the data section.
    pub fn read_u16(&mut self, at: DatOffset) -> (x: u16)
        requires
            at % 2 == 0,
            at + 2 <= old(self)@.data.len(),
        ensures
            final(self)@ == old(self)@,
            x == old(self)@.half(at as int),
    {
        crate::bytes::read_u16(self.data.as_slice(), at)
    }

    /// Writes `data` as a big-endian 16-bit number at offset `at` of the
    /// data section.
    pub fn write_u16(&mut self, at: DatOffset, data: u16)
        requires
            at % 2 == 0,
            at + 2 <= old(self)@.data.len(),
        ensures
            final(self)@ == old(self)@.with_half(at as int, data),
    {
        crate::bytes::write_u16(self.data.as_mut_slice(), at, data);
    }
}

} // verus!
