//! The fixed 32-byte header: five big-endian counts, then a version word
//! and two padding words that are written as zero and never looked at.

use vstd::prelude::*;
use crate::bytes::{push_u32, read_u32, word_at, words_bytes};
use crate::error::{DatError, DatResult};

verus! {

/// The number of bytes that the header takes.
pub const HEADER_SIZE: u32 = 0x20;

/// The counts that a container starts with.
#[derive(Copy, Clone, PartialEq, Eq, Debug, Structural)]
pub struct Header {
    /// The length of the whole container in bytes.
    pub file_size: u32,
    /// The length of the data section in bytes.
    pub data_size: u32,
    /// The number of entries in the relocation list.
    pub reloc_count: u32,
    /// The number of entries in the root table.
    pub root_count: u32,
    /// The number of entries in the external-reference table.
    pub ref_count: u32,
}

impl Header {
    /// The eight words of the header as they are written.
    pub open spec fn words(self) -> Seq<u32> {
        seq![
            self.file_size,
            self.data_size,
            self.reloc_count,
            self.root_count,
            self.ref_count,
            0u32,
            0u32,
            0u32,
        ]
    }

    /// The 32 bytes of the header as they are written.
    pub open spec fn bytes(self) -> Seq<u8> {
        words_bytes(self.words())
    }

    /// The header whose five counts stand at the start of `b`.
    pub open spec fn at(b: Seq<u8>) -> Header
        recommends
            b.len() >= HEADER_SIZE,
    {
        Header {
            file_size: word_at(b, 0),
            data_size: word_at(b, 4),
            reloc_count: word_at(b, 8),
            root_count: word_at(b, 12),
            ref_count: word_at(b, 16),
        }
    }

    /// Whether `b` starts with a header that records the length of `b`.
    pub open spec fn parses(b: Seq<u8>) -> bool {
        b.len() >= HEADER_SIZE && word_at(b, 0) == b.len()
    }

    /// The offset at which the relocation list starts.
    pub open spec fn reloc_start(self) -> int {
        HEADER_SIZE + self.data_size
    }

    /// The offset at which the root table starts.
    pub open spec fn root_start(self) -> int {
        self.reloc_start() + 4 * self.reloc_count
    }

    /// The offset at which the external-reference table starts.
    pub open spec fn ref_start(self) -> int {
        self.root_start() + 8 * self.root_count
    }

    /// The offset at which the symbol table starts.
    pub open spec fn symbol_start(self) -> int {
        self.ref_start() + 8 * self.ref_count
    }

    /// Reads the header of `bytes`. Fails when `bytes` is shorter than a
    /// header or when the recorded file size is not the length of `bytes`.
    pub fn parse(bytes: &[u8]) -> (r: DatResult<Header>)
        ensures
            r is Ok <==> Header::parses(bytes@),
            r matches Ok(h) ==> h == Header::at(bytes@),
    {
        if bytes.len() < 0x20 {
            return Err(DatError::InvalidFile);
        }
        let file_size = read_u32(bytes, 0);
        let data_size = read_u32(bytes, 4);
        let reloc_count = read_u32(bytes, 8);
        let root_count = read_u32(bytes, 12);
        let ref_count = read_u32(bytes, 16);
        if file_size as usize != bytes.len() {
            return Err(DatError::InvalidFile);
        }
        Ok(Header { file_size, data_size, reloc_count, root_count, ref_count })
    }

    /// Appends the header: the five counts, then three zero words.
    pub fn serialize(&self, out: &mut Vec<u8>)
        ensures
            final(out)@ == old(out)@ + self.bytes(),
    {
        push_u32(out, self.file_size);
        push_u32(out, self.data_size);
        push_u32(out, self.reloc_count);
        push_u32(out, self.root_count);
        push_u32(out, self.ref_count);
        push_u32(out, 0u32);
        push_u32(out, 0u32);
        push_u32(out, 0u32);
        assert(out@ =~= old(out)@ + self.bytes());
    }
}

} // verus!
