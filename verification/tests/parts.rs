use cdat::bytes::{push_u32, read_u16, read_u32, write_u16, write_u32};
use cdat::header::{Header, HEADER_SIZE};
use cdat::reloc::{check, clear, count_marked, decode_at, is_addressable, push_offsets};
use cdat::symbols::{add, read};
use cdat::table::{push_refs, push_roots, read_refs, read_roots};
use cdat::{DatError, Ref, Root};

#[test]
fn bytes_read_u32() {
    let bytes = [9, 0x12, 0x34, 0x56, 0x78, 9];
    assert_eq!(read_u32(&bytes, 1), 0x1234_5678);
    assert_eq!(read_u32(&[0xff; 4], 0), u32::MAX);
    assert_eq!(read_u32(&[0, 0, 1, 0], 0), 256);
}

#[test]
fn bytes_push_u32() {
    let mut out = vec![7];
    push_u32(&mut out, 0x0102_0304);
    push_u32(&mut out, 0);
    push_u32(&mut out, u32::MAX);
    assert_eq!(out, vec![7, 1, 2, 3, 4, 0, 0, 0, 0, 0xff, 0xff, 0xff, 0xff]);
}

#[test]
fn bytes_write_u32() {
    let mut bytes = [9u8; 6];
    write_u32(&mut bytes, 1, 0xa1b2_c3d4);
    assert_eq!(bytes, [9, 0xa1, 0xb2, 0xc3, 0xd4, 9]);
    assert_eq!(read_u32(&bytes, 1), 0xa1b2_c3d4);
}

#[test]
fn bytes_read_u16() {
    assert_eq!(read_u16(&[9, 0x12, 0x34], 1), 0x1234);
    assert_eq!(read_u16(&[0xff, 0xff], 0), u16::MAX);
    assert_eq!(read_u16(&[1, 0], 0), 256);
}

#[test]
fn bytes_write_u16() {
    let mut bytes = [9u8; 4];
    write_u16(&mut bytes, 1, 0xa1b2);
    assert_eq!(bytes, [9, 0xa1, 0xb2, 9]);
    assert_eq!(read_u16(&bytes, 1), 0xa1b2);
}

#[test]
fn header_size_is_32() {
    assert_eq!(HEADER_SIZE, 32);
}

#[test]
fn header_parse_reads_the_counts() {
    let mut bytes = vec![0u8; 40];
    bytes[3] = 40;
    bytes[7] = 1;
    bytes[11] = 2;
    bytes[15] = 3;
    bytes[19] = 4;
    bytes[23] = 5;
    let h = Header::parse(&bytes).unwrap();
    assert_eq!(
        h,
        Header { file_size: 40, data_size: 1, reloc_count: 2, root_count: 3, ref_count: 4 }
    );
}

#[test]
fn header_parse_rejects_short_or_mismatched() {
    assert_eq!(Header::parse(&[]), Err(DatError::InvalidFile));
    assert_eq!(Header::parse(&[0; 31]), Err(DatError::InvalidFile));
    assert_eq!(Header::parse(&[0; 32]), Err(DatError::InvalidFile));
    let mut bytes = vec![0u8; 32];
    bytes[3] = 32;
    assert!(Header::parse(&bytes).is_ok());
    bytes[0] = 1;
    assert_eq!(Header::parse(&bytes), Err(DatError::InvalidFile));
}

#[test]
fn header_serialize_zeroes_reserved_words() {
    let h = Header { file_size: 0x100, data_size: 1, reloc_count: 2, root_count: 3, ref_count: 4 };
    let mut out = vec![0xaa];
    h.serialize(&mut out);
    let mut expected = vec![0xaa, 0, 0, 1, 0, 0, 0, 0, 1, 0, 0, 0, 2, 0, 0, 0, 3, 0, 0, 0, 4];
    expected.extend_from_slice(&[0; 12]);
    assert_eq!(out, expected);
}

#[test]
fn reloc_set_check_clear() {
    let mut chunks = Vec::new();
    assert!(!check(&chunks, 0));
    cdat::reloc::set(&mut chunks, 0);
    assert_eq!(chunks, vec![1]);
    cdat::reloc::set(&mut chunks, 7);
    assert_eq!(chunks, vec![0b11]);
    cdat::reloc::set(&mut chunks, 4 * 64);
    assert_eq!(chunks, vec![0b11, 1]);
    assert!(check(&chunks, 4));
    assert!(check(&chunks, 5));
    assert!(!check(&chunks, 8));
    assert!(check(&chunks, 256));
    clear(&mut chunks, 6);
    assert_eq!(chunks, vec![1, 1]);
    clear(&mut chunks, 4 * 64 * 3);
    assert_eq!(chunks, vec![1, 1, 0, 0]);
    assert_eq!(count_marked(&chunks), 2);
}

#[test]
fn reloc_count_marked() {
    assert_eq!(count_marked(&vec![]), 0);
    assert_eq!(count_marked(&vec![0, 0]), 0);
    assert_eq!(count_marked(&vec![u64::MAX, 0b1011, 1 << 63]), 68);
}

#[test]
fn reloc_push_offsets_ascends() {
    let mut out = vec![0xaa];
    push_offsets(&mut out, &vec![0b101, 0, 1 << 63]);
    assert_eq!(out, vec![0xaa, 0, 0, 0, 0, 0, 0, 0, 8, 0, 0, 0x02, 0xfc]);
    let mut out = Vec::new();
    push_offsets(&mut out, &vec![0, 0]);
    assert!(out.is_empty());
}

#[test]
fn reloc_decode_at_reads_the_list() {
    let bytes = [0xaa, 0, 0, 0, 8, 0, 0, 0, 9, 0, 0, 1, 4, 0, 0, 0, 0];
    assert_eq!(decode_at(&bytes, 1, 4, 0), vec![0b101, 0b10]);
    assert_eq!(decode_at(&bytes, 1, 2, 1024), vec![0b100, 0, 0, 0]);
    assert_eq!(decode_at(&bytes, 1, 0, 1), vec![0]);
    assert_eq!(decode_at(&bytes, 1, 0, 0), Vec::<u64>::new());
    assert_eq!(decode_at(&bytes, 1, 0, 256), vec![0]);
    assert_eq!(decode_at(&bytes, 1, 0, 257), vec![0, 0]);
}

#[test]
fn reloc_is_addressable() {
    assert!(is_addressable(&vec![]));
    assert!(is_addressable(&vec![u64::MAX; 4]));
}

#[test]
fn table_roots_read_and_push() {
    let bytes = [0xaa, 0, 0, 0, 1, 0, 0, 0, 2, 0, 0, 0, 3, 0, 0, 0, 4];
    let roots = read_roots(&bytes, 1, 2);
    assert_eq!(
        roots,
        vec![
            Root { obj_offset: 1, symbol_offset: 2 },
            Root { obj_offset: 3, symbol_offset: 4 },
        ]
    );
    assert!(read_roots(&bytes, 1, 0).is_empty());
    let mut out = vec![0xaa];
    push_roots(&mut out, &roots);
    assert_eq!(out, bytes.to_vec());
}

#[test]
fn table_refs_read_and_push() {
    let bytes = [0xaa, 0, 0, 1, 0, 0xff, 0, 0, 2];
    let refs = read_refs(&bytes, 1, 1);
    assert_eq!(refs, vec![Ref { obj_offset: 256, symbol_offset: 0xff00_0002 }]);
    let mut out = vec![0xaa];
    push_refs(&mut out, &refs);
    assert_eq!(out, bytes.to_vec());
}

#[test]
fn symbols_add_and_read() {
    let mut table = Vec::new();
    assert_eq!(add(&mut table, "main"), 0);
    assert_eq!(add(&mut table, "exit\0"), 5);
    assert_eq!(add(&mut table, ""), 10);
    assert_eq!(table, b"main\0exit\0\0".to_vec());
    assert_eq!(read(&table, 0), Some("main"));
    assert_eq!(read(&table, 5), Some("exit"));
    assert_eq!(read(&table, 10), Some(""));
    assert_eq!(read(&table, 7), Some("it"));
}

#[test]
fn symbols_read_of_non_ascii_is_none() {
    assert_eq!(read(&vec![0xe2, 0x82, 0xac, 0], 0), None);
    assert_eq!(read(&vec![0x80, 0], 0), None);
    assert_eq!(read(&vec![b'a', 0xf0, 0], 0), None);
    assert_eq!(read(&vec![b'a', 0xf0, 0], 2), Some(""));
}
