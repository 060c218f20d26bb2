use cdat::DatFile;

#[test]
fn new_is_empty() {
    let dat = DatFile::new();
    assert!(dat.data.is_empty());
    assert!(dat.relocation.is_empty());
    assert!(dat.roots.is_empty());
    assert!(dat.extern_refs.is_empty());
    assert!(dat.symbols.is_empty());
}

#[test]
fn object_alloc_on_aligned_length_does_not_pad() {
    let mut dat = DatFile::new();
    assert_eq!(dat.object_alloc(8), 0);
    assert_eq!(dat.data, vec![0u8; 8]);
    assert_eq!(dat.object_alloc(4), 8);
    assert_eq!(dat.data, vec![0u8; 12]);
    assert_eq!(dat.object_alloc(0), 12);
    assert_eq!(dat.data.len(), 12);
}

#[test]
fn object_alloc_pads_by_remainder_plus_four() {
    let mut dat = DatFile::new();
    dat.data = vec![0xee; 9];
    assert_eq!(dat.object_alloc(2), 14);
    assert_eq!(dat.data.len(), 16);
    assert_eq!(&dat.data[..9], &[0xee; 9]);
    assert_eq!(&dat.data[9..], &[0; 7]);

    dat.data = vec![0xee; 10];
    assert_eq!(dat.object_alloc(1), 16);
    assert_eq!(dat.data.len(), 17);

    dat.data = vec![0xee; 11];
    assert_eq!(dat.object_alloc(1), 18);
    assert_eq!(dat.data.len(), 19);
}

#[test]
fn object_alloc_offsets_increase_and_regions_are_zero() {
    let mut dat = DatFile::new();
    let sizes = [8u32, 3, 1, 16, 4, 5, 7];
    let mut regions = Vec::new();
    for size in sizes {
        let start = dat.object_alloc(size);
        assert_eq!(dat.data.len(), (start + size) as usize);
        assert!(dat.data[start as usize..].iter().all(|b| *b == 0));
        regions.push((start, size));
    }
    assert_eq!(regions[0], (0, 8));
    assert_eq!(regions[1], (8, 3));
    assert_eq!(regions[2], (18, 1));
    assert_eq!(regions[3], (26, 16));
    for pair in regions.windows(2) {
        assert!(pair[0].0 < pair[1].0);
        assert!(pair[0].0 + pair[0].1 <= pair[1].0);
    }
    for (start, size) in regions {
        assert!(dat.data[start as usize..(start + size) as usize].iter().all(|b| *b == 0));
    }
}

#[test]
fn object_alloc_keeps_earlier_data() {
    let mut dat = DatFile::new();
    let a = dat.object_alloc(4);
    dat.write_u32(a, 0xdead_beef);
    let b = dat.object_alloc(4);
    assert_eq!(b, 4);
    assert_eq!(dat.read_u32(a), 0xdead_beef);
    assert_eq!(dat.read_u32(b), 0);
}

#[test]
fn ref_set_marks_and_writes() {
    let mut dat = DatFile::new();
    dat.object_alloc(16);
    assert!(!dat.ref_check(8));
    dat.ref_set(8, 0x0102_0304);
    assert!(dat.ref_check(8));
    assert_eq!(dat.read_u32(8), 0x0102_0304);
    assert_eq!(&dat.data[8..12], &[1, 2, 3, 4]);
    assert_eq!(dat.relocation, vec![0b100]);
    assert!(!dat.ref_check(0));
    assert!(!dat.ref_check(4));
    assert!(!dat.ref_check(12));
}

#[test]
fn ref_remove_unmarks_and_leaves_the_word() {
    let mut dat = DatFile::new();
    dat.object_alloc(16);
    dat.ref_set(4, 7);
    dat.ref_set(8, 9);
    dat.ref_remove(4);
    assert!(!dat.ref_check(4));
    assert!(dat.ref_check(8));
    assert_eq!(dat.read_u32(4), 7);
    assert_eq!(dat.relocation, vec![0b100]);
}

#[test]
fn ref_set_twice_marks_once() {
    let mut dat = DatFile::new();
    dat.object_alloc(8);
    dat.ref_set(4, 1);
    dat.ref_set(4, 2);
    assert_eq!(dat.relocation, vec![0b10]);
    assert_eq!(dat.read_u32(4), 2);
    let out = dat.export().unwrap();
    assert_eq!(&out[8..12], &[0, 0, 0, 1]);
    assert_eq!(&out[40..44], &[0, 0, 0, 4]);
}

#[test]
fn ref_set_grows_the_bitmap() {
    let mut dat = DatFile::new();
    dat.object_alloc(1024);
    dat.ref_set(252, 1);
    assert_eq!(dat.relocation, vec![1 << 63]);
    dat.ref_set(768, 1);
    assert_eq!(dat.relocation, vec![1 << 63, 0, 0, 1]);
    assert!(dat.ref_check(252));
    assert!(dat.ref_check(768));
    assert!(!dat.ref_check(256));
}

#[test]
fn ref_remove_grows_the_bitmap() {
    let mut dat = DatFile::new();
    dat.ref_remove(512);
    assert_eq!(dat.relocation, vec![0, 0, 0]);
    assert!(dat.data.is_empty());
    assert!(!dat.ref_check(512));
}

#[test]
fn ref_check_past_the_bitmap_is_false() {
    let dat = DatFile::new();
    assert!(!dat.ref_check(0));
    assert!(!dat.ref_check(0xffff_fffc));
    let mut dat = DatFile::new();
    dat.relocation = vec![u64::MAX];
    assert!(dat.ref_check(252));
    assert!(!dat.ref_check(256));
}

#[test]
fn ref_at_highest_offset() {
    let mut dat = DatFile::new();
    dat.ref_remove(0xffff_fffc);
    assert_eq!(dat.relocation.len(), 1 << 24);
    dat.relocation[(1 << 24) - 1] = 1 << 63;
    assert!(dat.ref_check(0xffff_fffc));
    assert!(!dat.ref_check(0xffff_fff8));
    dat.ref_remove(0xffff_fffc);
    assert!(!dat.ref_check(0xffff_fffc));
}

#[test]
fn write_u32_is_big_endian() {
    let mut dat = DatFile::new();
    dat.object_alloc(12);
    dat.write_u32(4, 0x1234_5678);
    assert_eq!(dat.data, vec![0, 0, 0, 0, 0x12, 0x34, 0x56, 0x78, 0, 0, 0, 0]);
    assert_eq!(dat.read_u32(4), 0x1234_5678);
    assert_eq!(dat.read_u32(0), 0);
    assert!(dat.relocation.is_empty());
    dat.write_u32(8, u32::MAX);
    assert_eq!(dat.read_u32(8), u32::MAX);
}

#[test]
fn read_u32_is_big_endian() {
    let mut dat = DatFile::new();
    dat.data = vec![0x80, 0, 0, 1, 0xff, 0xfe, 0xfd, 0xfc];
    assert_eq!(dat.read_u32(0), 0x8000_0001);
    assert_eq!(dat.read_u32(4), 0xfffe_fdfc);
}

#[test]
fn write_u16_is_big_endian() {
    let mut dat = DatFile::new();
    dat.object_alloc(8);
    dat.write_u16(2, 0xabcd);
    assert_eq!(dat.data, vec![0, 0, 0xab, 0xcd, 0, 0, 0, 0]);
    assert_eq!(dat.read_u16(2), 0xabcd);
    assert_eq!(dat.read_u16(0), 0);
    assert_eq!(dat.read_u32(0), 0xabcd);
    dat.write_u16(6, u16::MAX);
    assert_eq!(dat.read_u16(6), u16::MAX);
}

#[test]
fn read_u16_is_big_endian() {
    let mut dat = DatFile::new();
    dat.data = vec![0x80, 1, 0xff, 0xfe];
    assert_eq!(dat.read_u16(0), 0x8001);
    assert_eq!(dat.read_u16(2), 0xfffe);
}

#[test]
fn symbol_add_then_read() {
    let mut dat = DatFile::new();
    let foo = dat.symbol_add("foo");
    assert_eq!(foo, 0);
    assert_eq!(dat.symbols, b"foo\0".to_vec());
    assert_eq!(dat.symbol_read(foo), Some("foo"));
    let bar = dat.symbol_add("bar");
    assert_eq!(bar, 4);
    assert!(bar > foo + 3);
    assert_eq!(dat.symbols, b"foo\0bar\0".to_vec());
    assert_eq!(dat.symbol_read(foo), Some("foo"));
    assert_eq!(dat.symbol_read(bar), Some("bar"));
}

#[test]
fn symbol_add_keeps_a_given_terminator() {
    let mut dat = DatFile::new();
    assert_eq!(dat.symbol_add("foo\0"), 0);
    assert_eq!(dat.symbols, b"foo\0".to_vec());
    assert_eq!(dat.symbol_add("x"), 4);
    assert_eq!(dat.symbol_read(0), Some("foo"));
}

#[test]
fn symbol_add_of_empty_string() {
    let mut dat = DatFile::new();
    assert_eq!(dat.symbol_add(""), 0);
    assert_eq!(dat.symbols, vec![0]);
    assert_eq!(dat.symbol_read(0), Some(""));
    assert_eq!(dat.symbol_add(""), 1);
    assert_eq!(dat.symbols, vec![0, 0]);
}

#[test]
fn symbol_read_stops_at_first_terminator() {
    let mut dat = DatFile::new();
    assert_eq!(dat.symbol_add("a\0b"), 0);
    assert_eq!(dat.symbols, b"a\0b\0".to_vec());
    assert_eq!(dat.symbol_read(0), Some("a"));
    assert_eq!(dat.symbol_read(1), Some(""));
    assert_eq!(dat.symbol_read(2), Some("b"));
}

#[test]
fn symbol_read_inside_a_symbol() {
    let mut dat = DatFile::new();
    dat.symbol_add("hello");
    assert_eq!(dat.symbol_read(1), Some("ello"));
    assert_eq!(dat.symbol_read(4), Some("o"));
    assert_eq!(dat.symbol_read(5), Some(""));
}

#[test]
fn symbol_read_of_non_ascii_is_none() {
    let mut dat = DatFile::new();
    dat.symbols = vec![b'a', 0xc3, 0xa9, 0, b'b', 0xff, 0, b'c', 0];
    assert_eq!(dat.symbol_read(0), None);
    assert_eq!(dat.symbol_read(1), None);
    assert_eq!(dat.symbol_read(2), None);
    assert_eq!(dat.symbol_read(4), None);
    assert_eq!(dat.symbol_read(5), None);
    assert_eq!(dat.symbol_read(7), Some("c"));
    assert_eq!(dat.symbol_read(3), Some(""));
}

#[test]
fn symbol_read_of_highest_ascii_code() {
    let mut dat = DatFile::new();
    dat.symbols = vec![0x7f, 1, 0, 0x80, 0];
    assert_eq!(dat.symbol_read(0), Some("\u{7f}\u{1}"));
    assert_eq!(dat.symbol_read(3), None);
}

#[test]
fn symbol_read_leaves_the_container() {
    let mut dat = DatFile::new();
    dat.object_alloc(4);
    dat.ref_set(0, 5);
    dat.symbol_add("sym");
    let before = dat.clone();
    assert_eq!(dat.symbol_read(0), Some("sym"));
    assert_eq!(dat.read_u32(0), 5);
    assert_eq!(dat.read_u16(2), 5);
    assert!(dat.ref_check(0));
    assert_eq!(dat, before);
}

#[test]
fn mutated_container_survives_the_round_trip() {
    let mut dat = DatFile::new();
    let obj = dat.object_alloc(12);
    let name = dat.symbol_add("root");
    let ext = dat.symbol_add("puts");
    dat.ref_set(obj + 4, obj);
    dat.write_u16(obj + 8, 0xbeef);
    dat.roots.push(cdat::Root { obj_offset: obj, symbol_offset: name });
    dat.extern_refs.push(cdat::Ref { obj_offset: obj, symbol_offset: ext });
    assert!(dat.is_exportable());
    let bytes = dat.export().unwrap();
    assert_eq!(bytes.len(), 32 + 12 + 4 + 8 + 8 + 10);
    let mut back = DatFile::import(&bytes).unwrap();
    assert_eq!(back, dat);
    assert_eq!(back.symbol_read(name), Some("root"));
    assert_eq!(back.symbol_read(ext), Some("puts"));
    assert!(back.ref_check(obj + 4));
    assert_eq!(back.export().unwrap(), bytes);
}
