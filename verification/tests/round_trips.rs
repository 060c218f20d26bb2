use cdat::{DatFile, Ref, Root};

/// A small deterministic generator, so that every run sees the same inputs.
struct Gen(u64);

impl Gen {
    fn next(&mut self) -> u32 {
        self.0 = self.0.wrapping_mul(6364136223846793005).wrapping_add(1442695040888963407);
        (self.0 >> 33) as u32
    }

    fn below(&mut self, n: u32) -> u32 {
        self.next() % n
    }

    fn bytes(&mut self, n: u32) -> Vec<u8> {
        (0..n).map(|_| self.next() as u8).collect()
    }
}

fn generated_file(g: &mut Gen) -> Vec<u8> {
    let data_size = g.below(600);
    let reloc_count = g.below(40);
    let root_count = g.below(5);
    let ref_count = g.below(5);
    let symbol_size = g.below(30);
    let file_size = 32 + data_size + 4 * reloc_count + 8 * root_count + 8 * ref_count + symbol_size;
    let mut out = Vec::new();
    for field in [file_size, data_size, reloc_count, root_count, ref_count] {
        out.extend_from_slice(&field.to_be_bytes());
    }
    out.extend_from_slice(&g.bytes(12));
    out.extend_from_slice(&g.bytes(data_size));
    for _ in 0..reloc_count {
        out.extend_from_slice(&g.below(data_size + 300).to_be_bytes());
    }
    out.extend_from_slice(&g.bytes(8 * root_count + 8 * ref_count + symbol_size));
    assert_eq!(out.len() as u32, file_size);
    out
}

fn generated_container(g: &mut Gen) -> DatFile {
    let mut dat = DatFile::new();
    for _ in 0..g.below(6) {
        let size = 4 * g.below(40);
        let at = dat.object_alloc(size);
        if size > 0 && at % 4 == 0 {
            let target = g.next();
            dat.ref_set(at + 4 * g.below(size / 4), target);
        }
        if g.below(3) == 0 {
            let odd = g.below(4);
            dat.object_alloc(odd);
        }
    }
    for _ in 0..g.below(4) {
        let at = 4 * g.below(400);
        dat.ref_remove(at);
    }
    for name in ["alpha", "beta", "", "gamma\0"] {
        if g.below(2) == 0 {
            let symbol_offset = dat.symbol_add(name);
            let obj_offset = g.next();
            if g.below(2) == 0 {
                dat.roots.push(Root { obj_offset, symbol_offset });
            } else {
                dat.extern_refs.push(Ref { obj_offset, symbol_offset });
            }
        }
    }
    dat
}

fn relocation_list(file: &[u8]) -> Vec<u32> {
    let word = |at: usize| u32::from_be_bytes([file[at], file[at + 1], file[at + 2], file[at + 3]]);
    let start = 32 + word(4) as usize;
    (0..word(8) as usize).map(|i| word(start + 4 * i)).collect()
}

#[test]
fn generated_files_round_trip() {
    let mut g = Gen(1);
    for _ in 0..300 {
        let file = generated_file(&mut g);
        let dat = DatFile::import(&file).unwrap();
        assert!(dat.is_exportable());
        let out = dat.export().unwrap();
        assert!(out.len() <= file.len());
        assert_eq!(DatFile::import(&out).unwrap(), dat);
        assert_eq!(DatFile::import(&out).unwrap().export().unwrap(), out);
    }
}

#[test]
fn generated_files_export_canonical_lists() {
    let mut g = Gen(2);
    for _ in 0..300 {
        let file = generated_file(&mut g);
        let given = relocation_list(&file);
        let dat = DatFile::import(&file).unwrap();
        let list = relocation_list(&dat.export().unwrap());
        let mut expected: Vec<u32> = given.iter().map(|o| o / 4 * 4).collect();
        expected.sort();
        expected.dedup();
        assert_eq!(list, expected);
        for offset in &list {
            assert!(dat.ref_check(*offset));
        }
    }
}

#[test]
fn generated_containers_export_to_fixed_points() {
    let mut g = Gen(3);
    for _ in 0..300 {
        let dat = generated_container(&mut g);
        assert!(dat.is_exportable());
        let out = dat.export().unwrap();
        assert_eq!(out.len(), u32::from_be_bytes([out[0], out[1], out[2], out[3]]) as usize);
        let back = DatFile::import(&out).unwrap();
        assert_eq!(back.export().unwrap(), out);
        assert_eq!(back.data, dat.data);
        assert_eq!(back.roots, dat.roots);
        assert_eq!(back.extern_refs, dat.extern_refs);
        assert_eq!(back.symbols, dat.symbols);
        for at in (0..dat.data.len() as u32 + 512).step_by(4) {
            assert_eq!(back.ref_check(at), dat.ref_check(at));
        }
    }
}

#[test]
fn generated_truncations_are_rejected() {
    let mut g = Gen(4);
    for _ in 0..50 {
        let file = generated_file(&mut g);
        let cut = g.below(file.len() as u32) as usize;
        assert!(DatFile::import(&file[..cut]).is_err());
        let mut patched = file[..cut].to_vec();
        if cut >= 32 {
            patched[..4].copy_from_slice(&(cut as u32).to_be_bytes());
            let declared = 32
                + u32::from_be_bytes([file[4], file[5], file[6], file[7]]) as usize
                + 4 * u32::from_be_bytes([file[8], file[9], file[10], file[11]]) as usize
                + 8 * u32::from_be_bytes([file[12], file[13], file[14], file[15]]) as usize
                + 8 * u32::from_be_bytes([file[16], file[17], file[18], file[19]]) as usize;
            assert_eq!(DatFile::import(&patched).is_err(), cut < declared);
        }
    }
}
