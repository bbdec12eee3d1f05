use fuzz_coverage::drcov::DrCovBasicBlock;
use fuzz_coverage::drcov::DrCovBasicBlockEntry;
use fuzz_coverage::drcov::DrCovError;
use fuzz_coverage::drcov::DrCovReader;
use fuzz_coverage::drcov::ModuleField;

fn entry(start: u32, size: u16, mod_id: u16) -> Vec<u8> {
    let mut bytes = Vec::new();
    bytes.extend_from_slice(&start.to_le_bytes());
    bytes.extend_from_slice(&size.to_le_bytes());
    bytes.extend_from_slice(&mod_id.to_le_bytes());
    bytes
}

fn trace(header: &str, entries: &[(u32, u16, u16)]) -> Vec<u8> {
    let mut bytes = header.as_bytes().to_vec();
    for e in entries {
        bytes.extend_from_slice(&entry(e.0, e.1, e.2));
    }
    bytes
}

fn header(modules: &[&str], bbs: usize) -> String {
    let mut h = String::from("DRCOV VERSION: 2\nDRCOV FLAVOR: drcov-64\n");
    h.push_str(&format!("Module Table: version 2, count {}\n", modules.len()));
    h.push_str("Columns: id, base, end, entry, path\n");
    for m in modules {
        h.push_str(m);
        h.push('\n');
    }
    h.push_str(&format!("BB Table: {} bbs\n", bbs));
    h
}

fn sample() -> Vec<u8> {
    let modules = [
        "0, 0x4000000000, 0x4000004000, 0x0000000000001050, /work/test_data/sources/test",
        "1, 0x4001000000, 0x4001200000, 0x0000000000000000, \"/lib/x86_64-linux-gnu/libc.so.6\"",
    ];
    let mut entries = Vec::new();
    for i in 0..39u32 {
        entries.push((0x1000 + 16 * i, 8u16, 0u16));
    }
    for i in 0..5u32 {
        entries.push((0x2000 + 32 * i, 4u16, 1u16));
    }
    entries.push((0x10, 2, 9));
    trace(&header(&modules, entries.len()), &entries)
}

#[test]
fn test_write_read_drcov() {
    let bytes = sample();
    let reader = DrCovReader::read(&bytes).unwrap();
    let mod_id = reader.get_module_entry("test").unwrap().id;
    assert_eq!(mod_id, 0);
    let module_bbs = reader.basic_blocks_for_module_id(mod_id);
    for mod_bb in &module_bbs {
        println!("\tBlock {:#x}, {:#x}", mod_bb.start, mod_bb.end);
    }
    assert_eq!(module_bbs.len(), 39);
}

#[test]
fn modules_are_read_field_by_field() {
    let reader = DrCovReader::read(&sample()).unwrap();
    assert_eq!(reader.module_entries.len(), 2);
    let m = &reader.module_entries[0];
    assert_eq!(m.id, 0);
    assert_eq!(m.base, 0x4000000000);
    assert_eq!(m.end, 0x4000004000);
    assert_eq!(m.entry, 0x1050);
    assert_eq!(m.path, "/work/test_data/sources/test");
    let m = &reader.module_entries[1];
    assert_eq!(m.id, 1);
    assert_eq!(m.path, "/lib/x86_64-linux-gnu/libc.so.6");
    assert_eq!(reader.basic_block_entries.len(), 45);
    assert_eq!(
        reader.basic_block_entries[1],
        DrCovBasicBlockEntry { start: 0x1010, size: 8, mod_id: 0 }
    );
}

#[test]
fn blocks_are_given_by_address() {
    let reader = DrCovReader::read(&sample()).unwrap();
    assert!(reader.addresses_in_range());
    let all = reader.basic_blocks();
    assert_eq!(all.len(), 44);
    assert_eq!(all[0], DrCovBasicBlock::new(0x4000001000, 0x4000001008));
    assert_eq!(all[39], DrCovBasicBlock::new(0x4001002000, 0x4001002004));
    let libc = reader.basic_blocks_for_module_id(1);
    assert_eq!(libc.len(), 5);
    assert_eq!(libc[4], DrCovBasicBlock::with_size(0x4001002080, 4));
    assert_eq!(reader.basic_blocks_for_module_id(9).len(), 0);
    let starts = reader.basic_block_addresses_u64();
    assert_eq!(starts.len(), 44);
    assert_eq!(starts[1], 0x4000001010);
    assert!(reader.basic_block_addresses_u32().is_err());
}

#[test]
fn small_addresses_fit_in_32_bits() {
    let modules = ["3, 0x1000, 0x2000, 0x0, /bin/small"];
    let bytes = trace(&header(&modules, 2), &[(0x10, 4, 3), (0x20, 4, 3)]);
    let reader = DrCovReader::read(&bytes).unwrap();
    assert_eq!(reader.basic_block_addresses_u32().unwrap(), vec![0x1010, 0x1020]);
}

#[test]
fn modules_are_found_by_id_and_by_path() {
    let reader = DrCovReader::read(&sample()).unwrap();
    assert_eq!(reader.module_by_id(1).unwrap().base, 0x4001000000);
    assert!(reader.module_by_id(2).is_none());
    assert_eq!(reader.get_module_entry("sources/test").unwrap().id, 0);
    assert_eq!(reader.get_module_entry("libc.so.6").unwrap().id, 1);
    assert!(reader.get_module_entry("est").is_none());
    assert!(reader.get_module_entry("missing").is_none());
}

#[test]
fn module_map_maps_every_address_of_a_module() {
    let reader = DrCovReader::read(&sample()).unwrap();
    let map = reader.module_map();
    assert_eq!(map.get(&0x4000000000).unwrap().0, 0);
    assert_eq!(map.get(&0x4000003fff).unwrap().1, "/work/test_data/sources/test");
    assert!(map.get(&0x4000004000).is_none());
    assert_eq!(map.get(&0x4001000010).unwrap().0, 1);
    assert!(map.get(&0x3fffffffff).is_none());
}

#[test]
fn later_module_wins_where_modules_overlap() {
    let modules = ["0, 0x1000, 0x3000, 0x0, /bin/a", "1, 0x2000, 0x4000, 0x0, /bin/b"];
    let reader = DrCovReader::read(&trace(&header(&modules, 0), &[])).unwrap();
    let map = reader.module_map();
    assert_eq!(map.get(&0x1fff).unwrap().0, 0);
    assert_eq!(map.get(&0x2000).unwrap().0, 1);
    assert_eq!(map.get(&0x3fff).unwrap().0, 1);
}

#[test]
fn header_without_version_is_refused() {
    let bytes = b"DRCOV VERSION: 3\nDRCOV FLAVOR: drcov\n".to_vec();
    assert_eq!(DrCovReader::read(&bytes).unwrap_err(), DrCovError::BadHeader { offset: 0 });
    let bytes = b"Module Table: version 2, count 0\n".to_vec();
    assert_eq!(DrCovReader::read(&bytes).unwrap_err(), DrCovError::BadHeader { offset: 0 });
    assert_eq!(DrCovReader::read(&[]).unwrap_err(), DrCovError::BadHeader { offset: 0 });
}

#[test]
fn an_error_names_the_line_at_fault() {
    let bytes = b"DRCOV VERSION: 3\nDRCOV FLAVOR: drcov\n".to_vec();
    let error = DrCovReader::read(&bytes).unwrap_err();
    assert_eq!(error.offset(), 0);
    assert_eq!(fuzz_coverage::drcov::line_at_fault(&bytes, &error), "DRCOV VERSION: 3\n");
    let text = "DRCOV VERSION: 2\nModule Table: version 2, count many\nColumns";
    let error = DrCovReader::read(text.as_bytes()).unwrap_err();
    assert_eq!(error.offset(), 17);
    assert_eq!(
        fuzz_coverage::drcov::line_at_fault(text.as_bytes(), &error),
        "Module Table: version 2, count many\n"
    );
    let text = "DRCOV VERSION: 2\nModule Table: version 2, count 0\nColumns: id, base";
    let error = DrCovReader::read(text.as_bytes()).unwrap_err();
    assert_eq!(fuzz_coverage::drcov::line_at_fault(text.as_bytes(), &error), "Columns: id, base");
    let error = DrCovReader::read(&[]).unwrap_err();
    assert_eq!(fuzz_coverage::drcov::line_at_fault(&[], &error), "");
    let beyond = DrCovError::BadBbTable { offset: 99 };
    assert_eq!(fuzz_coverage::drcov::line_at_fault(b"abc", &beyond), "");
}

#[test]
fn version_line_may_be_in_any_case_and_padded() {
    let text = "  drcov Version: 2 \r\nModule Table: version 2, count 0\nColumns: id, base, end, entry, path\nBB Table: 0 bbs\n";
    let reader = DrCovReader::read(text.as_bytes()).unwrap();
    assert_eq!(reader.module_entries.len(), 0);
    assert_eq!(reader.basic_block_entries.len(), 0);
}

#[test]
fn flavor_line_is_optional() {
    let text = "DRCOV VERSION: 2\nModule Table: version 2, count 1\nColumns: id, base, end, entry, path\n7, 0x10, 0x20, 0x0, /bin/x\nBB Table: 1 bbs\n";
    let reader = DrCovReader::read(&trace(text, &[(1, 2, 7)])).unwrap();
    assert_eq!(reader.module_entries[0].id, 7);
    assert_eq!(reader.basic_block_entries[0], DrCovBasicBlockEntry { start: 1, size: 2, mod_id: 7 });
}

#[test]
fn bad_module_table_is_refused() {
    let text = "DRCOV VERSION: 2\nDRCOV FLAVOR: x\nModule Table: version 3, count 1\n";
    assert_eq!(
        DrCovReader::read(text.as_bytes()).unwrap_err(),
        DrCovError::BadModuleTable { offset: 33 }
    );
    let text = "DRCOV VERSION: 2\nModule Table: version 2, count many\n";
    assert_eq!(
        DrCovReader::read(text.as_bytes()).unwrap_err(),
        DrCovError::BadModuleTable { offset: 17 }
    );
}

#[test]
fn bad_columns_line_is_refused() {
    let text = "DRCOV VERSION: 2\nModule Table: version 2, count 0\nColumns: id, base, end\n";
    assert_eq!(
        DrCovReader::read(text.as_bytes()).unwrap_err(),
        DrCovError::BadModuleColumns { offset: 50 }
    );
}

#[test]
fn bad_module_rows_are_refused() {
    let start = "DRCOV VERSION: 2\nModule Table: version 2, count 1\nColumns: id, base, end, entry, path\n";
    let offset = start.len();
    let cases = [
        ("x, 0x1, 0x2, 0x0, /a\n", ModuleField::Id),
        ("65536, 0x1, 0x2, 0x0, /a\n", ModuleField::Id),
        ("0\n", ModuleField::Id),
        ("0, 1, 0x2, 0x0, /a\n", ModuleField::Base),
        ("0, 0x, 0x2, 0x0, /a\n", ModuleField::Base),
        ("0, 0x1, 0xg, 0x0, /a\n", ModuleField::End),
        ("0, 0x1, 0x2\n", ModuleField::End),
        ("0, 0x1, 0x2, zz, /a\n", ModuleField::Entry),
        ("0, 0x1, 0x2, 0x0\n", ModuleField::Entry),
        ("", ModuleField::Id),
    ];
    for (row, field) in cases {
        let text = format!("{}{}", start, row);
        assert_eq!(
            DrCovReader::read(text.as_bytes()).unwrap_err(),
            DrCovError::BadModuleEntry { offset, field }
        );
    }
    let mut bytes = format!("{}0, 0x1, 0x2, 0x0, ", start).into_bytes();
    bytes.extend_from_slice(&[0xff, 0xfe, b'\n']);
    assert_eq!(
        DrCovReader::read(&bytes).unwrap_err(),
        DrCovError::BadModuleEntry { offset, field: ModuleField::Path }
    );
}

#[test]
fn module_path_may_hold_any_character() {
    let modules = ["0, 0x1, 0x2, 0x0,   \"/home/anna/caf\u{e9} \u{2603}/prog\"  "];
    let reader = DrCovReader::read(&trace(&header(&modules, 0), &[])).unwrap();
    assert_eq!(reader.module_entries[0].path, "/home/anna/caf\u{e9} \u{2603}/prog");
}

#[test]
fn bad_block_table_is_refused() {
    let start = "DRCOV VERSION: 2\nModule Table: version 2, count 0\nColumns: id, base, end, entry, path\n";
    let offset = start.len();
    for line in ["BB Table 3 bbs\n", "BB Table: x bbs\n", "BB Table: 3\n", ""] {
        let text = format!("{}{}", start, line);
        assert_eq!(
            DrCovReader::read(text.as_bytes()).unwrap_err(),
            DrCovError::BadBbTable { offset }
        );
    }
}

#[test]
fn short_block_table_is_refused() {
    let modules = ["0, 0x1, 0x2, 0x0, /a"];
    let h = header(&modules, 3);
    let mut bytes = trace(&h, &[(1, 1, 0), (2, 1, 0), (3, 1, 0)]);
    bytes.pop();
    assert_eq!(
        DrCovReader::read(&bytes).unwrap_err(),
        DrCovError::ShortBbTable { offset: h.len() }
    );
}

#[test]
fn bytes_after_the_block_table_are_passed_over() {
    let modules = ["0, 0x1, 0x2, 0x0, /a"];
    let mut bytes = trace(&header(&modules, 1), &[(1, 1, 0)]);
    bytes.extend_from_slice(b"trailing");
    assert_eq!(DrCovReader::read(&bytes).unwrap().basic_block_entries.len(), 1);
}

#[test]
fn entries_are_little_endian() {
    let bytes = [0x78, 0x56, 0x34, 0x12, 0xcd, 0xab, 0x02, 0x01];
    let e = DrCovBasicBlockEntry::decode(&bytes, 0);
    assert_eq!(e, DrCovBasicBlockEntry { start: 0x12345678, size: 0xabcd, mod_id: 0x0102 });
    assert_eq!(e.encode(), bytes);
    let padded = [0u8, 0, 0x78, 0x56, 0x34, 0x12, 0xcd, 0xab, 0x02, 0x01];
    assert_eq!(DrCovBasicBlockEntry::decode(&padded, 2), e);
    let max = DrCovBasicBlockEntry { start: u32::MAX, size: u16::MAX, mod_id: u16::MAX };
    assert_eq!(DrCovBasicBlockEntry::decode(&max.encode(), 0), max);
}

#[test]
fn entries_convert_from_and_to_bytes() {
    let bytes: [u8; 8] = [1, 2, 3, 4, 5, 6, 7, 8];
    let e: DrCovBasicBlockEntry = (&bytes).into();
    assert_eq!(e, DrCovBasicBlockEntry { start: 0x04030201, size: 0x0605, mod_id: 0x0807 });
    let back: [u8; 8] = e.into();
    assert_eq!(back, bytes);
}

#[test]
fn blocks_beyond_64_bits_are_noticed() {
    let modules = ["0, 0xfffffffffffffff0, 0xffffffffffffffff, 0x0, /a"];
    let reader = DrCovReader::read(&trace(&header(&modules, 1), &[(0x10, 1, 0)])).unwrap();
    assert!(!reader.addresses_in_range());
    let reader = DrCovReader::read(&trace(&header(&modules, 1), &[(0x8, 7, 0)])).unwrap();
    assert!(reader.addresses_in_range());
    assert_eq!(reader.basic_blocks()[0], DrCovBasicBlock::new(0xfffffffffffffff8, u64::MAX));
}

#[test]
fn block_with_size() {
    let b = DrCovBasicBlock::with_size(100, 20);
    assert_eq!(b.start, 100);
    assert_eq!(b.end, 120);
}
