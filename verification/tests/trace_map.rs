use fuzz_coverage::config::TargetConfig;
use fuzz_coverage::custom_types::FileId;
use fuzz_coverage::custom_types::LineId;
use fuzz_coverage::drcov::DrCovBasicBlock;
use fuzz_coverage::drcov::DrCovError;
use fuzz_coverage::sut_database::SUT;
use fuzz_coverage::trace_map::check_ancestors;
use fuzz_coverage::trace_map::ResolvedAddress;
use fuzz_coverage::trace_map::ResolvedBlock;
use fuzz_coverage::trace_map::SourceFile;
use fuzz_coverage::trace_map::SrcCovBasicBlock;
use fuzz_coverage::trace_map::Trace;
use fuzz_coverage::trace_map::TraceError;
use fuzz_coverage::trace_map::TraceMap;
use fuzz_coverage::trace_map::Verdict;

fn config() -> TargetConfig {
    TargetConfig {
        target_path: "test_data/sources/test".to_string(),
        target_source_code_path: "/work/test_data/sources".to_string(),
        target_include_filter: vec![],
        allowed_extensions: vec![],
    }
}

fn drcov(blocks: &[(u32, u16, u16)]) -> Vec<u8> {
    let mut h = String::from("DRCOV VERSION: 2\nDRCOV FLAVOR: drcov-64\n");
    h.push_str("Module Table: version 2, count 2\n");
    h.push_str("Columns: id, base, end, entry, path\n");
    h.push_str("0, 0x4000000000, 0x4000004000, 0x0, /work/test_data/sources/test\n");
    h.push_str("1, 0x4001000000, 0x4001200000, 0x0, /lib/libc.so.6\n");
    h.push_str(&format!("BB Table: {} bbs\n", blocks.len()));
    let mut bytes = h.into_bytes();
    for b in blocks {
        bytes.extend_from_slice(&b.0.to_le_bytes());
        bytes.extend_from_slice(&b.1.to_le_bytes());
        bytes.extend_from_slice(&b.2.to_le_bytes());
    }
    bytes
}

fn text(lines: usize) -> String {
    "x;\n".repeat(lines)
}

/// The source files that addresses name, and what the blocks resolve to.
struct Resolution {
    files: Vec<SourceFile>,
    blocks: Vec<ResolvedBlock>,
}

impl Resolution {
    fn new() -> Resolution {
        Resolution { files: Vec::new(), blocks: Vec::new() }
    }

    fn file(&mut self, file: SourceFile) -> usize {
        match self.files.iter().position(|f| f.path == file.path) {
            Some(i) => i,
            None => {
                self.files.push(file);
                self.files.len() - 1
            }
        }
    }

    fn at(&mut self, path: &str, line: u32) -> Option<ResolvedAddress> {
        let file = self.file(SourceFile {
            path: path.to_string(),
            is_dir: false,
            content: Some(text(40)),
        });
        Some(ResolvedAddress { file, line })
    }

    fn block(mut self, path: &str, from: u32, to: u32) -> Resolution {
        let start = self.at(path, from);
        let end = self.at(path, to);
        self.blocks.push(ResolvedBlock { start, end });
        self
    }

    fn chain(mut self, path: &str, first: u32, count: u32) -> Resolution {
        for i in 0..count {
            self = self.block(path, first + i, first + i + 1);
        }
        self
    }

    fn ends(mut self, start: Option<ResolvedAddress>, end: Option<ResolvedAddress>) -> Resolution {
        self.blocks.push(ResolvedBlock { start, end });
        self
    }
}

fn map_trace(resolution: Resolution, sut: &mut SUT) -> Trace {
    let cfg = config();
    let entries: Vec<(u32, u16, u16)> =
        (0..resolution.blocks.len()).map(|i| (0x1000 + 16 * i as u32, 8, 0)).collect();
    let map = TraceMap::new(&drcov(&entries), &cfg).unwrap();
    assert_eq!(map.block_count(), resolution.blocks.len());
    map.parse_with_config(&resolution.files, &resolution.blocks, &cfg, sut)
}

fn sut() -> SUT {
    let mut sut = SUT::new();
    sut.parse_config(&config());
    sut
}

const MAIN: &str = "/work/test_data/sources/main.c";
const FOO: &str = "/work/test_data/sources/foo.c";

#[test]
fn empty_trace_has_no_blocks() {
    let map = TraceMap::new(&[], &config()).unwrap();
    assert_eq!(map.block_count(), 0);
    assert_eq!(map.addresses().len(), 0);
    let mut sut = sut();
    let trace = map.parse_with_config(&vec![], &vec![], &config(), &mut sut);
    assert!(trace.binary.is_empty());
    assert!(trace.source.is_empty());
    assert!(trace.unique_lines_set.is_empty());
    assert_eq!(sut.get_all_files().len(), 0);
}

#[test]
fn blocks_of_the_target_are_to_be_resolved() {
    let bytes = drcov(&[(0x1986, 10, 0), (0x20, 4, 1), (0x19a0, 3, 0)]);
    let map = TraceMap::new(&bytes, &config()).unwrap();
    assert_eq!(map.block_count(), 2);
    assert_eq!(map.addresses(), vec![(0x1986, 0x1990), (0x19a0, 0x19a3)]);
}

#[test]
fn trace_without_the_target_is_refused() {
    let mut cfg = config();
    cfg.target_path = "other/binary".to_string();
    let r = TraceMap::new(&drcov(&[(1, 1, 0)]), &cfg);
    assert!(matches!(r, Err(TraceError::ModuleNotFound)));
}

#[test]
fn malformed_trace_is_refused() {
    let r = TraceMap::new(b"DRCOV VERSION: 1\n", &config());
    assert!(matches!(r, Err(TraceError::Format(DrCovError::BadHeader { offset: 0 }))));
}

#[test]
fn trace_with_addresses_beyond_64_bits_is_refused() {
    let text = "DRCOV VERSION: 2\nModule Table: version 2, count 1\nColumns: id, base, end, entry, path\n0, 0xfffffffffffffff0, 0xffffffffffffffff, 0x0, /work/test_data/sources/test\nBB Table: 1 bbs\n";
    let mut bytes = text.as_bytes().to_vec();
    bytes.extend_from_slice(&[0x10, 0, 0, 0, 1, 0, 0, 0]);
    assert!(matches!(TraceMap::new(&bytes, &config()), Err(TraceError::AddressOverflow)));
}

#[test]
fn blocks_become_blocks_of_lines() {
    let mut sut = sut();
    let trace = map_trace(
        Resolution::new().block(MAIN, 4, 7).block(FOO, 10, 11).block(MAIN, 6, 9),
        &mut sut,
    );
    let main = FileId::new(1);
    let foo = FileId::new(2);
    assert_eq!(sut.get_all_files(), vec![MAIN, FOO]);
    assert_eq!(
        trace.source,
        vec![
            SrcCovBasicBlock { start: LineId::new(main, 4), end: LineId::new(main, 7) },
            SrcCovBasicBlock { start: LineId::new(foo, 10), end: LineId::new(foo, 11) },
            SrcCovBasicBlock { start: LineId::new(main, 6), end: LineId::new(main, 9) },
        ]
    );
    assert_eq!(
        trace.binary,
        vec![
            DrCovBasicBlock::new(0x4000001000, 0x4000001008),
            DrCovBasicBlock::new(0x4000001010, 0x4000001018),
            DrCovBasicBlock::new(0x4000001020, 0x4000001028),
        ]
    );
    assert_eq!(
        trace.unique_lines_set,
        vec![
            LineId::new(main, 4),
            LineId::new(main, 5),
            LineId::new(main, 6),
            LineId::new(main, 7),
            LineId::new(foo, 10),
            LineId::new(foo, 11),
            LineId::new(main, 8),
            LineId::new(main, 9),
        ]
    );
    assert_eq!(sut.get_all_lines(main).len(), 40);
}

#[test]
fn blocks_that_do_not_count_are_left_out() {
    let mut sut = sut();
    let mut r = Resolution::new().block(MAIN, 4, 7).block(MAIN, 5, 5).block(MAIN, 4, 7);
    let three = r.at(MAIN, 3);
    r = r.ends(None, three).ends(three, None);
    r = r.block("/usr/include/stdio.h", 1, 5);
    let directory = r.file(SourceFile {
        path: "/work/test_data/sources/dir".to_string(),
        is_dir: true,
        content: None,
    });
    let two = r.at(MAIN, 2);
    r = r.ends(Some(ResolvedAddress { file: directory, line: 1 }), two);
    r = r.ends(Some(ResolvedAddress { file: 99, line: 1 }), two);
    r = r.block(MAIN, 7, 4);
    let trace = map_trace(r, &mut sut);
    let main = FileId::new(1);
    assert_eq!(
        trace.source,
        vec![SrcCovBasicBlock { start: LineId::new(main, 4), end: LineId::new(main, 7) }]
    );
    assert_eq!(trace.binary, vec![DrCovBasicBlock::new(0x4000001000, 0x4000001008)]);
    assert_eq!(trace.unique_lines_set.len(), 4);
    assert_eq!(sut.get_all_files(), vec![MAIN]);
}

#[test]
fn a_block_that_ends_before_it_starts_is_left_out() {
    let mut sut = sut();
    let trace = map_trace(Resolution::new().block(MAIN, 5, 3).block(MAIN, 3, 5), &mut sut);
    let main = FileId::new(1);
    assert_eq!(
        trace.source,
        vec![SrcCovBasicBlock { start: LineId::new(main, 3), end: LineId::new(main, 5) }]
    );
    assert_eq!(trace.binary, vec![DrCovBasicBlock::new(0x4000001010, 0x4000001018)]);
    assert_eq!(
        trace.unique_lines_set,
        vec![LineId::new(main, 3), LineId::new(main, 4), LineId::new(main, 5)]
    );
}

#[test]
fn a_block_with_ends_in_two_files_is_left_out() {
    let mut sut = sut();
    let mut r = Resolution::new();
    let start = r.at(MAIN, 2);
    let end = r.at(FOO, 3);
    let trace = map_trace(r.ends(start, end), &mut sut);
    assert!(trace.binary.is_empty());
    assert!(trace.source.is_empty());
    assert!(trace.unique_lines_set.is_empty());
    assert_eq!(sut.get_all_files(), vec![MAIN, FOO]);
}

#[test]
fn every_line_is_listed_once() {
    let mut sut = sut();
    let trace = map_trace(
        Resolution::new()
            .block(MAIN, 7, 8)
            .block(MAIN, 8, 9)
            .block(MAIN, 9, 10)
            .block(MAIN, 10, 12)
            .block(MAIN, 12, 13)
            .block(MAIN, 13, 14)
            .block(MAIN, 14, 17)
            .block(MAIN, 4, 7),
        &mut sut,
    );
    assert_eq!(trace.binary.len(), trace.source.len());
    assert_eq!(trace.source.len(), 8);
    assert_eq!(trace.unique_lines_set.len(), 14);
    let mut lines: Vec<u32> = trace.unique_lines_set.iter().map(|l| l.num()).collect();
    lines.sort();
    assert_eq!(lines, (4..=17).collect::<Vec<u32>>());
    for b in &trace.source {
        assert_eq!(b.start.file(), b.end.file());
        assert!(b.start.num() < b.end.num());
    }
}

#[test]
fn ancestors() {
    let mut cfg = config();
    cfg.target_include_filter = vec!["/usr/include/mylib".to_string(), "/opt/sdk/inc".to_string()];
    assert!(check_ancestors("/work/test_data/sources/main.c", &cfg));
    assert!(check_ancestors("/work/test_data/sources/deep/down/x.c", &cfg));
    assert!(!check_ancestors("/work/test_data/other.c", &cfg));
    assert!(!check_ancestors("/work/test_data/sources2/x.c", &cfg));
    assert!(check_ancestors("/usr/include/mylib/a.h", &cfg));
    assert!(check_ancestors("/usr/include/sibling/a.h", &cfg));
    assert!(check_ancestors("/usr/include/a.h", &cfg));
    assert!(!check_ancestors("/usr/a.h", &cfg));
    assert!(check_ancestors("/opt/sdk/x/y.h", &cfg));
    assert!(!check_ancestors("/opt/other/y.h", &cfg));
    assert!(!check_ancestors("/", &cfg));
    assert!(!check_ancestors("", &cfg));
}

#[test]
fn unreadable_source_gives_lines_that_the_index_does_not_know() {
    let mut sut = sut();
    let mut r = Resolution::new();
    let file = r.file(SourceFile { path: MAIN.to_string(), is_dir: false, content: None });
    let trace = map_trace(
        r.ends(Some(ResolvedAddress { file, line: 3 }), Some(ResolvedAddress { file, line: 4 })),
        &mut sut,
    );
    assert_eq!(trace.source.len(), 1);
    assert_eq!(trace.unique_lines_set.len(), 2);
    assert_eq!(sut.get_all_lines(FileId::new(1)).len(), 0);
}

#[test]
fn verdicts_decide_what_is_mapped() {
    let mut r = Resolution::new().block(MAIN, 1, 2).block(FOO, 3, 4).block("/else/x.c", 5, 6);
    let verdicts = TraceMap::decide(&r.files, &config(), &sut());
    assert_eq!(
        verdicts,
        vec![
            Verdict { admissible: true, passes: true },
            Verdict { admissible: true, passes: true },
            Verdict { admissible: false, passes: false },
        ]
    );
    let chosen = vec![
        Verdict { admissible: true, passes: false },
        Verdict { admissible: false, passes: true },
        Verdict { admissible: true, passes: true },
    ];
    let two = r.at(FOO, 2);
    r = r.ends(two, two);
    let entries: Vec<(u32, u16, u16)> = (0..4).map(|i| (16 * i as u32, 8, 0)).collect();
    let map = TraceMap::new(&drcov(&entries), &config()).unwrap();
    let mut index = SUT::new();
    let trace = map.map_blocks(&r.files, &chosen, &r.blocks, &mut index);
    assert_eq!(index.get_all_files(), vec![MAIN, "/else/x.c"]);
    let other = FileId::new(2);
    assert_eq!(
        trace.source,
        vec![SrcCovBasicBlock { start: LineId::new(other, 5), end: LineId::new(other, 6) }]
    );
    assert_eq!(trace.binary, vec![DrCovBasicBlock::new(0x4000000020, 0x4000000028)]);
    assert_eq!(trace.unique_lines_set, vec![LineId::new(other, 5), LineId::new(other, 6)]);
}

#[test]
fn blocks_of_a_module_of_a_trace_that_has_been_read() {
    let bytes = drcov(&[(0x10, 4, 0), (0x20, 4, 1), (0x30, 2, 0)]);
    let reader = fuzz_coverage::drcov::DrCovReader::read(&bytes).unwrap();
    let map = TraceMap::from_module(&reader, 1).unwrap();
    assert_eq!(map.addresses(), vec![(0x20, 0x24)]);
    let map = TraceMap::from_module(&reader, 0).unwrap();
    assert_eq!(map.addresses(), vec![(0x10, 0x14), (0x30, 0x32)]);
    let map = TraceMap::from_module(&reader, 5).unwrap();
    assert_eq!(map.block_count(), 0);
}

#[test]
fn test_trace_map_input_b() {
    let config = config();
    let mut sut_db = SUT::new();
    sut_db.parse_config(&config);
    let resolved =
        Resolution::new().chain(MAIN, 1, 12).chain(FOO, 3, 5).block(MAIN, 4, 4).ends(None, None);
    let parsed_trace = map_trace(resolved, &mut sut_db);
    assert_eq!(parsed_trace.binary.len(), parsed_trace.source.len());
    println!("{:?}", parsed_trace);
    assert_eq!(parsed_trace.binary.len(), 17);
}

#[test]
fn test_trace_map_input_a() {
    let config = config();
    let mut sut_db = SUT::new();
    sut_db.parse_config(&config);
    let resolved = Resolution::new().chain(MAIN, 1, 17).chain(MAIN, 5, 3);
    let parsed_trace = map_trace(resolved, &mut sut_db);
    assert_eq!(parsed_trace.binary.len(), parsed_trace.source.len());
    println!("{:?}", parsed_trace);
    assert_eq!(parsed_trace.binary.len(), 17);
    assert_eq!(parsed_trace.source.len(), 17);
}

#[test]
fn test_trace_map_input_c() {
    let config = config();
    let mut sut_db = SUT::new();
    sut_db.parse_config(&config);
    let resolved = Resolution::new().chain(FOO, 10, 5).block("/usr/include/stdio.h", 1, 2);
    let parsed_trace = map_trace(resolved, &mut sut_db);
    assert_eq!(parsed_trace.binary.len(), parsed_trace.source.len());
    println!("{:?}", parsed_trace);
    assert_eq!(parsed_trace.binary.len(), 5);
    assert_eq!(parsed_trace.source.len(), 5);
}
