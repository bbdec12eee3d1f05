use fuzz_coverage::config::FuzzerConfig;
use fuzz_coverage::config::TargetConfig;
use fuzz_coverage::custom_types::FileId;
use fuzz_coverage::custom_types::InputId;
use fuzz_coverage::custom_types::LineId;
use fuzz_coverage::input_name::NameError;
use fuzz_coverage::inputs_database::InputError;
use fuzz_coverage::inputs_database::InputsDatabase;
use fuzz_coverage::queries::byte_change_counts;
use fuzz_coverage::sut_database::SUT;
use fuzz_coverage::trace_map::ResolvedAddress;
use fuzz_coverage::trace_map::ResolvedBlock;
use fuzz_coverage::trace_map::SourceFile;
use fuzz_coverage::trace_map::Trace;
use fuzz_coverage::trace_map::TraceMap;
use std::collections::HashMap;

const DIR: &str = "/work/test_data/test1";
const SEED_A: &str = "traces/id:000000::time:0::executed_on:1753701940885::execs:0::orig:a.trace";
const SEED_B: &str = "traces/id:000001::time:0::executed_on:1753701940885::execs:0::orig:b.trace";
const INPUT_2: &str = "traces/cycle:1::id:000002::executed_on:1753701941117::src:000001::time:191::execs:378::op:havoc::rep:2::+cov::gain:2::score:100::depth:1::bitmap_cvg:0.02::edges_found:123.trace";
const INPUT_3: &str = "traces/cycle:2::id:000003::executed_on:1753701941262::src:000002::time:336::execs:656::op:havoc::rep:1::+cov::gain:2::score:200::depth:2::bitmap_cvg:0.02::edges_found:123.trace";
const INPUT_5: &str = "traces/cycle:2::id:000005::executed_on:1753701941381::src:000002::time:455::execs:880::op:havoc::rep:1::gain:1::score:200::depth:2::bitmap_cvg:0.02::edges_found:123.trace";
const INPUT_7: &str = "traces/cycle:2::id:000007::executed_on:1753701941458::src:000002::time:532::execs:1020::op:havoc::rep:4::gain:1::score:200::depth:2::bitmap_cvg:0.02::edges_found:123.trace";

const SOURCE: &str = "#include <stdio.h>\n\n// entry\nint main(int argc, char **argv) {\n  int x = 0;\n  /* read */\n  x = argc;\n  if (x > 1) {\n    x = 2;\n  }\n\n  x += 1;\n  *\n  x += 2;\n  x += 3;\n  return x;\n}\n";

fn path(name: &str) -> String {
    format!("{}/{}", DIR, name)
}

fn config() -> TargetConfig {
    TargetConfig {
        target_path: path("test_binary"),
        target_source_code_path: path("sources"),
        target_include_filter: vec![],
        allowed_extensions: vec![],
    }
}

fn drcov(count: usize) -> Vec<u8> {
    let mut h = String::from("DRCOV VERSION: 2\nDRCOV FLAVOR: drcov-64\n");
    h.push_str("Module Table: version 2, count 1\n");
    h.push_str("Columns: id, base, end, entry, path\n");
    h.push_str(&format!("0, 0x4000000000, 0x4000004000, 0x0, {}\n", path("test_binary")));
    h.push_str(&format!("BB Table: {} bbs\n", count));
    let mut bytes = h.into_bytes();
    for i in 0..count {
        bytes.extend_from_slice(&(0x1000 + 16 * i as u32).to_le_bytes());
        bytes.extend_from_slice(&8u16.to_le_bytes());
        bytes.extend_from_slice(&0u16.to_le_bytes());
    }
    bytes
}

fn trace_of(blocks: &[(u32, u32)], sut: &mut SUT) -> Trace {
    let cfg = config();
    let files = vec![SourceFile {
        path: path("sources/main.c"),
        is_dir: false,
        content: Some(SOURCE.to_string()),
    }];
    let resolved: Vec<ResolvedBlock> = blocks
        .iter()
        .map(|b| ResolvedBlock {
            start: Some(ResolvedAddress { file: 0, line: b.0 }),
            end: Some(ResolvedAddress { file: 0, line: b.1 }),
        })
        .collect();
    let map = TraceMap::new(&drcov(blocks.len()), &cfg).unwrap();
    map.parse_with_config(&files, &resolved, &cfg, sut)
}

fn seed_trace(sut: &mut SUT) -> Trace {
    trace_of(&[(4, 5), (5, 6), (6, 8), (8, 9), (9, 11), (11, 12), (12, 14), (14, 16)], sut)
}

fn input_trace(sut: &mut SUT) -> Trace {
    trace_of(&[(4, 7), (7, 10), (12, 16)], sut)
}

fn new_sut() -> SUT {
    let mut sut = SUT::new();
    sut.parse_config(&config());
    sut
}

fn lineage() -> (InputsDatabase, SUT) {
    let mut db = InputsDatabase::new();
    let mut sut = new_sut();
    for seed in [SEED_A, SEED_B] {
        let trace = seed_trace(&mut sut);
        db.add_initial_seed(&path(seed), trace, &mut sut, 0).unwrap();
    }
    for input in [INPUT_2, INPUT_7] {
        let trace = input_trace(&mut sut);
        db.add_input(&path(input), trace, &mut sut, 0).unwrap();
    }
    (db, sut)
}

#[test]
fn test_fuzzer_config_1() {
    let config = FuzzerConfig {
        fuzzer_configuration_id: 42,
        traces_directory_path: "Hello".to_string(),
        inputs_directory_path: "Hello".to_string(),
        fuzzer_configuration: "World".to_string(),
    };
    let mut input_db = InputsDatabase::new();
    input_db.add_fuzzer_configuration(&config);

    assert_eq!(
        input_db
            .get_fuzzer_configuration(&42)
            .unwrap()
            .fuzzer_configuration,
        config.fuzzer_configuration
    );
}

#[test]
fn configuration_with_a_known_id_is_replaced() {
    let mut db = InputsDatabase::new();
    for (id, name) in [(1, "first"), (2, "second"), (1, "third")] {
        db.add_fuzzer_configuration(&FuzzerConfig {
            fuzzer_configuration_id: id,
            traces_directory_path: "t".to_string(),
            inputs_directory_path: "i".to_string(),
            fuzzer_configuration: name.to_string(),
        });
    }
    assert_eq!(db.get_all_fuzzer_configurations().len(), 2);
    assert_eq!(db.get_fuzzer_configuration(&1).unwrap().fuzzer_configuration, "third");
    assert_eq!(db.get_fuzzer_configuration(&2).unwrap().fuzzer_configuration, "second");
    assert!(db.get_fuzzer_configuration(&3).is_none());
}

#[test]
fn test_input_1() {
    let mut input_db = InputsDatabase::new();
    let mut sut_db = new_sut();
    let trace = input_trace(&mut sut_db);
    input_db.add_input(&path(INPUT_2), trace, &mut sut_db, 0).unwrap();

    assert_eq!(input_db.get_all_inputs_meta_info().len(), 1);
    assert_eq!(
        input_db.get_inputs_meta_info_for(&InputId::new(1)).fuzzer_coverage,
        123
    );
    let meta = input_db.get_inputs_meta_info_for(&InputId::new(1));
    assert_eq!(meta.fuzz_input_id, 2);
    assert_eq!(meta.parents, vec![1]);
}

#[test]
fn test_input_2() {
    let mut input_db = InputsDatabase::new();
    let mut sut_db = new_sut();
    let trace = input_trace(&mut sut_db);
    input_db.add_input(&path(INPUT_5), trace, &mut sut_db, 0).unwrap();

    assert_eq!(
        input_db.get_inputs_meta_info_for(&InputId::new(1)).fuzzer_coverage,
        123
    );
}

#[test]
fn test_input_multiple_1() {
    let mut input_db = InputsDatabase::new();
    let mut sut_db = new_sut();
    let trace = input_trace(&mut sut_db);
    input_db.add_input(&path(INPUT_3), trace, &mut sut_db, 0).unwrap();
    let trace = input_trace(&mut sut_db);
    input_db.add_input(&path(INPUT_7), trace, &mut sut_db, 0).unwrap();

    let all = input_db.get_all_inputs_meta_info();
    let input_meta = all.iter().find(|m| m.id == InputId::new(1)).unwrap();
    assert_eq!(input_meta.fuzzer_coverage, 123);
}

#[test]
fn test_initial_seed_1() {
    let mut input_db = InputsDatabase::new();
    let mut sut_db = new_sut();
    let trace = seed_trace(&mut sut_db);
    input_db.add_initial_seed(&path(SEED_A), trace, &mut sut_db, 0).unwrap();

    let input_meta = input_db.get_all_initial_seeds_meta_info(&0);

    let initial_seed_trace = input_db.get_trace_for(&input_meta[0].id);

    assert_eq!(input_db.get_all_initial_seeds_meta_info(&0).len(), 1);
    assert_eq!(input_meta[0].executed_on, 1753701940885);
    assert!(input_meta[0].is_initial_seed);
    assert_eq!(
        input_meta[0].file_name_stem,
        "id:000000::time:0::executed_on:1753701940885::execs:0::orig:a"
    );
    assert_eq!(initial_seed_trace.unique_lines_set.len(), 13);
    assert_eq!(initial_seed_trace.source.len(), 8);
}

#[test]
fn test_initial_seed_multiple() {
    let mut input_db = InputsDatabase::new();
    let mut sut_db = new_sut();
    let trace = seed_trace(&mut sut_db);
    input_db.add_initial_seed(&path(SEED_A), trace, &mut sut_db, 0).unwrap();
    let trace = seed_trace(&mut sut_db);
    input_db.add_initial_seed(&path(SEED_B), trace, &mut sut_db, 0).unwrap();

    let input_meta = input_db.get_all_initial_seeds_meta_info(&0);

    let initial_seed_trace = input_db.get_trace_for(&input_meta[0].id);

    assert_eq!(input_db.get_all_initial_seeds_meta_info(&0).len(), 2);
    assert_eq!(input_meta[0].executed_on, 1753701940885);
    assert!(input_meta[0].is_initial_seed);
    assert!(input_meta[1].is_initial_seed);
    assert_eq!(initial_seed_trace.unique_lines_set.len(), 13);
    assert_eq!(initial_seed_trace.source.len(), 8);
    let other = input_db.get_trace_for(&input_meta[1].id);
    assert_eq!(other.unique_lines_set.len(), 13);
    assert_eq!(other.source.len(), 8);
}

#[test]
fn test_parent() {
    let (input_db, _sut_db) = lineage();

    assert_eq!(input_db.get_all_initial_seeds_meta_info(&0).len(), 2);
    let mut check_parent = input_db.get_initial_seed_parents_for(&InputId::new(4), &0);
    assert_eq!(check_parent.len(), 1);
    assert_eq!(*check_parent.iter().next().unwrap(), InputId::new(2));

    check_parent = input_db.get_initial_seed_parents_for(&InputId::new(3), &0);
    assert_eq!(check_parent.len(), 1);
    assert_eq!(*check_parent.iter().next().unwrap(), InputId::new(2));
}

#[test]
fn test_all_children() {
    let (mut input_db, _sut_db) = lineage();
    input_db.post_process();

    let children = input_db.get_all_children_input_ids_for(&0, &vec![1]);
    assert_eq!(children.len(), 2);
    assert_eq!(children, vec![InputId::new(3), InputId::new(4)]);
    assert!(input_db.has_children_for(&0, &1));
    assert!(!input_db.has_children_for(&0, &0));
    assert!(!input_db.has_children_for(&1, &1));
}

#[test]
fn test_initial_seed_parent() {
    let (input_db, _sut_db) = lineage();

    assert_eq!(input_db.get_all_initial_seeds_meta_info(&0).len(), 2);
    let check_parent = input_db.get_initial_seed_parents_for(&InputId::new(1), &0);
    assert_eq!(check_parent.len(), 0);
}

#[test]
fn test_compare_inputs() {
    let (mut input_db, _sut_db) = lineage();
    input_db.add_fuzzer_configuration(&FuzzerConfig {
        fuzzer_configuration: "test".to_string(),
        traces_directory_path: path("traces"),
        inputs_directory_path: path("fuzzer_queue"),
        fuzzer_configuration_id: 0,
    });
    input_db.post_process();

    let mut ground_truth: HashMap<usize, u32> = HashMap::new();
    ground_truth.insert(0, 2);
    ground_truth.insert(1, 2);
    ground_truth.insert(2, 2);
    ground_truth.insert(3, 2);
    ground_truth.insert(4, 1);
    ground_truth.insert(5, 1);
    ground_truth.insert(6, 1);
    ground_truth.insert(7, 1);
    let seed = b"AAAA".to_vec();
    let children = vec![b"BBBBCCCC".to_vec(), b"CCCCCCCC".to_vec()];
    let byte_changes = input_db.compare_inputs(&0, &1, &seed, &children);
    println!("byte changes: {:?}", byte_changes);
    assert_eq!(byte_changes, ground_truth);
}

#[test]
fn byte_changes_are_counted_against_the_byte_seen_last() {
    let counts = byte_change_counts(
        &b"abc".to_vec(),
        &vec![b"abc".to_vec(), b"xb".to_vec(), b"".to_vec(), b"xbcd".to_vec(), b"ybcde".to_vec()],
    );
    assert_eq!(counts, vec![2, 0, 0, 1, 1]);
    assert_eq!(byte_change_counts(&vec![], &vec![]), Vec::<u32>::new());
    assert_eq!(byte_change_counts(&b"ab".to_vec(), &vec![]), vec![0, 0]);
    assert_eq!(byte_change_counts(&vec![], &vec![b"ab".to_vec(), b"ab".to_vec()]), vec![1, 1]);
    let counts = byte_change_counts(&b"a".to_vec(), &vec![b"b".to_vec(), b"a".to_vec(), b"b".to_vec()]);
    assert_eq!(counts, vec![3]);
}

#[test]
fn inputs_get_ids_in_the_order_of_registration() {
    let (db, _sut) = lineage();
    assert_eq!(db.input_count(), 4);
    assert_eq!(db.get_all_initial_seeds_for_fuzzer_id(&0), vec![InputId::new(1), InputId::new(2)]);
    assert_eq!(db.get_all_inputs_for_fuzzer_id(&0), vec![InputId::new(3), InputId::new(4)]);
    assert_eq!(db.get_all_initial_seeds_for_fuzzer_id(&1), vec![]);
    assert_eq!(db.get_all_inputs_for_fuzzer_id(&1), vec![]);
    assert_eq!(db.get_input_id_for(&0, &0), InputId::new(1));
    assert_eq!(db.get_input_id_for(&0, &1), InputId::new(2));
    assert_eq!(db.get_input_id_for(&0, &2), InputId::new(3));
    assert_eq!(db.get_input_id_for(&0, &7), InputId::new(4));
    assert_eq!(db.find_input_id(&0, &3), None);
    assert_eq!(db.find_input_id(&1, &2), None);
    for k in 1..=4 {
        assert_eq!(db.get_meta(&InputId::new(k)).unwrap().id, InputId::new(k));
    }
    assert!(db.get_meta(&InputId::new(0)).is_none());
    assert!(db.get_meta(&InputId::new(5)).is_none());
    let seed = db.get_meta(&InputId::new(2)).unwrap();
    assert!(seed.is_initial_seed);
    assert_eq!(seed.fuzz_input_id, 1);
    assert_eq!(seed.fuzzer_configuration, 0);
    let derived = db.get_inputs_meta_info_for(&InputId::new(4));
    assert!(!derived.is_initial_seed);
    assert_eq!(derived.fuzz_input_id, 7);
    assert_eq!(derived.parents, vec![2]);
    assert_eq!(derived.execution_time, 532);
    assert_eq!(derived.total_mutations_required_to_generate, 1020);
    assert_eq!(derived.executed_on, 1753701941458);
    assert_eq!(db.get_trace_for(&InputId::new(4)).source.len(), 3);
}

#[test]
fn last_input_registered_under_a_name_is_found() {
    let mut db = InputsDatabase::new();
    let mut sut = new_sut();
    for _ in 0..2 {
        db.add_input("/t/id:5::executed_on:1.trace", Trace::new(), &mut sut, 3).unwrap();
    }
    db.add_input("/t/id:5::executed_on:1.trace", Trace::new(), &mut sut, 4).unwrap();
    assert_eq!(db.find_input_id(&3, &5), Some(InputId::new(2)));
    assert_eq!(db.find_input_id(&4, &5), Some(InputId::new(3)));
    assert_eq!(db.find_input_id(&5, &3), None);
}

#[test]
fn run_times_span_the_derived_inputs() {
    let (db, _sut) = lineage();
    assert_eq!(db.get_run_times_for_fuzzer_id(&0), (1753701941117, 1753701941458));
    assert_eq!(db.find_run_times(&0), Some((1753701941117, 1753701941458)));
    assert_eq!(db.find_run_times(&1), None);
    let mut seeds_only = InputsDatabase::new();
    let mut sut = new_sut();
    seeds_only.add_input(&path(SEED_A), Trace::new(), &mut sut, 0).unwrap();
    assert_eq!(seeds_only.find_run_times(&0), None);
}

#[test]
fn coverage_is_recorded_for_lines_that_are_no_comments() {
    let mut db = InputsDatabase::new();
    let mut sut = new_sut();
    let trace = trace_of(&[(1, 6)], &mut sut);
    let file = FileId::new(1);
    db.add_input(&path(INPUT_2), trace, &mut sut, 9).unwrap();
    let meta = db.get_inputs_meta_info_for(&InputId::new(1));
    assert_eq!(
        meta.source_line_coverage,
        vec![LineId::new(file, 1), LineId::new(file, 4), LineId::new(file, 5)]
    );
    for (line, hits) in [(1, 1), (2, 0), (3, 0), (4, 1), (5, 1), (6, 0), (7, 0)] {
        assert_eq!(sut.get_line_meta(LineId::new(file, line)).unwrap().hit_count, hits);
    }
    assert_eq!(sut.get_file_meta(&file).unwrap().unique_line_hits.get(&9), Some(&3));
    let trace = trace_of(&[(4, 8)], &mut sut);
    db.add_input(&path(INPUT_3), trace, &mut sut, 9).unwrap();
    let trace = trace_of(&[(5, 7)], &mut sut);
    db.add_input(&path(INPUT_5), trace, &mut sut, 2).unwrap();
    for (line, hits, configs) in
        [(1, 1, vec![9]), (4, 2, vec![9]), (5, 3, vec![9, 2]), (7, 2, vec![9, 2]), (8, 1, vec![9])]
    {
        let m = sut.get_line_meta(LineId::new(file, line)).unwrap();
        assert_eq!(m.hit_count, hits);
        assert_eq!(m.fuzzer_configuration_ids, configs);
        assert!(m.hit_count as usize >= m.fuzzer_configuration_ids.len());
    }
    let hits = &sut.get_file_meta(&file).unwrap().unique_line_hits;
    assert_eq!(hits.get(&9), Some(&5));
    assert_eq!(hits.get(&2), Some(&2));
    for c in [9u32, 2] {
        let covered = sut
            .get_all_lines(file)
            .iter()
            .filter(|l| l.fuzzer_configuration_ids.contains(&c))
            .count();
        assert_eq!(hits.get(&c).copied().unwrap() as usize, covered);
    }
}

#[test]
fn lines_that_the_index_does_not_know_are_covered_without_record() {
    let mut db = InputsDatabase::new();
    let mut sut = new_sut();
    let file = FileId::new(1);
    let trace = trace_of(&[(17, 19)], &mut sut);
    db.add_input(&path(INPUT_2), trace, &mut sut, 0).unwrap();
    assert_eq!(
        db.get_inputs_meta_info_for(&InputId::new(1)).source_line_coverage,
        vec![LineId::new(file, 17), LineId::new(file, 18), LineId::new(file, 19)]
    );
    assert_eq!(sut.get_line_meta(LineId::new(file, 17)).unwrap().hit_count, 1);
    assert!(sut.get_line_meta(LineId::new(file, 18)).is_none());
    assert_eq!(sut.get_file_meta(&file).unwrap().unique_line_hits.get(&0), Some(&1));
}

#[test]
fn names_that_cannot_be_read_are_refused() {
    let mut db = InputsDatabase::new();
    let mut sut = new_sut();
    assert_eq!(db.add_input("/", Trace::new(), &mut sut, 0), Err(InputError::NoFileName));
    assert_eq!(db.add_input("", Trace::new(), &mut sut, 0), Err(InputError::NoFileName));
    assert_eq!(
        db.add_input("/t/executed_on:5.trace", Trace::new(), &mut sut, 0),
        Err(InputError::Name(NameError::MissingId))
    );
    assert_eq!(
        db.add_input("/t/id:5.trace", Trace::new(), &mut sut, 0),
        Err(InputError::Name(NameError::MissingExecutedOn))
    );
    assert_eq!(
        db.add_input("/t/id:5::executed_on:5::time:soon.trace", Trace::new(), &mut sut, 0),
        Err(InputError::Name(NameError::BadSegment { index: 2 }))
    );
    assert_eq!(db.input_count(), 0);
    assert_eq!(db.add_input("/t/id:5::executed_on:5.trace", Trace::new(), &mut sut, 0), Ok(InputId::new(1)));
}

#[test]
fn full_hit_counter_refuses_the_input() {
    let mut db = InputsDatabase::new();
    let mut sut = new_sut();
    let trace = trace_of(&[(4, 5)], &mut sut);
    let line = LineId::new(FileId::new(1), 4);
    sut.get_mut_line_meta(line).unwrap().hit_count = u32::MAX;
    assert_eq!(db.add_input(&path(INPUT_2), trace, &mut sut, 0), Err(InputError::HitCountOverflow));
    assert_eq!(db.input_count(), 0);
    assert_eq!(sut.get_line_meta(LineId::new(FileId::new(1), 5)).unwrap().hit_count, 0);
}

#[test]
fn name_decides_between_seed_and_derived_input() {
    let mut db = InputsDatabase::new();
    let mut sut = new_sut();
    db.add_input("/t/id:1::executed_on:5::orig:x.trace", Trace::new(), &mut sut, 0).unwrap();
    db.add_input("/t/id:2::executed_on:5::src:1.trace", Trace::new(), &mut sut, 0).unwrap();
    db.add_input("/t/id:3::executed_on:5::name:original.trace", Trace::new(), &mut sut, 0).unwrap();
    db.add_initial_seed("/t/id:4::executed_on:5.trace", Trace::new(), &mut sut, 0).unwrap();
    db.add_trace_input("/t/id:5::executed_on:5::orig:y.trace", Trace::new(), &mut sut, 0).unwrap();
    let kinds: Vec<bool> =
        (1..=5).map(|k| db.get_meta(&InputId::new(k)).unwrap().is_initial_seed).collect();
    assert_eq!(kinds, vec![true, false, true, true, false]);
    assert_eq!(db.get_meta(&InputId::new(1)).unwrap().file_name_stem, "id:1::executed_on:5::orig:x");
}

#[test]
fn seeds_are_found_through_chains_of_parents() {
    let mut db = InputsDatabase::new();
    let mut sut = new_sut();
    let names = [
        "id:0::executed_on:1::orig:a",
        "id:1::executed_on:1::orig:b",
        "id:2::executed_on:2::src:0",
        "id:3::executed_on:3::src:2+1",
        "id:4::executed_on:4::src:3+4",
        "id:5::executed_on:5::src:6",
        "id:6::executed_on:6::src:5+99",
        "id:7::executed_on:7",
    ];
    for name in names {
        db.add_input(&format!("/q/{}.trace", name), Trace::new(), &mut sut, 0).unwrap();
    }
    let seeds = |id: usize| db.get_initial_seed_parents_for(&InputId::new(id), &0);
    assert_eq!(seeds(1), vec![]);
    assert_eq!(seeds(3), vec![InputId::new(1)]);
    assert_eq!(seeds(4), vec![InputId::new(1), InputId::new(2)]);
    assert_eq!(seeds(5), vec![InputId::new(1), InputId::new(2)]);
    assert_eq!(seeds(6), vec![]);
    assert_eq!(seeds(7), vec![]);
    assert_eq!(seeds(8), vec![]);
    assert_eq!(seeds(9), vec![]);
    assert_eq!(seeds(0), vec![]);
    assert_eq!(db.get_initial_seed_parents_for(&InputId::new(4), &1), vec![]);
    assert_eq!(db.get_parents_for(&InputId::new(5), &0), vec![InputId::new(1), InputId::new(2)]);
    for id in 1..=8 {
        for seed in seeds(id) {
            assert!(db.get_meta(&seed).unwrap().is_initial_seed);
        }
    }
    db.post_process();
    assert_eq!(
        db.get_all_children_input_ids_for(&0, &vec![0]),
        vec![InputId::new(3), InputId::new(4), InputId::new(5)]
    );
    assert_eq!(
        db.get_all_children_input_ids_for(&0, &vec![1]),
        vec![InputId::new(4), InputId::new(5)]
    );
    assert_eq!(
        db.get_all_children_input_ids_for(&0, &vec![0, 1]),
        vec![InputId::new(4), InputId::new(5)]
    );
    assert_eq!(
        db.get_all_children_input_ids_for(&0, &vec![1, 0, 1]),
        vec![InputId::new(4), InputId::new(5)]
    );
    assert_eq!(db.get_all_children_input_ids_for(&0, &vec![0, 7]), vec![]);
    assert_eq!(db.get_all_children_input_ids_for(&0, &vec![]), vec![]);
    assert!(!db.has_children_for(&0, &7));
    assert_eq!(db.get_children_index().len(), 2);
    db.post_process();
    assert_eq!(db.get_children_index().len(), 2);
    assert_eq!(db.get_all_children_input_ids_for(&0, &vec![1]).len(), 2);
}

#[test]
fn coverage_by_file() {
    let mut db = InputsDatabase::new();
    let mut sut = new_sut();
    let trace = trace_of(&[(4, 5)], &mut sut);
    db.add_input(&path(SEED_B), trace, &mut sut, 0).unwrap();
    let trace = trace_of(&[(7, 9)], &mut sut);
    db.add_input(&path(INPUT_2), trace, &mut sut, 0).unwrap();
    db.add_input(&path(INPUT_7), Trace::new(), &mut sut, 0).unwrap();
    db.post_process();
    let file = FileId::new(1);
    let lines = db.get_initial_seed_line_coverage_for_file_id(&0, &1, &file, &sut);
    let numbers: Vec<u32> = lines.iter().map(|l| l.line_num).collect();
    assert_eq!(numbers, vec![4, 5]);
    assert_eq!(lines[0].hit_count, 1);
    assert_eq!(db.get_initial_seed_line_coverage_for_file_id(&0, &1, &FileId::new(2), &sut).len(), 0);
    let children = db.get_all_children_line_coverage_for_file_id(&0, &1, &file, &sut);
    assert_eq!(children.len(), 1);
    assert_eq!(children[0].0, InputId::new(2));
    let numbers: Vec<u32> = children[0].1.iter().map(|l| l.line_num).collect();
    assert_eq!(numbers, vec![7, 8, 9]);
    assert_eq!(db.get_all_children_line_coverage_for_file_id(&0, &0, &file, &sut).len(), 0);
    assert_eq!(db.get_all_children_line_coverage_for_file_id(&0, &1, &FileId::new(2), &sut).len(), 0);
}

#[test]
fn no_line_is_reported_twice() {
    let mut db = InputsDatabase::new();
    let mut sut = new_sut();
    let trace = trace_of(&[(4, 6), (5, 8), (4, 6), (8, 6), (7, 8)], &mut sut);
    assert_eq!(trace.source.len(), 3);
    db.add_input(&path(SEED_B), trace, &mut sut, 0).unwrap();
    let lines = db.get_initial_seed_line_coverage_for_file_id(&0, &1, &FileId::new(1), &sut);
    let mut numbers: Vec<u32> = lines.iter().map(|l| l.line_num).collect();
    assert_eq!(numbers.len(), 4);
    numbers.sort();
    assert_eq!(numbers, vec![4, 5, 7, 8]);
    let covered = &db.get_inputs_meta_info_for(&InputId::new(1)).source_line_coverage;
    for (i, l) in covered.iter().enumerate() {
        assert!(!covered[..i].contains(l));
    }
}

#[test]
fn raw_file_of_an_input() {
    let (db, _sut) = lineage();
    assert_eq!(
        InputsDatabase::raw_file_name(db.get_meta(&InputId::new(2)).unwrap()),
        "id:000001,time:0,executed_on:1753701940885,execs:0,orig:b"
    );
}

#[test]
fn input_is_registered_by_its_stem() {
    let mut db = InputsDatabase::new();
    let mut sut = new_sut();
    let stem = "id:000004::executed_on:77::src:000001::edges_found:9".to_string();
    assert_eq!(db.add_stem(stem.clone(), Trace::new(), &mut sut, 2, None), Ok(InputId::new(1)));
    assert_eq!(db.add_stem(stem.clone(), Trace::new(), &mut sut, 2, Some(true)), Ok(InputId::new(2)));
    assert_eq!(
        db.add_stem("id:x".to_string(), Trace::new(), &mut sut, 2, None),
        Err(InputError::Name(NameError::BadSegment { index: 0 }))
    );
    let meta = db.get_meta(&InputId::new(1)).unwrap();
    assert_eq!(meta.file_name_stem, stem);
    assert_eq!(meta.fuzz_input_id, 4);
    assert_eq!(meta.fuzzer_configuration, 2);
    assert_eq!(meta.fuzzer_coverage, 9);
    assert!(!meta.is_initial_seed);
    assert!(db.get_meta(&InputId::new(2)).unwrap().is_initial_seed);
}
