use fuzz_coverage::app_state::AppState;
use fuzz_coverage::clusters::check_clusters;
use fuzz_coverage::clusters::get_all_input_clusters;
use fuzz_coverage::clusters::SeedShare;
use fuzz_coverage::clusters::UIInputClusters;
use fuzz_coverage::clusters::UIInputClustersRequest;
use fuzz_coverage::clusters::UILineAndBitmapCoverage;
use fuzz_coverage::config::FuzzerConfig;
use fuzz_coverage::config::TargetConfig;
use fuzz_coverage::config::UserConfig;
use fuzz_coverage::custom_types::FileId;
use fuzz_coverage::custom_types::FileMeta;
use fuzz_coverage::custom_types::InputId;
use fuzz_coverage::custom_types::InputMeta;
use fuzz_coverage::inputs_database::InputsDatabase;
use fuzz_coverage::responders::check_times;
use fuzz_coverage::responders::compress_counts;
use fuzz_coverage::responders::get_fuzzer_info;
use fuzz_coverage::responders::get_initial_seeds_line_coverage_for_file;
use fuzz_coverage::responders::get_inputs_comparison;
use fuzz_coverage::responders::get_line_coverage_for_file;
use fuzz_coverage::responders::get_line_coverage_over_time;
use fuzz_coverage::responders::get_sut;
use fuzz_coverage::responders::get_sut_file_id_name_map;
use fuzz_coverage::responders::shown_name;
use fuzz_coverage::responders::CompareSeedsRequest;
use fuzz_coverage::responders::InitialSeedsLineCoverageRequest;
use fuzz_coverage::responders::LineCoverageRequest;
use fuzz_coverage::responders::UIFileInfo;
use fuzz_coverage::responders::UIOverviewInfo;
use fuzz_coverage::sut_database::SUT;
use fuzz_coverage::timeline::get_initial_seed_timeline;
use fuzz_coverage::timeline::TimelineRequest;
use fuzz_coverage::timeline::TimelineResponse;
use fuzz_coverage::trace_map::ResolvedAddress;
use fuzz_coverage::trace_map::ResolvedBlock;
use fuzz_coverage::trace_map::SourceFile;
use fuzz_coverage::trace_map::Trace;
use fuzz_coverage::trace_map::TraceMap;

const ANCHOR: i64 = 1704067200000;
const SOURCE: &str = "int a;\n// note\nint b;\nint c;\nint d;\n";

fn target() -> TargetConfig {
    TargetConfig {
        target_path: "/bin/target".to_string(),
        target_source_code_path: "/src".to_string(),
        target_include_filter: vec![],
        allowed_extensions: vec![],
    }
}

fn fuzzer(id: u32, name: &str) -> FuzzerConfig {
    FuzzerConfig {
        fuzzer_configuration: name.to_string(),
        traces_directory_path: format!("/runs/{}/traces", name),
        inputs_directory_path: format!("/runs/{}/queue", name),
        fuzzer_configuration_id: id,
    }
}

fn trace_of(file: &str, blocks: &[(u32, u32)], sut: &mut SUT) -> Trace {
    let mut h = String::from("DRCOV VERSION: 2\nModule Table: version 2, count 1\n");
    h.push_str("Columns: id, base, end, entry, path\n0, 0x1000, 0x9000, 0x0, /bin/target\n");
    h.push_str(&format!("BB Table: {} bbs\n", blocks.len()));
    let mut bytes = h.into_bytes();
    for i in 0..blocks.len() {
        bytes.extend_from_slice(&(16 * i as u32).to_le_bytes());
        bytes.extend_from_slice(&4u16.to_le_bytes());
        bytes.extend_from_slice(&0u16.to_le_bytes());
    }
    let files = vec![SourceFile {
        path: file.to_string(),
        is_dir: false,
        content: Some(SOURCE.to_string()),
    }];
    let resolved: Vec<ResolvedBlock> = blocks
        .iter()
        .map(|b| ResolvedBlock {
            start: Some(ResolvedAddress { file: 0, line: b.0 }),
            end: Some(ResolvedAddress { file: 0, line: b.1 }),
        })
        .collect();
    TraceMap::new(&bytes, &target()).unwrap().parse_with_config(&files, &resolved, &target(), sut)
}

fn model() -> AppState {
    let mut db = InputsDatabase::new();
    let mut sut = SUT::new();
    sut.parse_config(&target());
    db.add_fuzzer_configuration(&fuzzer(0, "plain"));
    db.add_fuzzer_configuration(&fuzzer(3, "cmplog"));
    let inputs: [(&str, u32, &str, &[(u32, u32)]); 8] = [
        ("id:000000::time:0::executed_on:1000::execs:0::orig:a", 0, "/src/main.c", &[(1, 3)]),
        ("id:000001::time:0::executed_on:1000::execs:0::orig:b", 0, "/src/main.c", &[(3, 4)]),
        ("id:000002::executed_on:5000::src:000001::time:1::edges_found:10", 0, "/src/util.c", &[(4, 5)]),
        ("id:000000::time:0::executed_on:2000::execs:0::orig:a", 3, "/src/main.c", &[(1, 5)]),
        ("id:000003::executed_on:65000::src:000002+000000::time:2::edges_found:20", 0, "/src/main.c", &[(4, 5)]),
        ("id:000001::executed_on:9000::src:000000::time:3::edges_found:7", 3, "/src/main.c", &[]),
        ("id:000004::executed_on:125000::src:000003::time:4::edges_found:30", 0, "/src/main.c", &[]),
        ("id:000005::executed_on:5000::src:000099::time:4::edges_found:1", 0, "/src/main.c", &[]),
    ];
    for (name, config, file, blocks) in inputs {
        let trace = trace_of(file, blocks, &mut sut);
        db.add_input(&format!("/runs/x/traces/{}.trace", name), trace, &mut sut, config).unwrap();
    }
    db.post_process();
    AppState::new(db, sut)
}

#[test]
fn state_holds_both_parts() {
    let data = model();
    assert_eq!(data.get_inputs_db().input_count(), 8);
    assert_eq!(data.get_sut_db().get_all_files(), vec!["/src/main.c", "/src/util.c"]);
}

#[test]
fn fuzzer_info() {
    let data = model();
    let info = get_fuzzer_info(&data);
    assert_eq!(info.len(), 2);
    assert_eq!(info[0].fuzzer_configuration_id, 0);
    assert_eq!(info[0].fuzzer_configuration_name, "plain");
    assert_eq!(info[0].total_initial_seeds, 2);
    assert_eq!(info[0].total_inputs, 4);
    assert_eq!(info[0].run_time_millis, Some(120000));
    let map = &info[0].initial_seeds_children_input_id_map;
    assert_eq!(map.len(), 2);
    assert_eq!(map[0].seed_fuzz_input_id, 0);
    assert_eq!(map[0].children, vec![(5, 3), (7, 4)]);
    assert_eq!(map[1].seed_fuzz_input_id, 1);
    assert_eq!(map[1].children, vec![(3, 2), (5, 3), (7, 4)]);
    assert_eq!(info[1].fuzzer_configuration_id, 3);
    assert_eq!(info[1].fuzzer_configuration_name, "cmplog");
    assert_eq!(info[1].total_initial_seeds, 1);
    assert_eq!(info[1].total_inputs, 1);
    assert_eq!(info[1].run_time_millis, Some(0));
    assert_eq!(info[1].initial_seeds_children_input_id_map.len(), 1);
    assert_eq!(info[1].initial_seeds_children_input_id_map[0].children, vec![(6, 1)]);
}

#[test]
fn configuration_without_derived_inputs_has_no_run_time() {
    let mut db = InputsDatabase::new();
    let mut sut = SUT::new();
    db.add_fuzzer_configuration(&fuzzer(1, "idle"));
    db.add_input("/t/id:0::executed_on:5::orig:a.trace", Trace::new(), &mut sut, 1).unwrap();
    db.post_process();
    let data = AppState::new(db, sut);
    let info = get_fuzzer_info(&data);
    assert_eq!(info[0].run_time_millis, None);
    assert_eq!(info[0].total_initial_seeds, 1);
    assert_eq!(info[0].total_inputs, 0);
    assert!(info[0].initial_seeds_children_input_id_map.is_empty());
    assert!(check_times(&data, ANCHOR));
    let overview = get_line_coverage_over_time(&data, ANCHOR);
    assert_eq!(overview.len(), 1);
    assert!(overview[0].inputs.is_empty());
    let request = UIInputClustersRequest { cluster_threshold_seconds: 1 };
    assert!(check_clusters(&request, &data, ANCHOR));
    let clusters = get_all_input_clusters(&request, &data, ANCHOR);
    assert_eq!(clusters.len(), 1);
    assert!(clusters[0].clusters.is_empty());
}

#[test]
fn inputs_over_time_start_at_the_anchor() {
    let data = model();
    assert!(check_times(&data, ANCHOR));
    let overview = get_line_coverage_over_time(&data, ANCHOR);
    assert_eq!(overview.len(), 2);
    assert_eq!(overview[0].fuzzer_configuration_id, 0);
    assert_eq!(
        overview[0].inputs,
        vec![
            UIOverviewInfo { input_id: 2, executed_on: ANCHOR, fuzzer_coverage: 10 },
            UIOverviewInfo { input_id: 3, executed_on: ANCHOR + 60000, fuzzer_coverage: 20 },
            UIOverviewInfo { input_id: 4, executed_on: ANCHOR + 120000, fuzzer_coverage: 30 },
            UIOverviewInfo { input_id: 5, executed_on: ANCHOR, fuzzer_coverage: 1 },
        ]
    );
    assert_eq!(overview[1].fuzzer_configuration_id, 3);
    assert_eq!(
        overview[1].inputs,
        vec![UIOverviewInfo { input_id: 1, executed_on: ANCHOR, fuzzer_coverage: 7 }]
    );
    assert!(!check_times(&data, i64::MAX - 100));
    assert!(check_times(&data, i64::MAX - 120000));
    assert!(check_times(&data, i64::MIN));
}

#[test]
fn files_are_shown_in_the_order_of_their_ids() {
    let data = model();
    let contents = vec![Some(SOURCE.to_string()), None];
    let files = get_sut(&data, &contents);
    assert_eq!(files.len(), 2);
    assert_eq!(files[0].name, "main.c");
    assert_eq!(files[0].id, FileId::new(1));
    assert_eq!(files[0].content, "int a;\n// note\nint b;\nint c;\nint d;");
    let numbers: Vec<u32> = files[0].lines.iter().map(|l| l.line_num).collect();
    assert_eq!(numbers, vec![1, 2, 3, 4, 5]);
    let hits: Vec<u32> = files[0].lines.iter().map(|l| l.hit_count).collect();
    assert_eq!(hits, vec![2, 0, 3, 3, 2]);
    assert_eq!(files[0].unique_lines_covered, vec![(0, 4), (3, 4)]);
    assert_eq!(files[1].name, "util.c");
    assert_eq!(files[1].id, FileId::new(2));
    assert_eq!(files[1].content, "File content unavailable");
    assert_eq!(files[1].unique_lines_covered, vec![(0, 2), (3, 0)]);
    assert_eq!(
        get_sut_file_id_name_map(&data),
        vec![(1, "main.c".to_string()), (2, "util.c".to_string())]
    );
}

#[test]
fn only_one_line_feed_is_taken_off_the_content() {
    let mut sut = SUT::new();
    sut.parse_config(&target());
    for name in ["/src/a.c", "/src/b.c", "/src/c.c", "/src/d.c"] {
        sut.parse_file(name, false, None);
    }
    let data = AppState::new(InputsDatabase::new(), sut);
    let contents = vec![
        Some("x\n\n".to_string()),
        Some("x".to_string()),
        Some("".to_string()),
        Some("\n".to_string()),
    ];
    let shown: Vec<String> = get_sut(&data, &contents).into_iter().map(|f| f.content).collect();
    assert_eq!(shown, vec!["x\n", "x", "", ""]);
}

#[test]
fn name_of_a_file() {
    assert_eq!(shown_name("/src/deep/main.c"), "main.c");
    assert_eq!(shown_name("main.c"), "main.c");
    assert_eq!(shown_name("/src/dir/"), "dir");
    assert_eq!(shown_name("/"), "/");
    assert_eq!(shown_name(".."), "..");
    let info = UIFileInfo::new(&FileMeta::new("/src/x/y.h"), FileId::new(4));
    assert_eq!(info.name, "y.h");
    assert_eq!(info.id, FileId::new(4));
    assert!(info.lines.is_empty());
    assert!(info.content.is_empty());
    assert!(info.unique_lines_covered.is_empty());
}

#[test]
fn clusters_cut_the_run_into_equal_parts() {
    let data = model();
    let request = UIInputClustersRequest { cluster_threshold_seconds: 1 };
    assert!(check_clusters(&request, &data, ANCHOR));
    let all = get_all_input_clusters(&request, &data, ANCHOR);
    assert_eq!(all.len(), 2);
    assert_eq!(all[0].fuzzer_configuration_id, 0);
    let clusters = &all[0].clusters;
    let keys: Vec<i64> = clusters.iter().map(|c| c.key).collect();
    assert_eq!(keys, vec![ANCHOR + 60000, ANCHOR + 120000, ANCHOR + 180000]);
    let cover = |n: u32| UILineAndBitmapCoverage { fuzzer_coverage: n };
    assert_eq!(clusters[0].inputs, vec![(InputId::new(3), cover(10)), (InputId::new(8), cover(1))]);
    assert_eq!(clusters[0].total_fuzzer_coverage, 11);
    assert_eq!(clusters[0].total_inputs, 2);
    assert_eq!(
        clusters[0].initial_seeds,
        vec![SeedShare { seed_fuzz_input_id: 1, fuzzer_coverage: 10, ancestors: 1 }]
    );
    assert_eq!(clusters[1].inputs, vec![(InputId::new(5), cover(20))]);
    assert_eq!(
        clusters[1].initial_seeds,
        vec![
            SeedShare { seed_fuzz_input_id: 0, fuzzer_coverage: 20, ancestors: 2 },
            SeedShare { seed_fuzz_input_id: 1, fuzzer_coverage: 20, ancestors: 2 },
        ]
    );
    assert_eq!(clusters[2].inputs, vec![(InputId::new(7), cover(30))]);
    assert_eq!(clusters[2].total_fuzzer_coverage, 30);
    assert_eq!(clusters[2].initial_seeds.len(), 2);
    assert_eq!(all[1].fuzzer_configuration_id, 3);
    assert_eq!(all[1].clusters.len(), 1);
    assert_eq!(all[1].clusters[0].key, ANCHOR + 60000);
    assert_eq!(all[1].clusters[0].inputs, vec![(InputId::new(6), cover(7))]);
    let wide = UIInputClustersRequest { cluster_threshold_seconds: 3 };
    let all = get_all_input_clusters(&wide, &data, ANCHOR);
    assert_eq!(all[0].clusters.len(), 1);
    assert_eq!(all[0].clusters[0].key, ANCHOR + 180000);
    assert_eq!(all[0].clusters[0].total_inputs, 4);
    assert_eq!(all[0].clusters[0].total_fuzzer_coverage, 61);
}

#[test]
fn clusters_that_cannot_be_formed() {
    let data = model();
    for seconds in [0, -1, i64::MAX, i64::MAX / 60000 + 1] {
        let request = UIInputClustersRequest { cluster_threshold_seconds: seconds };
        assert!(!check_clusters(&request, &data, ANCHOR));
    }
    let request = UIInputClustersRequest { cluster_threshold_seconds: 1 };
    assert!(!check_clusters(&request, &data, i64::MAX - 170000));
    assert!(check_clusters(&request, &data, i64::MAX - 180000));
    let empty = UIInputClusters::new();
    assert_eq!(empty.key, 0);
    assert_eq!(empty.total_inputs, 0);
    assert_eq!(empty.total_fuzzer_coverage, 0);
    assert!(empty.inputs.is_empty());
    assert!(empty.initial_seeds.is_empty());
}

#[test]
fn comparison_is_given_run_by_run() {
    assert_eq!(compress_counts(&vec![2, 2, 2, 2, 1, 1, 1, 1]), vec![(4, 1)]);
    assert_eq!(compress_counts(&vec![0, 1, 1, 0, 0, 5]), vec![(1, 1), (3, 0), (5, 5)]);
    assert_eq!(compress_counts(&vec![7]), vec![]);
    assert_eq!(compress_counts(&vec![]), vec![]);
    let request = CompareSeedsRequest { fuzzer_configuration_id: 0, initial_seed_id: 1 };
    let r = get_inputs_comparison(
        &request,
        &b"AAAA".to_vec(),
        &vec![b"BBBBCCCC".to_vec(), b"CCCCCCCC".to_vec()],
    );
    assert_eq!(r.initial_seed_id, 1);
    assert_eq!(r.byte_modification_counts, vec![(4, 1)]);
}

#[test]
fn coverage_of_a_file_by_the_seeds() {
    let data = model();
    let request = InitialSeedsLineCoverageRequest { file_id: 1 };
    let all = get_initial_seeds_line_coverage_for_file(&request, &data);
    assert_eq!(all.len(), 2);
    assert_eq!(all[0].fuzzer_configuration_id, 0);
    assert_eq!(all[0].seeds.len(), 2);
    assert_eq!(all[0].seeds[0].seed_fuzz_input_id, 0);
    let numbers: Vec<u32> = all[0].seeds[0].lines.iter().map(|l| l.line_num).collect();
    assert_eq!(numbers, vec![1, 3]);
    assert_eq!(all[0].seeds[1].seed_fuzz_input_id, 1);
    let numbers: Vec<u32> = all[0].seeds[1].lines.iter().map(|l| l.line_num).collect();
    assert_eq!(numbers, vec![3, 4]);
    assert_eq!(all[1].fuzzer_configuration_id, 3);
    let numbers: Vec<u32> = all[1].seeds[0].lines.iter().map(|l| l.line_num).collect();
    assert_eq!(numbers, vec![1, 3, 4, 5]);
    let other = get_initial_seeds_line_coverage_for_file(
        &InitialSeedsLineCoverageRequest { file_id: 2 },
        &data,
    );
    assert!(other[0].seeds[0].lines.is_empty());
}

#[test]
fn coverage_of_a_file_by_a_descendant() {
    let data = model();
    let request = LineCoverageRequest {
        fuzzer_configuration_id: 0,
        file_id: 1,
        initial_seed_id: 1,
        child_id: 5,
    };
    let lines = get_line_coverage_for_file(&request, &data).unwrap();
    let numbers: Vec<u32> = lines.iter().map(|l| l.line_num).collect();
    assert_eq!(numbers, vec![4, 5]);
    let request = LineCoverageRequest { file_id: 2, child_id: 3, ..request };
    let lines = get_line_coverage_for_file(&request, &data).unwrap();
    let numbers: Vec<u32> = lines.iter().map(|l| l.line_num).collect();
    assert_eq!(numbers, vec![4, 5]);
    assert!(get_line_coverage_for_file(&LineCoverageRequest { child_id: 5, ..request }, &data)
        .is_none());
    assert!(get_line_coverage_for_file(&LineCoverageRequest { child_id: 8, ..request }, &data)
        .is_none());
    assert!(get_line_coverage_for_file(
        &LineCoverageRequest { initial_seed_id: 9, ..request },
        &data
    )
    .is_none());
}

#[test]
fn timeline_of_one_seed() {
    let data = model();
    let request = TimelineRequest { fuzzer_configuration_id: 0, initial_seed_ids: vec![1] };
    let t = get_initial_seed_timeline(&request, &data, ANCHOR).unwrap();
    let ids: Vec<&str> = t.nodes.iter().map(|n| n.id.as_str()).collect();
    assert_eq!(ids, vec!["seed-1", "seed-3", "seed-5", "seed-7"]);
    let names: Vec<&str> = t.nodes.iter().map(|n| n.name.as_str()).collect();
    assert_eq!(names, vec!["seed-1", "seed-2", "seed-3", "seed-4"]);
    let times: Vec<i64> = t.nodes.iter().map(|n| n.x_executed_on).collect();
    assert_eq!(times, vec![ANCHOR, ANCHOR + 4000, ANCHOR + 64000, ANCHOR + 124000]);
    let coverage: Vec<u32> = t.nodes.iter().map(|n| n.y_fuzzer_coverage).collect();
    assert_eq!(coverage, vec![0, 10, 20, 30]);
    let notes: Vec<&str> = t.nodes.iter().map(|n| n.meta_data.as_str()).collect();
    assert_eq!(notes, vec!["initial seed-1", "initial seed-1", "seed-2, initial seed-0", "seed-3"]);
    let multiple: Vec<bool> = t.nodes.iter().map(|n| n.multiple).collect();
    assert_eq!(multiple, vec![false, false, true, false]);
    let edges: Vec<(&str, &str)> =
        t.edges.iter().map(|e| (e.source.as_str(), e.target.as_str())).collect();
    assert_eq!(
        edges,
        vec![("seed-1", "seed-3"), ("seed-3", "seed-5"), ("seed-0", "seed-5"), ("seed-5", "seed-7")]
    );
}

#[test]
fn timeline_of_several_seeds() {
    let data = model();
    let request = TimelineRequest { fuzzer_configuration_id: 0, initial_seed_ids: vec![1, 0] };
    let t = get_initial_seed_timeline(&request, &data, ANCHOR).unwrap();
    let ids: Vec<&str> = t.nodes.iter().map(|n| n.id.as_str()).collect();
    assert_eq!(ids, vec!["seed-1", "seed-0", "seed-5", "seed-7"]);
    assert_eq!(t.nodes[1].meta_data, "initial seed-0");
    assert_eq!(t.edges.len(), 3);
    let request = TimelineRequest { fuzzer_configuration_id: 0, initial_seed_ids: vec![] };
    let t = get_initial_seed_timeline(&request, &data, ANCHOR).unwrap();
    assert!(t.nodes.is_empty());
    assert!(t.edges.is_empty());
    let empty = TimelineResponse::new();
    assert!(empty.nodes.is_empty());
    assert!(empty.edges.is_empty());
}

#[test]
fn timeline_that_cannot_be_built() {
    let data = model();
    let unknown = TimelineRequest { fuzzer_configuration_id: 0, initial_seed_ids: vec![1, 9] };
    assert!(get_initial_seed_timeline(&unknown, &data, ANCHOR).is_none());
    let derived = TimelineRequest { fuzzer_configuration_id: 0, initial_seed_ids: vec![2] };
    assert!(get_initial_seed_timeline(&derived, &data, ANCHOR).is_none());
    let other = TimelineRequest { fuzzer_configuration_id: 7, initial_seed_ids: vec![1] };
    assert!(get_initial_seed_timeline(&other, &data, ANCHOR).is_none());
    let request = TimelineRequest { fuzzer_configuration_id: 0, initial_seed_ids: vec![1] };
    assert!(get_initial_seed_timeline(&request, &data, i64::MAX).is_none());
    assert!(get_initial_seed_timeline(&request, &data, i64::MAX - 124000).is_some());
}

#[test]
fn empty_records() {
    let meta = InputMeta::new();
    assert_eq!(meta.id, InputId::new(0));
    assert_eq!(meta.fuzz_input_id, 0);
    assert!(!meta.is_initial_seed);
    assert!(meta.parents.is_empty());
    assert!(meta.source_line_coverage.is_empty());
    assert_eq!(meta.file_name_stem, "");
    let meta = InputMeta::default();
    assert_eq!(meta.executed_on, 0);
    let file = FileMeta::new("/src/a.c");
    assert_eq!(file.name, "/src/a.c");
    assert!(file.lines.is_empty());
    assert!(file.unique_line_hits.is_empty());
    let target = TargetConfig::new();
    assert_eq!(target.target_path, "");
    assert!(target.target_include_filter.is_empty());
    let user = UserConfig::new();
    assert!(user.fuzzer_infos.is_empty());
    assert_eq!(user.target_info.target_source_code_path, "");
    assert!(UserConfig::default().fuzzer_infos.is_empty());
    assert!(TargetConfig::default().allowed_extensions.is_empty());
    let copy = fuzzer(4, "x").clone();
    assert_eq!(copy.fuzzer_configuration_id, 4);
    assert_eq!(copy.inputs_directory_path, "/runs/x/queue");
}

#[test]
fn anchor_lies_on_the_first_day_of_2024() {
    assert_eq!(fuzz_coverage::responders::anchor_date(), (2024, 1, 1));
}

#[test]
fn anchor_is_a_midnight_near_the_start_of_2024() {
    let anchor = fuzz_coverage::responders::get_normalized_starttime_millis().unwrap();
    assert!(1_703_980_800_000 < anchor && anchor < 1_704_153_600_000);
    assert_eq!(anchor % 1000, 0);
    assert_eq!(fuzz_coverage::responders::get_normalized_starttime_millis(), Some(anchor));
}

#[test]
fn anchor_is_local_midnight_of_the_anchor_date() {
    let (year, month, day) = fuzz_coverage::responders::anchor_date();
    let universal =
        chrono::TimeZone::with_ymd_and_hms(&chrono::Utc, year, month, day, 0, 0, 0).unwrap();
    assert_eq!(universal.timestamp_millis(), 1_704_067_200_000);
    let local =
        chrono::TimeZone::with_ymd_and_hms(&chrono::Local, year, month, day, 0, 0, 0).single();
    assert_eq!(
        fuzz_coverage::responders::get_normalized_starttime_millis(),
        local.map(|moment| moment.timestamp_millis())
    );
}
