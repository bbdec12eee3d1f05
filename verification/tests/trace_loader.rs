use fuzz_coverage::trace_loader::location_of;
use fuzz_coverage::trace_loader::Lookup;
use fuzz_coverage::trace_loader::SourceLocation;

#[test]
fn location_needs_file_and_line() {
    let found = Lookup::Found { file: Some("/src/main.c".to_string()), line: Some(22) };
    assert_eq!(
        location_of(found),
        Some(SourceLocation { file: "/src/main.c".to_string(), line: 22 })
    );
    assert_eq!(location_of(Lookup::Found { file: Some("/src/main.c".to_string()), line: None }), None);
    assert_eq!(location_of(Lookup::Found { file: None, line: Some(22) }), None);
    assert_eq!(location_of(Lookup::Found { file: None, line: None }), None);
    assert_eq!(location_of(Lookup::NotFound), None);
    assert_eq!(location_of(Lookup::Failed), None);
}

#[test]
fn debug_information_is_asked_for_each_address() {
    if let Ok(loader) = addr2line::Loader::new("/proc/self/exe") {
        let loader = fuzz_coverage::trace_loader::TraceLoader::new(loader);
        assert_eq!(loader.get_location(u64::MAX), None);
        for address in [0u64, 0x1000, 0x2000, 0x40000] {
            let first = loader.get_location(address);
            assert_eq!(first, loader.get_location(address));
            if let Some(location) = first {
                assert!(!location.file.is_empty());
                assert!(location.line >= 1);
            }
        }
        let text = "DRCOV VERSION: 2\nModule Table: version 2, count 1\nColumns: id, base, end, entry, path\n0, 0x10, 0x20, 0x0, /bin/target\nBB Table: 2 bbs\n";
        let mut bytes = text.as_bytes().to_vec();
        bytes.extend_from_slice(&[0, 0, 0, 0, 0, 0, 0, 0, 0xf0, 0xff, 0xff, 0xff, 1, 0, 0, 0]);
        let config = fuzz_coverage::config::TargetConfig {
            target_path: "/bin/target".to_string(),
            target_source_code_path: "/src".to_string(),
            target_include_filter: vec![],
            allowed_extensions: vec![],
        };
        let map = fuzz_coverage::trace_map::TraceMap::new(&bytes, &config).unwrap();
        assert_eq!(map.addresses(), vec![(0, 0), (0xfffffff0, 0xfffffff1)]);
        let located = map.locate(&loader);
        assert_eq!(located.len(), 2);
        assert_eq!(located[0].start, loader.get_location(0));
        assert_eq!(located[0].end, loader.get_location(0));
        assert_eq!(located[1].start, loader.get_location(0xfffffff0));
        assert_eq!(located[1].end, loader.get_location(0xfffffff1));
    }
}
