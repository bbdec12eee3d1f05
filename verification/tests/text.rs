use fuzz_coverage::input_name::is_seed_name;
use fuzz_coverage::input_name::parse_stem;
use fuzz_coverage::input_name::raw_input_name;
use fuzz_coverage::input_name::NameError;
use fuzz_coverage::text::find;
use fuzz_coverage::text::line_ranges;
use fuzz_coverage::text::parse_i64;
use fuzz_coverage::text::parse_u32;
use fuzz_coverage::text::parse_unsigned_in;
use fuzz_coverage::text::split_ranges;
use fuzz_coverage::text::to_chars;
use fuzz_coverage::text::to_decimal;
use fuzz_coverage::text::trim_range;

fn chars(s: &str) -> Vec<char> {
    s.chars().collect()
}

fn cut(s: &[char], ranges: &[(usize, usize)]) -> Vec<String> {
    ranges.iter().map(|r| s[r.0..r.1].iter().collect()).collect()
}

#[test]
fn to_chars_keeps_every_character() {
    assert_eq!(to_chars("a\u{e9}\u{1f600}b"), vec!['a', '\u{e9}', '\u{1f600}', 'b']);
    assert_eq!(to_chars(""), Vec::<char>::new());
}

#[test]
fn find_gives_first_occurrence() {
    let hay = chars("abcabcabc");
    assert_eq!(find(&hay, &chars("bc"), 0), Some(1));
    assert_eq!(find(&hay, &chars("bc"), 2), Some(4));
    assert_eq!(find(&hay, &chars("bc"), 8), None);
    assert_eq!(find(&hay, &chars("x"), 0), None);
    assert_eq!(find(&hay, &chars("abcabcabcd"), 0), None);
    assert_eq!(find(&hay, &chars(""), 3), Some(3));
}

#[test]
fn split_cuts_at_every_separator() {
    let s = chars("id:000002::src:000001::time:191");
    let pieces = cut(&s, &split_ranges(&s, &chars("::")));
    assert_eq!(pieces, vec!["id:000002", "src:000001", "time:191"]);
    let s = chars("::a::::b::");
    let pieces = cut(&s, &split_ranges(&s, &chars("::")));
    assert_eq!(pieces, vec!["", "a", "", "b", ""]);
    let s = chars("");
    let pieces = cut(&s, &split_ranges(&s, &chars("::")));
    assert_eq!(pieces, vec![""]);
    let s = chars(":::");
    let pieces = cut(&s, &split_ranges(&s, &chars("::")));
    assert_eq!(pieces, vec!["", ":"]);
}

#[test]
fn numbers_are_read_as_the_standard_library_reads_them() {
    assert_eq!(parse_u32(&chars("000002")), Some(2));
    assert_eq!(parse_u32(&chars("+17")), Some(17));
    assert_eq!(parse_u32(&chars("4294967295")), Some(4294967295));
    assert_eq!(parse_u32(&chars("4294967296")), None);
    assert_eq!(parse_u32(&chars("")), None);
    assert_eq!(parse_u32(&chars("+")), None);
    assert_eq!(parse_u32(&chars("-1")), None);
    assert_eq!(parse_u32(&chars("1 ")), None);
    assert_eq!(parse_u32(&chars("12a")), None);
    assert_eq!(parse_u32(&chars("99999999999999999999999")), None);
    assert_eq!(parse_i64(&chars("1753701940885")), Some(1753701940885));
    assert_eq!(parse_i64(&chars("-9223372036854775808")), Some(i64::MIN));
    assert_eq!(parse_i64(&chars("9223372036854775807")), Some(i64::MAX));
    assert_eq!(parse_i64(&chars("9223372036854775808")), None);
    assert_eq!(parse_i64(&chars("-9223372036854775809")), None);
    assert_eq!(parse_i64(&chars("+5")), Some(5));
    assert_eq!(parse_i64(&chars("-")), None);
    assert_eq!(parse_i64(&chars("--5")), None);
    assert_eq!(parse_unsigned_in(&chars("ff"), 16, u64::MAX), Some(255));
    assert_eq!(parse_unsigned_in(&chars("FfFf"), 16, u64::MAX), Some(65535));
    assert_eq!(parse_unsigned_in(&chars("ffffffffffffffff"), 16, u64::MAX), Some(u64::MAX));
    assert_eq!(parse_unsigned_in(&chars("10000000000000000"), 16, u64::MAX), None);
    assert_eq!(parse_unsigned_in(&chars("fg"), 16, u64::MAX), None);
    assert_eq!(parse_unsigned_in(&chars("a"), 10, u64::MAX), None);
    assert_eq!(parse_unsigned_in(&chars("100"), 10, 99), None);
}

#[test]
fn trim_takes_white_space_off_both_ends() {
    let s = chars(" \t 12 3\u{a0}\n");
    let (a, b) = trim_range(&s);
    assert_eq!(s[a..b].iter().collect::<String>(), "12 3");
    let s = chars("   ");
    let (a, b) = trim_range(&s);
    assert_eq!(a, b);
    let s = chars("x");
    assert_eq!(trim_range(&s), (0, 1));
}

#[test]
fn lines_end_at_line_feeds() {
    let s = chars("one\ntwo\r\n\nfour");
    assert_eq!(cut(&s, &line_ranges(&s)), vec!["one", "two", "", "four"]);
    let s = chars("one\n");
    assert_eq!(cut(&s, &line_ranges(&s)), vec!["one"]);
    let s = chars("");
    assert_eq!(line_ranges(&s).len(), 0);
    let s = chars("\n");
    assert_eq!(cut(&s, &line_ranges(&s)), vec![""]);
    let s = chars("last\r");
    assert_eq!(cut(&s, &line_ranges(&s)), vec!["last\r"]);
    let text = "a\r\nb\n\nc\r";
    let s = chars(text);
    let expected: Vec<String> = text.lines().map(|l| l.to_string()).collect();
    assert_eq!(cut(&s, &line_ranges(&s)), expected);
}

#[test]
fn decimal_writes_numbers_without_leading_zeros() {
    assert_eq!(to_decimal(0), vec!['0']);
    assert_eq!(to_decimal(7), vec!['7']);
    assert_eq!(to_decimal(10), vec!['1', '0']);
    assert_eq!(to_decimal(1753701940885), chars("1753701940885"));
    assert_eq!(to_decimal(u64::MAX), chars("18446744073709551615"));
}

#[test]
fn stem_of_a_derived_input_is_read() {
    let stem = chars("cycle:1::id:000002::executed_on:1753701941117::src:000001::time:191::execs:378::op:havoc::rep:2::+cov::gain:2::score:100::depth:1::bitmap_cvg:0.02::edges_found:123");
    let info = parse_stem(&stem).unwrap();
    assert_eq!(info.fuzz_input_id, 2);
    assert_eq!(info.executed_on, 1753701941117);
    assert_eq!(info.parents, vec![1]);
    assert_eq!(info.execution_time, 191);
    assert_eq!(info.total_mutations, 378);
    assert_eq!(info.fuzzer_coverage, 123);
    assert!(!is_seed_name(&stem));
}

#[test]
fn stem_of_a_seed_is_read() {
    let stem = chars("id:000000::time:0::executed_on:1753701940885::execs:0::orig:a");
    let info = parse_stem(&stem).unwrap();
    assert_eq!(info.fuzz_input_id, 0);
    assert_eq!(info.executed_on, 1753701940885);
    assert_eq!(info.parents, Vec::<u32>::new());
    assert_eq!(info.fuzzer_coverage, 0);
    assert!(is_seed_name(&stem));
}

#[test]
fn stem_with_several_parents() {
    let stem = chars("id:9::executed_on:5::src:000001+000004+x+ 7 ");
    let info = parse_stem(&stem).unwrap();
    assert_eq!(info.parents, vec![1, 4, 7]);
}

#[test]
fn later_segments_override_earlier_ones() {
    let stem = chars("id:1::id:2::executed_on:5::executed_on:6");
    let info = parse_stem(&stem).unwrap();
    assert_eq!(info.fuzz_input_id, 2);
    assert_eq!(info.executed_on, 6);
}

#[test]
fn value_ends_at_the_second_colon() {
    let stem = chars("id:5:6::executed_on:7:x");
    let info = parse_stem(&stem).unwrap();
    assert_eq!(info.fuzz_input_id, 5);
    assert_eq!(info.executed_on, 7);
}

#[test]
fn stems_that_cannot_be_read() {
    assert_eq!(
        parse_stem(&chars("id:x::executed_on:5")).unwrap_err(),
        NameError::BadSegment { index: 0 }
    );
    assert_eq!(
        parse_stem(&chars("id:1::executed_on:")).unwrap_err(),
        NameError::BadSegment { index: 1 }
    );
    assert_eq!(
        parse_stem(&chars("id:1::executed_on:5::execs:-1")).unwrap_err(),
        NameError::BadSegment { index: 2 }
    );
    assert_eq!(parse_stem(&chars("executed_on:5")).unwrap_err(), NameError::MissingId);
    assert_eq!(parse_stem(&chars("id:5")).unwrap_err(), NameError::MissingExecutedOn);
    assert_eq!(parse_stem(&chars("")).unwrap_err(), NameError::MissingId);
    assert_eq!(parse_stem(&chars("identity:1::executed_on:5")).unwrap_err(), NameError::MissingId);
}

#[test]
fn raw_name_has_commas_for_double_colons() {
    let name: String = raw_input_name(&chars("id:000001::time:0::orig:b")).iter().collect();
    assert_eq!(name, "id:000001,time:0,orig:b");
    let name: String = raw_input_name(&chars(":::a:::::")).iter().collect();
    assert_eq!(name, ",:a,,:");
    let name: String = raw_input_name(&chars("")).iter().collect();
    assert_eq!(name, "");
    let stem = "id:000002::src:000001::+cov";
    let name: String = raw_input_name(&chars(stem)).iter().collect();
    assert_eq!(name, stem.replace("::", ","));
}
