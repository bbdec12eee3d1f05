use fuzz_coverage::drcov::DrCovBasicBlockEntry;
use fuzz_coverage::input_name::raw_input_name;
use fuzz_coverage::queries::byte_change_counts;
use fuzz_coverage::sut_database::comment_line;
use fuzz_coverage::text::find;
use fuzz_coverage::text::line_ranges;
use fuzz_coverage::text::parse_i64;
use fuzz_coverage::text::parse_u32;
use fuzz_coverage::text::parse_unsigned_in;
use fuzz_coverage::text::split_ranges;
use fuzz_coverage::text::to_chars;
use fuzz_coverage::text::to_decimal;
use fuzz_coverage::text::trim_range;
use std::collections::HashMap;

struct Source(u64);

impl Source {
    fn next(&mut self) -> u64 {
        self.0 = self.0.wrapping_mul(6364136223846793005).wrapping_add(1442695040888963407);
        self.0 >> 33
    }

    fn below(&mut self, n: u64) -> u64 {
        self.next() % n
    }

    fn text(&mut self, alphabet: &[char], max: u64) -> String {
        let n = self.below(max + 1);
        (0..n).map(|_| alphabet[self.below(alphabet.len() as u64) as usize]).collect()
    }
}

fn pieces(s: &[char], ranges: &[(usize, usize)]) -> Vec<String> {
    ranges.iter().map(|r| s[r.0..r.1].iter().collect()).collect()
}

#[test]
fn split_agrees_with_the_standard_library() {
    let mut source = Source(1);
    let alphabet = [':', ':', 'a', '+', ',', ' ', '\u{e9}'];
    for _ in 0..3000 {
        let text = source.text(&alphabet, 12);
        let chars = to_chars(&text);
        for sep in ["::", ":", "+", ", ", "a:"] {
            let expected: Vec<String> = text.split(sep).map(|p| p.to_string()).collect();
            let sep_chars = to_chars(sep);
            assert_eq!(pieces(&chars, &split_ranges(&chars, &sep_chars)), expected, "{:?} {:?}", text, sep);
            let position = text.find(sep).map(|byte| text[..byte].chars().count());
            assert_eq!(find(&chars, &sep_chars, 0), position, "{:?} {:?}", text, sep);
        }
    }
}

#[test]
fn raw_names_agree_with_the_standard_library() {
    let mut source = Source(2);
    let alphabet = [':', ':', ':', 'a', ',', '\u{e9}'];
    for _ in 0..5000 {
        let text = source.text(&alphabet, 14);
        let name: String = raw_input_name(&to_chars(&text)).iter().collect();
        assert_eq!(name, text.replace("::", ","), "{:?}", text);
    }
}

#[test]
fn trim_agrees_with_the_standard_library() {
    let mut source = Source(3);
    let alphabet = [' ', '\t', '\n', '\r', '\u{b}', '\u{c}', '\u{85}', '\u{a0}', '\u{2003}', '\u{3000}', 'x', '\u{200b}', '\u{feff}'];
    for _ in 0..5000 {
        let text = source.text(&alphabet, 8);
        let chars = to_chars(&text);
        let (a, b) = trim_range(&chars);
        let trimmed: String = chars[a..b].iter().collect();
        assert_eq!(trimmed, text.trim(), "{:?}", text);
    }
    for code in 0..0x3100u32 {
        if let Some(c) = char::from_u32(code) {
            assert_eq!(fuzz_coverage::text::is_whitespace(c), c.is_whitespace(), "{:?}", c);
        }
    }
}

#[test]
fn lines_agree_with_the_standard_library() {
    let mut source = Source(4);
    let alphabet = ['\n', '\r', 'a', ' ', '\n', '/'];
    for _ in 0..5000 {
        let text = source.text(&alphabet, 10);
        let chars = to_chars(&text);
        let expected: Vec<String> = text.lines().map(|l| l.to_string()).collect();
        assert_eq!(pieces(&chars, &line_ranges(&chars)), expected, "{:?}", text);
    }
}

#[test]
fn numbers_agree_with_the_standard_library() {
    let mut source = Source(5);
    let alphabet = ['0', '1', '9', '4', '+', '-', ' ', 'a', 'f', 'F', '2', '7'];
    for _ in 0..20000 {
        let text = source.text(&alphabet, 21);
        let chars = to_chars(&text);
        assert_eq!(parse_u32(&chars), text.parse::<u32>().ok(), "{:?}", text);
        assert_eq!(parse_i64(&chars), text.parse::<i64>().ok(), "{:?}", text);
        assert_eq!(
            parse_unsigned_in(&chars, 16, u64::MAX),
            u64::from_str_radix(&text, 16).ok(),
            "{:?}",
            text
        );
        assert_eq!(
            parse_unsigned_in(&chars, 10, 0xffff),
            text.parse::<u16>().ok().map(|v| v as u64),
            "{:?}",
            text
        );
    }
    for n in [0u64, 1, 9, 10, 11, 99, 100, 12345, u32::MAX as u64, u64::MAX, u64::MAX / 10] {
        let digits: String = to_decimal(n).iter().collect();
        assert_eq!(digits, format!("{}", n));
    }
    for _ in 0..2000 {
        let n = source.next() * source.next();
        let digits: String = to_decimal(n).iter().collect();
        assert_eq!(digits, format!("{}", n));
    }
}

#[test]
fn comment_lines_agree_with_the_rule() {
    let mut source = Source(6);
    let alphabet = ['/', '*', ' ', '\t', 'x', '/', '*'];
    for _ in 0..5000 {
        let line = source.text(&alphabet, 6);
        let first_word = line.split_whitespace().next().unwrap_or_default();
        let expected = line.is_empty()
            || first_word.starts_with("/*")
            || first_word.starts_with("*/")
            || first_word.starts_with("//")
            || (first_word.len() == 1 && first_word.starts_with("*"));
        assert_eq!(comment_line(&to_chars(&line)), expected, "{:?}", line);
    }
}

#[test]
fn entries_survive_encoding() {
    let mut source = Source(7);
    for _ in 0..5000 {
        let e = DrCovBasicBlockEntry {
            start: source.next() as u32,
            size: source.next() as u16,
            mod_id: source.next() as u16,
        };
        let bytes = e.encode();
        assert_eq!(&bytes[0..4], &e.start.to_le_bytes());
        assert_eq!(&bytes[4..6], &e.size.to_le_bytes());
        assert_eq!(&bytes[6..8], &e.mod_id.to_le_bytes());
        assert_eq!(DrCovBasicBlockEntry::decode(&bytes, 0), e);
    }
}

#[test]
fn byte_changes_agree_with_a_map_of_last_bytes() {
    let mut source = Source(8);
    for _ in 0..2000 {
        let seed: Vec<u8> = (0..source.below(6)).map(|_| source.below(3) as u8).collect();
        let children: Vec<Vec<u8>> = (0..source.below(5))
            .map(|_| (0..source.below(8)).map(|_| source.below(3) as u8).collect())
            .collect();
        let mut previous: HashMap<usize, u8> = HashMap::new();
        let mut expected: HashMap<usize, u32> = HashMap::new();
        for (index, value) in seed.iter().enumerate() {
            previous.insert(index, *value);
            expected.insert(index, 0);
        }
        for child in &children {
            for (index, value) in child.iter().enumerate() {
                if previous.contains_key(&index) {
                    if previous.get(&index).unwrap() != value {
                        *expected.get_mut(&index).unwrap() += 1;
                    }
                } else {
                    expected.insert(index, 1);
                }
                previous.insert(index, *value);
            }
        }
        let counts = byte_change_counts(&seed, &children);
        let longest = children.iter().map(|c| c.len()).chain([seed.len()]).max().unwrap();
        assert_eq!(counts.len(), longest);
        for (index, count) in counts.iter().enumerate() {
            assert_eq!(expected.get(&index), Some(count));
            assert!(*count as usize <= children.len());
        }
    }
}
