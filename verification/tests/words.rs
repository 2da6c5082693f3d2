use bite::words::{lines, parse_u32, words};

fn chars(text: &str) -> Vec<char> {
    text.chars().collect()
}

#[test]
fn lines_drop_the_carriage_return_and_the_empty_last_line() {
    let found: Vec<String> = lines("a\r\nb\n\nc\r").iter().map(|line| line.iter().collect()).collect();
    assert_eq!(found, ["a", "b", "", "c\r"]);
    assert!(lines("").is_empty());
    assert_eq!(lines("\n").len(), 1);
}

#[test]
fn words_are_the_runs_between_whitespace() {
    let found: Vec<String> = words(&chars("  one\ttwo\u{3000}three  ")).iter().map(|w| w.iter().collect()).collect();
    assert_eq!(found, ["one", "two", "three"]);
    assert!(words(&chars(" \n ")).is_empty());
}

#[test]
fn numbers_read_as_str_parse_reads_them() {
    assert_eq!(parse_u32(&chars("0")), Some(0));
    assert_eq!(parse_u32(&chars("+7")), Some(7));
    assert_eq!(parse_u32(&chars("007")), Some(7));
    assert_eq!(parse_u32(&chars("4294967295")), Some(u32::MAX));
    assert_eq!(parse_u32(&chars("4294967296")), None);
    assert_eq!(parse_u32(&chars("")), None);
    assert_eq!(parse_u32(&chars("+")), None);
    assert_eq!(parse_u32(&chars("-0")), None);
    assert_eq!(parse_u32(&chars("1e3")), None);
    for text in ["0", "+7", "12", "4294967295", "x", "99999999999"] {
        assert_eq!(parse_u32(&chars(text)), text.parse::<u32>().ok());
    }
}
