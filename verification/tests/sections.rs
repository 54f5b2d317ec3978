use refsplit::raw_text::{
    infer_delimiter_pattern, locate_reference_section, DelimiterPattern, RawText,
};
use refsplit::scan::{find_first, matches_at};

fn raw(text: &str) -> RawText {
    RawText { inner: text.to_owned() }
}

fn numbered_list(count: usize) -> String {
    let mut text = String::from("Title page\nSome body text.\nReferences\n");
    for n in 1..=count {
        text.push_str(&format!("[{}] Author {}, Title {}.\n", n, n, n));
    }
    text
}

#[test]
fn reference_section_by_header_fixture_1() {
    let raw_text = raw(&numbered_list(55));
    let section = raw_text.reference_section_by_header().unwrap();
    let mut expected = String::new();
    for n in 1..=55 {
        expected.push_str(&format!("[{}] Author {}, Title {}.\n", n, n, n));
    }
    assert_eq!(section, expected);
}

#[test]
fn reference_item_pattern_fixture_1() {
    let raw_text = raw(&numbered_list(55));
    assert!(raw_text.reference_item_pattern().is_some());
}

#[test]
fn section_absent_without_header() {
    assert_eq!(raw("").reference_section_by_header(), None);
    assert_eq!(raw("No list here.").reference_section_by_header(), None);
    assert_eq!(raw("References\n[1] a\n").reference_section_by_header(), None);
    assert_eq!(raw("x\nreferences\n[1] a\n").reference_section_by_header(), None);
    assert_eq!(raw("x\nReferences [1] a\n").reference_section_by_header(), None);
    assert_eq!(raw("x\nBibliography\n[1] a\n").reference_section_by_header(), None);
}

#[test]
fn section_starts_right_behind_the_header() {
    let text = raw("Intro text.\nReferences\n[1] First entry.\n[2] Second entry.\n");
    assert_eq!(
        text.reference_section_by_header(),
        Some("[1] First entry.\n[2] Second entry.\n")
    );
}

#[test]
fn section_is_suffix_and_rebuilds_the_text() {
    let source = "Line one\nLine two\nReferences\n[1] A.\n[2] B.\n";
    let text = raw(source);
    let section = text.reference_section_by_header().unwrap();
    assert!(source.ends_with(section));
    let at = source.find("\nReferences\n").unwrap();
    let rebuilt = format!("{}{}{}", &source[..at], "\nReferences\n", section);
    assert_eq!(rebuilt, source);
    assert_eq!(raw(section).reference_section_by_header(), None);
}

#[test]
fn first_header_wins() {
    let text = raw("a\nReferences\n[1] On\nReferences\nand more\n");
    assert_eq!(
        text.reference_section_by_header(),
        Some("[1] On\nReferences\nand more\n")
    );
}

#[test]
fn overlapping_headers_use_the_first() {
    let text = raw("\nReferences\nReferences\nrest");
    assert_eq!(text.reference_section_by_header(), Some("References\nrest"));
}

#[test]
fn header_at_the_end_gives_empty_section() {
    let text = raw("body\nReferences\n");
    assert_eq!(text.reference_section_by_header(), Some(""));
    assert_eq!(text.reference_item_pattern(), None);
    assert!(text.references().is_none());
}

#[test]
fn header_at_the_start() {
    let text = raw("\nReferences\n[1] x");
    assert_eq!(text.reference_section_by_header(), Some("[1] x"));
}

#[test]
fn text_with_wide_characters() {
    let text = raw("Übersicht über Straße 東京\nReferences\n[1] Müller, Größe.\n");
    assert_eq!(
        text.reference_section_by_header(),
        Some("[1] Müller, Größe.\n")
    );
    let wide = raw("a\nReferences\n東京 is wide");
    assert_eq!(wide.reference_section_by_header(), Some("東京 is wide"));
    assert_eq!(wide.reference_item_pattern(), None);
}

#[test]
fn pattern_inferred_only_from_first_marker() {
    assert_eq!(
        infer_delimiter_pattern("[1] a"),
        Some(DelimiterPattern::BracketedNumeric)
    );
    assert_eq!(
        infer_delimiter_pattern("[1]"),
        Some(DelimiterPattern::BracketedNumeric)
    );
    assert_eq!(
        infer_delimiter_pattern("[1] a\n(2) b\n"),
        Some(DelimiterPattern::BracketedNumeric)
    );
    assert_eq!(infer_delimiter_pattern(""), None);
    assert_eq!(infer_delimiter_pattern("[1"), None);
    assert_eq!(infer_delimiter_pattern("[2] a"), None);
    assert_eq!(infer_delimiter_pattern(" [1] a"), None);
    assert_eq!(infer_delimiter_pattern("1. a"), None);
    assert_eq!(infer_delimiter_pattern("é[1]"), None);
}

#[test]
fn pattern_of_a_text() {
    assert_eq!(
        raw("x\nReferences\n[1] a\n").reference_item_pattern(),
        Some(DelimiterPattern::BracketedNumeric)
    );
    assert_eq!(raw("x\nReferences\n1. a\n").reference_item_pattern(), None);
    assert_eq!(raw("[1] a\n").reference_item_pattern(), None);
}

#[test]
fn pattern_source_captures_digits_as_id() {
    let pattern = DelimiterPattern::BracketedNumeric;
    assert_eq!(pattern.source(), r"\[(?P<id>[0-9]+)\]\s+");
    assert_eq!(pattern.id_group(), "id");
    let re = regex::Regex::new(pattern.source()).unwrap();
    let found = re.captures("see [123]  next").unwrap();
    assert_eq!(found.name("id").unwrap().as_str(), "123");
    assert_eq!(found.get(0).unwrap().as_str(), "[123]  ");
    assert!(re.captures("[] x").is_none());
    assert!(re.captures("[a] x").is_none());
    assert!(re.captures("[1]x").is_none());
}

#[test]
fn find_first_gives_leftmost_offset() {
    assert_eq!(find_first(b"abcabc", b"bc"), Some(1));
    assert_eq!(find_first(b"abcabc", b"abcabc"), Some(0));
    assert_eq!(find_first(b"abcabc", b"cab"), Some(2));
    assert_eq!(find_first(b"abcabc", b"abcabcd"), None);
    assert_eq!(find_first(b"abcabc", b"x"), None);
    assert_eq!(find_first(b"abc", b""), Some(0));
    assert_eq!(find_first(b"", b""), Some(0));
    assert_eq!(find_first(b"", b"a"), None);
    assert_eq!(find_first(b"aab", b"ab"), Some(1));
}

#[test]
fn matches_at_compares_the_window() {
    assert!(matches_at(b"hello", b"ell", 1));
    assert!(!matches_at(b"hello", b"ell", 0));
    assert!(matches_at(b"hello", b"", 5));
    assert!(matches_at(b"hello", b"lo", 3));
}

#[test]
fn locate_on_plain_text() {
    assert_eq!(locate_reference_section(""), None);
    assert_eq!(locate_reference_section("\nReferences"), None);
    assert_eq!(locate_reference_section("References\n"), None);
    assert_eq!(locate_reference_section("\nReferences\n"), Some(""));
    assert_eq!(
        locate_reference_section("é\nReferences\né[1]"),
        Some("é[1]")
    );
    assert_eq!(
        locate_reference_section("one\n\nReferences\n\n[1] a"),
        Some("\n[1] a")
    );
}

#[test]
fn located_section_is_borrowed_from_the_text() {
    let source = String::from("head\nReferences\ntail of the text");
    let section = locate_reference_section(&source).unwrap();
    let start = source.len() - section.len();
    assert_eq!(section.as_ptr(), source[start..].as_ptr());
    assert_eq!(start, "head\nReferences\n".len());
}
