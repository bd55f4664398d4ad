use oxireg::export::{csv_escape, export_footer, export_header, export_line, json_escape, ExportFormat};
use oxireg::regex_debug::{compile_regex, CompiledRegex, RegexFlags};

fn build(pattern: &str) -> CompiledRegex {
    match compile_regex(pattern, RegexFlags::default()) {
        Ok(re) => re,
        Err(_) => panic!("pattern should build"),
    }
}

#[test]
fn escapes_json_strings() {
    assert_eq!(json_escape("a\"b\\c\n"), "a\\\"b\\\\c\\n");
}

#[test]
fn escapes_csv_strings() {
    assert_eq!(csv_escape("a,b\"c"), "\"a,b\"\"c\"");
}

#[test]
fn json_escape_writes_control_characters_as_unicode_escapes() {
    assert_eq!(json_escape("\u{1}\t\r"), "\\u0001\\t\\r");
    assert_eq!(json_escape("plain é"), "plain é");
}

#[test]
fn csv_escape_leaves_plain_values_alone() {
    assert_eq!(csv_escape("plain"), "plain");
    assert_eq!(csv_escape("two\nlines"), "\"two\nlines\"");
}

#[test]
fn formats_parse_and_cycle() {
    assert_eq!(ExportFormat::parse("json"), Some(ExportFormat::Json));
    assert_eq!(ExportFormat::parse("csv"), Some(ExportFormat::Csv));
    assert_eq!(ExportFormat::parse("txt"), Some(ExportFormat::Text));
    assert_eq!(ExportFormat::parse("text"), Some(ExportFormat::Text));
    assert_eq!(ExportFormat::parse("xml"), None);
    for format in [ExportFormat::Json, ExportFormat::Csv, ExportFormat::Text] {
        assert_eq!(format.next().next().next(), format);
        assert_ne!(format.next(), format);
        assert_eq!(ExportFormat::parse(format.label()), Some(format));
        assert_eq!(format.extension(), format.label());
    }
    assert_eq!(ExportFormat::Json.next(), ExportFormat::Csv);
    assert_eq!(ExportFormat::Text.label(), "txt");
}

#[test]
fn headers_and_footers() {
    assert_eq!(export_header(ExportFormat::Json), "[\n");
    assert_eq!(export_header(ExportFormat::Csv), "line,match_start,match_end,match,captures\n");
    assert_eq!(export_header(ExportFormat::Text), "");
    assert_eq!(export_footer(ExportFormat::Json), "\n]\n");
    assert_eq!(export_footer(ExportFormat::Csv), "");
}

#[test]
fn json_records_of_a_line() {
    let re = build(r"(?P<kind>\w+)");
    let (records, count) = export_line(&re, ExportFormat::Json, 1, b"hi there\n", false);
    assert_eq!(count, 2);
    assert_eq!(
        records,
        "{\"line\":1,\"match_start\":0,\"match_end\":2,\"match\":\"hi\",\"captures\":{\"0\":\"hi\",\"kind\":\"hi\"}},\n{\"line\":1,\"match_start\":3,\"match_end\":8,\"match\":\"there\",\"captures\":{\"0\":\"there\",\"kind\":\"there\"}}"
    );
    let (more, _) = export_line(&re, ExportFormat::Json, 2, b"x", true);
    assert!(more.starts_with(",\n{\"line\":2,"));
}

#[test]
fn csv_and_text_records_of_a_line() {
    let re = build(r"(?P<kind>\w+)");
    let (csv, count) = export_line(&re, ExportFormat::Csv, 4, b"hi\r\n", false);
    assert_eq!(count, 1);
    assert_eq!(csv, "4,0,2,hi,\"{\"\"0\"\":\"\"hi\"\",\"\"kind\"\":\"\"hi\"\"}\"\n");
    let (text, count) = export_line(&build(r"a\s"), ExportFormat::Text, 7, b"xa\r\n", false);
    assert_eq!(count, 1);
    assert_eq!(text, "7:1-3 a\n");
}

#[test]
fn empty_matches_are_not_exported() {
    let re = build("b*");
    let (records, count) = export_line(&re, ExportFormat::Text, 1, b"aaa", false);
    assert_eq!(count, 0);
    assert_eq!(records, "");
}

#[test]
fn escaped_json_has_no_control_characters() {
    let escaped = json_escape("a\u{7f}\u{85}\u{0}b");
    assert_eq!(escaped, "a\\u007f\\u0085\\u0000b");
    assert!(!escaped.chars().any(|c| c.is_control()));
}

#[test]
fn escaped_fields_read_back() {
    assert_eq!(json_escape("q\"\\\u{1f}"), "q\\\"\\\\\\u001f");
    assert_eq!(csv_escape("\"x\""), "\"\"\"x\"\"\"");
    assert_eq!(csv_escape("a\rb"), "\"a\rb\"");
}
