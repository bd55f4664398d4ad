use oxireg::file_view::{text_line, LineIndex, TextLine, MAX_LINE_BYTES};
use oxireg::regex_debug::{compile_regex, RegexFlags};
use oxireg::ui::group_lines;
use oxireg::ui::compact_label;

#[test]
fn text_lines_drop_line_breaks_and_cut_long_lines() {
    let line = text_line(3, b"hello\r\n");
    assert_eq!(line.number, 3);
    assert_eq!(line.text, "hello");
    assert!(!line.truncated);
    let long = vec![b'x'; MAX_LINE_BYTES + 5];
    let cut = text_line(1, &long);
    assert!(cut.truncated);
    assert_eq!(cut.text.len(), MAX_LINE_BYTES);
    let bad = text_line(2, b"a\xffb\n\n");
    assert_eq!(bad.text, "a\u{fffd}b");
}

#[test]
fn line_index_keeps_checkpoints_every_128_lines() {
    let mut index = LineIndex::new();
    assert_eq!(index.known_lines(), 1);
    assert!(index.needs_line(0) == false);
    assert!(index.needs_line(5));
    for _ in 0..300 {
        index.record_line(10);
    }
    assert_eq!(index.known_lines(), 301);
    assert_eq!(index.indexed_offset(), 3000);
    assert_eq!(index.checkpoint_for(0), (0, 0));
    assert_eq!(index.checkpoint_for(130), (128, 1280));
    assert_eq!(index.checkpoint_for(300), (256, 2560));
    index.record_eof();
    assert!(!index.needs_line(1000));
}

#[test]
fn compact_labels_mark_cuts() {
    assert_eq!(compact_label("short".to_string(), 18), "short");
    assert_eq!(compact_label("abcdefgh".to_string(), 5), "abc..");
    assert_eq!(compact_label("abcdefgh".to_string(), 1), "..");
    assert_eq!(compact_label("héllo".to_string(), 5), "héllo");
}

#[test]
fn group_lines_list_the_first_matches() {
    let re = match compile_regex(r"(?P<d>\d)", RegexFlags::default()) {
        Ok(re) => re,
        Err(_) => panic!("pattern should build"),
    };
    let captures = vec!["0: <unnamed>".to_string(), "1: (?P<d>)".to_string()];
    let lines = vec![
        TextLine { number: 4, text: "a1\"".to_string(), truncated: false },
        TextLine { number: 5, text: "23456789".to_string(), truncated: false },
    ];
    let out = group_lines(&captures, Some(&re), &lines);
    assert_eq!(out[0], "0: <unnamed>");
    assert_eq!(out[2], "line 4");
    assert_eq!(out[3], "  $0: \"1\"");
    assert_eq!(out[4], "  $1 d: \"1\"");
    assert_eq!(out.len(), 2 + 8 * 3);
    assert_eq!(out[out.len() - 3], "line 5");
    assert_eq!(out[out.len() - 1], "  $1 d: \"8\"");
    assert_eq!(group_lines(&captures, None, &lines), captures);
    let plain = match compile_regex("a", RegexFlags::default()) {
        Ok(re) => re,
        Err(_) => panic!("pattern should build"),
    };
    assert_eq!(group_lines(&captures, Some(&plain), &lines), captures);
}
