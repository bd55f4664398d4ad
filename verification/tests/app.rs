use oxireg::app::{App, Area, Effect, KeyCode, KeyPress, MouseInput, MouseKind, ALT, CONTROL, SHIFT};
use oxireg::export::ExportFormat;
use oxireg::match_index::ScanMessage;

fn press(code: KeyCode, modifiers: u8) -> KeyPress {
    KeyPress { code, modifiers, press: true }
}

fn type_text(app: &mut App, text: &str) {
    for c in text.chars() {
        app.handle_key(press(KeyCode::Char(c), 0), 1);
    }
}

#[test]
fn typing_moves_a_byte_cursor() {
    let mut app = App::new();
    let out = app.handle_key(press(KeyCode::Char('a'), 0), 1);
    assert!(out.edited);
    app.handle_key(press(KeyCode::Char('é'), SHIFT), 1);
    assert_eq!(app.regex_input, "aé");
    assert_eq!(app.cursor, 3);
    app.handle_key(press(KeyCode::Left, 0), 1);
    assert_eq!(app.cursor, 1);
    app.handle_key(press(KeyCode::Char('x'), 0), 1);
    assert_eq!(app.regex_input, "axé");
    assert_eq!(app.cursor, 2);
    app.handle_key(press(KeyCode::Delete, 0), 1);
    assert_eq!(app.regex_input, "ax");
    app.handle_key(press(KeyCode::Backspace, 0), 1);
    assert_eq!(app.regex_input, "a");
    assert_eq!(app.cursor, 1);
    app.handle_key(press(KeyCode::Home, 0), 1);
    assert_eq!(app.cursor, 0);
    let nothing = app.handle_key(press(KeyCode::Backspace, 0), 1);
    assert!(!nothing.edited);
    app.handle_key(press(KeyCode::End, 0), 1);
    assert_eq!(app.cursor, 1);
    app.handle_key(press(KeyCode::Right, 0), 1);
    assert_eq!(app.cursor, 1);
}

#[test]
fn releases_and_other_modifiers_do_nothing() {
    let mut app = App::new();
    app.handle_key(KeyPress { code: KeyCode::Char('a'), modifiers: 0, press: false }, 1);
    app.handle_key(press(KeyCode::Char('a'), ALT), 1);
    assert_eq!(app.regex_input, "");
    app.handle_key(press(KeyCode::Char('c'), ALT), 1);
    assert!(!app.should_quit);
    app.handle_key(press(KeyCode::Char('c'), CONTROL), 1);
    assert!(app.should_quit);
    let mut other = App::new();
    other.handle_key(press(KeyCode::Esc, SHIFT), 1);
    assert!(other.should_quit);
}

#[test]
fn history_saves_distinct_patterns_and_browses_them() {
    let mut app = App::new();
    type_text(&mut app, "ab");
    app.handle_key(press(KeyCode::Enter, 0), 1);
    app.handle_key(press(KeyCode::Backspace, 0), 1);
    app.handle_key(press(KeyCode::Char('c'), 0), 1);
    app.handle_key(press(KeyCode::Enter, 0), 1);
    app.handle_key(press(KeyCode::Backspace, 0), 1);
    app.handle_key(press(KeyCode::Char('b'), 0), 1);
    app.handle_key(press(KeyCode::Enter, 0), 1);
    assert_eq!(app.history, vec!["ac".to_string(), "ab".to_string()]);

    app.handle_key(press(KeyCode::Up, CONTROL), 1);
    assert_eq!(app.regex_input, "ab");
    assert_eq!(app.cursor, 2);
    app.handle_key(press(KeyCode::Up, CONTROL), 1);
    assert_eq!(app.regex_input, "ac");
    app.handle_key(press(KeyCode::Up, CONTROL), 1);
    assert_eq!(app.regex_input, "ac");
    app.handle_key(press(KeyCode::Down, CONTROL), 1);
    assert_eq!(app.regex_input, "ab");
    app.handle_key(press(KeyCode::Down, CONTROL), 1);
    assert_eq!(app.history_cursor, None);
    assert_eq!(app.regex_input, "ab");
}

#[test]
fn panels_resize_within_bounds() {
    let mut app = App::new();
    assert_eq!(app.right_panel_percent, 32);
    for _ in 0..10 {
        app.handle_key(press(KeyCode::Left, ALT), 1);
    }
    assert_eq!(app.right_panel_percent, 20);
    for _ in 0..30 {
        app.handle_key(press(KeyCode::Right, ALT), 1);
    }
    assert_eq!(app.right_panel_percent, 60);
    app.handle_key(press(KeyCode::F(2), 0), 1);
    assert!(app.frequency_collapsed);
    app.handle_key(press(KeyCode::F(3), 0), 1);
    assert!(app.status_collapsed);
}

#[test]
fn export_keys() {
    let mut app = App::new();
    app.handle_key(press(KeyCode::Char('e'), ALT), 1);
    assert_eq!(app.export_format, ExportFormat::Csv);
    assert_eq!(app.export_status, Some("export format: csv".to_string()));
    let out = app.handle_key(press(KeyCode::Char('e'), CONTROL), 1);
    assert!(matches!(out.effect, Effect::Nothing));
    assert_eq!(app.export_status, Some("export failed: regex is empty or invalid".to_string()));

    type_text(&mut app, "a");
    assert!(app.maybe_compile_regex(true, 10).is_some());
    let out = app.handle_key(press(KeyCode::Char('e'), CONTROL), 1);
    assert!(matches!(out.effect, Effect::Export));
    app.record_export(Ok((3, "out.csv".to_string())));
    assert_eq!(app.export_status, Some("exported 3 matches to out.csv".to_string()));
    app.record_export(Err("denied".to_string()));
    assert_eq!(app.export_status, Some("export failed: denied".to_string()));
}

#[test]
fn compiling_waits_for_the_debounce_and_follows_the_pattern() {
    let mut app = App::new();
    assert!(app.is_dirty());
    assert!(app.maybe_compile_regex(false, 0).is_none());
    assert!(app.is_dirty());
    assert!(app.maybe_compile_regex(true, 0).is_none());
    assert!(!app.is_dirty());
    assert_eq!(app.explanation, vec!["Enter a regex to see an explanation."]);

    type_text(&mut app, "(?P<x>a)");
    let start = app.maybe_compile_regex(true, 100).unwrap();
    assert_eq!(start.generation, 2);
    assert_eq!(start.regex.pattern(), "(?P<x>a)");
    assert_eq!(app.captures, vec!["0: <unnamed>", "1: (?P<x>)"]);
    assert_eq!(app.match_index.file_size, 100);
    assert!(!app.match_index.complete);
    assert!(app.regex_error.is_none());
    assert!(app.compiled.is_some());

    app.handle_key(press(KeyCode::Char('('), 0), 1);
    assert!(app.maybe_compile_regex(true, 100).is_none());
    assert!(app.regex_error.is_some());
    assert!(app.compiled.is_none());
    assert!(app.captures.is_empty());
    assert!(app.match_index.complete);
}

#[test]
fn stray_brackets_are_explained() {
    let mut app = App::new();
    type_text(&mut app, "a]");
    app.maybe_compile_regex(true, 1);
    assert_eq!(
        app.explanation,
        vec!["a matches the characters literally", "] matches the characters literally"]
    );
}

#[test]
fn pasting_leaves_out_line_breaks() {
    let mut app = App::new();
    assert!(app.handle_paste("a\r\nb"));
    assert_eq!(app.regex_input, "ab");
    assert_eq!(app.cursor, 2);
    assert!(!app.handle_paste("\n"));
}

#[test]
fn scrolling_asks_for_more_lines() {
    let mut app = App::new();
    let out = app.handle_key(press(KeyCode::Down, 0), 1);
    assert!(matches!(out.effect, Effect::IndexFrom(1)));
    let out = app.handle_key(press(KeyCode::PageDown, 0), 1);
    assert!(matches!(out.effect, Effect::IndexFrom(26)));
    app.handle_key(press(KeyCode::PageUp, 0), 1);
    assert_eq!(app.scroll_line, 1);
    app.handle_key(press(KeyCode::End, CONTROL), 40);
    assert_eq!(app.scroll_line, 39);
    app.handle_key(press(KeyCode::Home, CONTROL), 40);
    assert_eq!(app.scroll_line, 0);
    app.handle_key(press(KeyCode::F(4), 0), 40);
    assert!(app.collapse_matches);
    let out = app.handle_key(press(KeyCode::Down, 0), 40);
    assert!(matches!(out.effect, Effect::Nothing));
    assert_eq!(app.scroll_line, 0);
}

#[test]
fn mouse_clicks_fold_panels_and_wheel_scrolls() {
    let mut app = App::new();
    app.frequency_area = Area { x: 10, y: 0, width: 5, height: 5 };
    app.status_area = Area { x: 10, y: 5, width: 5, height: 5 };
    app.handle_mouse(MouseInput { kind: MouseKind::LeftDown, column: 12, row: 2 });
    assert!(app.frequency_collapsed);
    app.handle_mouse(MouseInput { kind: MouseKind::LeftDown, column: 12, row: 7 });
    assert!(app.status_collapsed);
    app.handle_mouse(MouseInput { kind: MouseKind::LeftDown, column: 2, row: 2 });
    assert!(app.frequency_collapsed && app.status_collapsed);
    let effect = app.handle_mouse(MouseInput { kind: MouseKind::ScrollDown, column: 0, row: 0 });
    assert!(matches!(effect, Effect::IndexFrom(3)));
    app.handle_mouse(MouseInput { kind: MouseKind::ScrollUp, column: 0, row: 0 });
    assert_eq!(app.scroll_line, 0);
}

#[test]
fn match_keys_jump_between_indexed_lines() {
    let mut app = App::new();
    type_text(&mut app, "x");
    let start = app.maybe_compile_regex(true, 100).unwrap();
    app.drain_match_index(vec![ScanMessage::Batch {
        generation: start.generation,
        chunk_index: 0,
        matching_lines: vec![5, 9],
        map_buckets: vec![0],
        hit_count: 2,
        frequencies: Vec::new(),
        bytes_scanned: 100,
        lines_scanned: 10,
    }]);
    let out = app.handle_key(press(KeyCode::F(8), 0), 10);
    assert!(matches!(out.effect, Effect::IndexFrom(4)));
    assert_eq!(app.scroll_line, 4);
    app.handle_key(press(KeyCode::Char('n'), ALT), 10);
    assert_eq!(app.scroll_line, 8);
    app.handle_key(press(KeyCode::F(8), 0), 10);
    assert_eq!(app.scroll_line, 4);
    app.handle_key(press(KeyCode::F(9), 0), 10);
    assert_eq!(app.scroll_line, 8);
}

#[test]
fn the_cursor_stays_on_a_character_boundary() {
    let mut app = App::new();
    type_text(&mut app, "ñ€𝄞a");
    let moves = [KeyCode::Left, KeyCode::Left, KeyCode::Backspace, KeyCode::Right, KeyCode::Home, KeyCode::Delete, KeyCode::End, KeyCode::Left];
    for code in moves {
        app.handle_key(press(code, 0), 1);
        assert!(app.cursor <= app.regex_input.len());
        assert!(app.regex_input.is_char_boundary(app.cursor));
    }
    assert_eq!(app.regex_input, "𝄞a");
    assert_eq!(app.cursor, 4);
}
