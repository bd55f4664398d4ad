use oxireg::regex_debug::{
    best_range_for_segment, capture_descriptions, compile_regex, flag_state, group_ranges,
    highlight_line, truncate_char_boundary, CompiledRegex, GroupRange, RegexFlags,
};

fn build(pattern: &str) -> CompiledRegex {
    match compile_regex(pattern, RegexFlags::default()) {
        Ok(re) => re,
        Err(_) => panic!("pattern should build"),
    }
}

fn plain(ranges: &[GroupRange]) -> Vec<(usize, usize, usize)> {
    ranges.iter().map(|r| (r.start, r.end, r.group_index)).collect()
}

#[test]
fn flags_toggle_one_at_a_time() {
    let mut flags = RegexFlags::default();
    assert_eq!(flags.label(), "i:off m:off s:off");
    flags.toggle_case_insensitive();
    assert_eq!(flags.label(), "i:on m:off s:off");
    flags.toggle_multi_line();
    flags.toggle_dot_matches_new_line();
    assert_eq!(flags.label(), "i:on m:on s:on");
    flags.toggle_case_insensitive();
    flags.toggle_case_insensitive();
    assert_eq!(flags.label(), "i:on m:on s:on");
    assert_eq!(flag_state(true), "on");
    assert_eq!(flag_state(false), "off");
}

#[test]
fn invalid_patterns_give_the_builder_message() {
    match compile_regex("(", RegexFlags::default()) {
        Ok(_) => panic!("an unclosed group does not build"),
        Err(err) => assert!(!err.message.is_empty()),
    }
    let re = build("a+");
    assert_eq!(re.pattern(), "a+");
}

#[test]
fn case_insensitive_flag_reaches_the_regex() {
    let mut flags = RegexFlags::default();
    flags.toggle_case_insensitive();
    let re = match compile_regex("abc", flags) {
        Ok(re) => re,
        Err(_) => panic!("pattern should build"),
    };
    assert_eq!(plain(&group_ranges("xABCx", &re)), vec![(1, 4, 0)]);
    assert!(group_ranges("xABCx", &build("abc")).is_empty());
}

#[test]
fn describes_capture_groups() {
    assert_eq!(
        capture_descriptions(&build(r"(?P<year>\d+)-(\d+)")),
        vec!["0: <unnamed>", "1: (?P<year>)", "2: <unnamed>"]
    );
}

#[test]
fn group_ranges_prefer_groups_over_whole_matches() {
    assert_eq!(plain(&group_ranges("ab ab", &build("ab"))), vec![(0, 2, 0), (3, 5, 0)]);
    assert_eq!(
        plain(&group_ranges("k=v", &build(r"(\w)=(?P<v>\w)"))),
        vec![(0, 1, 1), (2, 3, 2)]
    );
    assert!(group_ranges("aaa", &build("b*")).is_empty());
}

#[test]
fn best_range_is_the_shortest_then_the_latest_group() {
    let ranges = [
        GroupRange { start: 0, end: 10, group_index: 1 },
        GroupRange { start: 2, end: 5, group_index: 2 },
        GroupRange { start: 2, end: 5, group_index: 3 },
    ];
    let best = best_range_for_segment(&ranges, 2, 4).unwrap();
    assert_eq!((best.start, best.end, best.group_index), (2, 5, 3));
    let outer = best_range_for_segment(&ranges, 6, 8).unwrap();
    assert_eq!(outer.group_index, 1);
    assert!(best_range_for_segment(&ranges, 9, 11).is_none());
}

#[test]
fn truncates_at_character_boundaries() {
    assert_eq!(truncate_char_boundary("héllo", 2), "h");
    assert_eq!(truncate_char_boundary("héllo", 3), "hé");
    assert_eq!(truncate_char_boundary("short", 10), "short");
    assert_eq!(truncate_char_boundary("abc", 0), "");
}

#[test]
fn highlights_segments_by_group() {
    let re = build(r"(\d+)");
    let h = highlight_line("ab12cd", Some(&re), 80, false);
    let segs: Vec<(usize, usize, Option<usize>)> =
        h.segments.iter().map(|s| (s.start, s.end, s.group)).collect();
    assert_eq!(segs, vec![(0, 2, None), (2, 4, Some(1)), (4, 6, None)]);
    assert!(!h.marker);

    let cut = highlight_line("abcdef", None, 3, false);
    let segs: Vec<(usize, usize, Option<usize>)> =
        cut.segments.iter().map(|s| (s.start, s.end, s.group)).collect();
    assert_eq!(segs, vec![(0, 3, None)]);
    assert!(cut.marker);
    assert!(highlight_line("ab", None, 80, true).marker);
}

#[test]
fn highlight_segments_spell_the_visible_text() {
    let re = build("ö|l");
    let line = "héllo wörld";
    let h = highlight_line(line, Some(&re), 80, false);
    let spelled: String = h.segments.iter().map(|s| &line[s.start..s.end]).collect();
    assert_eq!(spelled, line);
    let cut = highlight_line(line, Some(&re), 4, false);
    let spelled: String = cut.segments.iter().map(|s| &line[s.start..s.end]).collect();
    assert_eq!(spelled, "hél");
    assert!(cut.marker);
    let none = highlight_line(line, None, 2, false);
    let spelled: String = none.segments.iter().map(|s| &line[s.start..s.end]).collect();
    assert_eq!(spelled, "h");
}

#[test]
fn capture_ranges_fall_on_character_boundaries() {
    let re = build("(ñ)b");
    let caps = oxireg::regex_debug::captures_in(&re, "añb");
    assert_eq!(caps.len(), 1);
    let whole = caps[0][0].clone().unwrap();
    assert_eq!((whole.start, whole.end, whole.text.as_str()), (1, 4, "ñb"));
    let group = caps[0][1].clone().unwrap();
    assert_eq!((group.start, group.end, group.text.as_str()), (1, 3, "ñ"));
    assert_eq!(plain(&group_ranges("añb", &re)), vec![(1, 3, 1)]);
}
