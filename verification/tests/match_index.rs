use oxireg::frequencies::FrequencyBatch;
use oxireg::match_index::{
    increment_frequency, line_to_usize, map_row_of_offset, match_bucket, named_capture_names,
    process_chunk, ChunkBuilder, CHUNK_LINES,
    take_frequencies, to_line_number, FrequencyDelta, MatchIndex, ScanLine, ScanMessage, WorkChunk,
    MAX_FREQUENCY_VALUES_PER_GROUP,
};
use oxireg::regex_debug::{compile_regex, CompiledRegex, RegexFlags};

fn build(pattern: &str) -> CompiledRegex {
    match compile_regex(pattern, RegexFlags::default()) {
        Ok(re) => re,
        Err(_) => panic!("pattern should build"),
    }
}

fn batch(generation: u64, chunk_index: usize, lines: Vec<u32>, buckets: Vec<u16>, hits: u64) -> ScanMessage {
    ScanMessage::Batch {
        generation,
        chunk_index,
        matching_lines: lines,
        map_buckets: buckets,
        hit_count: hits,
        frequencies: Vec::new(),
        bytes_scanned: 10 * (chunk_index as u64 + 1),
        lines_scanned: 5 * (chunk_index + 1),
    }
}

#[test]
fn keeps_frequency_group_names_without_cloning_names_per_hit() {
    let regex = build(r"(?P<kind>\w+)");
    let groups = named_capture_names(&regex);
    let mut frequencies = FrequencyBatch::new();
    increment_frequency(&mut frequencies, 1, "error");
    increment_frequency(&mut frequencies, 1, "error");

    assert_eq!(
        take_frequencies(&mut frequencies, &groups)
            .into_iter()
            .map(|delta| (delta.group, delta.value, delta.count))
            .collect::<Vec<_>>(),
        vec![("kind".to_string(), "error".to_string(), 2)]
    );
}

#[test]
fn caps_unique_frequency_values_per_group() {
    let mut frequencies = FrequencyBatch::new();

    for idx in 0..MAX_FREQUENCY_VALUES_PER_GROUP + 10 {
        increment_frequency(&mut frequencies, 1, &format!("value-{idx}"));
    }

    increment_frequency(&mut frequencies, 1, "value-1");

    let values = frequencies.get(1).unwrap();
    assert_eq!(values.len(), MAX_FREQUENCY_VALUES_PER_GROUP);
    assert_eq!(values.get("value-1"), Some(2));
}

#[test]
fn take_frequencies_empties_the_batch_and_skips_unnamed_groups() {
    let regex = build(r"(\d)(?P<word>[a-z]+)");
    let groups = named_capture_names(&regex);
    assert_eq!(groups, vec![(2, "word".to_string())]);
    let mut frequencies = FrequencyBatch::new();
    increment_frequency(&mut frequencies, 1, "7");
    increment_frequency(&mut frequencies, 2, "b");
    increment_frequency(&mut frequencies, 2, "a");
    let deltas = take_frequencies(&mut frequencies, &groups);
    assert_eq!(frequencies.len(), 0);
    let plain: Vec<(String, String, u64)> =
        deltas.into_iter().map(|d| (d.group, d.value, d.count)).collect();
    assert_eq!(
        plain,
        vec![("word".to_string(), "a".to_string(), 1), ("word".to_string(), "b".to_string(), 1)]
    );
}

#[test]
fn buckets_scale_offsets_to_the_match_map() {
    assert_eq!(match_bucket(0, 0), 0);
    assert_eq!(match_bucket(5, 0), 0);
    assert_eq!(match_bucket(50, 100), 4096);
    assert_eq!(match_bucket(99, 100), 8110);
    assert_eq!(match_bucket(100, 100), 8191);
    assert_eq!(match_bucket(u64::MAX, 1), 8191);
}

#[test]
fn line_numbers_fit_or_are_dropped() {
    assert_eq!(to_line_number(7), Some(7));
    assert_eq!(to_line_number(u32::MAX as usize), Some(u32::MAX));
    assert_eq!(to_line_number(u32::MAX as usize + 1), None);
    assert_eq!(line_to_usize(42), 42);
}

#[test]
fn processes_a_chunk_into_a_batch() {
    let regex = build(r"(?P<kind>\w+)");
    let groups = named_capture_names(&regex);
    let work = WorkChunk {
        index: 3,
        lines: vec![
            ScanLine { line: 1, byte_offset: 0, text: b"error x\n".to_vec() },
            ScanLine { line: 2, byte_offset: 8, text: b"\n".to_vec() },
            ScanLine { line: 3, byte_offset: 9, text: b"x\n".to_vec() },
        ],
        bytes_scanned: 11,
        lines_scanned: 3,
    };
    match process_chunk(7, &regex, &groups, 100, work) {
        ScanMessage::Batch {
            generation,
            chunk_index,
            matching_lines,
            map_buckets,
            hit_count,
            frequencies,
            bytes_scanned,
            lines_scanned,
        } => {
            assert_eq!(generation, 7);
            assert_eq!(chunk_index, 3);
            assert_eq!(matching_lines, vec![1, 3]);
            assert_eq!(map_buckets, vec![0, 491, 737]);
            assert_eq!(hit_count, 3);
            let plain: Vec<(String, String, u64)> =
                frequencies.into_iter().map(|d| (d.group, d.value, d.count)).collect();
            assert_eq!(
                plain,
                vec![("kind".to_string(), "error".to_string(), 1), ("kind".to_string(), "x".to_string(), 2)]
            );
            assert_eq!(bytes_scanned, 11);
            assert_eq!(lines_scanned, 3);
        }
        _ => panic!("a chunk gives a batch"),
    }
}

#[test]
fn empty_matches_are_no_hits() {
    let regex = build("b*");
    let work = WorkChunk {
        index: 0,
        lines: vec![ScanLine { line: 1, byte_offset: 0, text: b"aaa\n".to_vec() }],
        bytes_scanned: 4,
        lines_scanned: 1,
    };
    match process_chunk(1, &regex, &[], 4, work) {
        ScanMessage::Batch { matching_lines, map_buckets, hit_count, .. } => {
            assert!(matching_lines.is_empty());
            assert!(map_buckets.is_empty());
            assert_eq!(hit_count, 0);
        }
        _ => panic!("a chunk gives a batch"),
    }
}

#[test]
fn batches_apply_in_chunk_order_whatever_the_arrival() {
    let mut index = MatchIndex::new();
    let generation = index.start(100);
    assert_eq!(generation, 1);
    assert!(!index.complete);

    index.receive(batch(generation, 1, vec![10, 12], vec![40], 2));
    assert_eq!(index.matching_line_count(), 0);
    assert_eq!(index.hit_count, 0);

    index.receive(batch(generation, 0, vec![3, 10], vec![5, 40], 3));
    assert_eq!(index.matching_lines_window(0, 10), vec![3, 10, 12]);
    assert_eq!(index.hit_count, 5);
    assert_eq!(index.bytes_scanned, 20);
    assert_eq!(index.lines_scanned, 10);

    let mut other = MatchIndex::new();
    let g = other.start(100);
    other.receive(batch(g, 0, vec![3, 10], vec![5, 40], 3));
    other.receive(batch(g, 1, vec![10, 12], vec![40], 2));
    assert_eq!(other.matching_lines_window(0, 10), index.matching_lines_window(0, 10));
    assert_eq!(other.hit_count, index.hit_count);
    assert_eq!(other.match_map_rows(8192), index.match_map_rows(8192));
}

#[test]
fn messages_of_an_earlier_scan_are_ignored() {
    let mut index = MatchIndex::new();
    let old = index.start(100);
    let current = index.start(100);
    assert_eq!(current, old + 1);
    index.receive(batch(old, 0, vec![1], vec![0], 1));
    index.receive(ScanMessage::Done { generation: old, bytes_scanned: 100, lines_scanned: 9 });
    index.receive(ScanMessage::Error { generation: old, message: "gone".to_string() });
    assert_eq!(index.matching_line_count(), 0);
    assert!(!index.complete);
    assert!(index.error.is_none());

    index.receive(ScanMessage::Done { generation: current, bytes_scanned: 100, lines_scanned: 9 });
    assert!(index.complete);
    assert_eq!(index.bytes_scanned, 100);
    assert_eq!(index.lines_scanned, 9);
    index.receive(ScanMessage::Error { generation: current, message: "disk".to_string() });
    assert_eq!(index.error, Some("disk".to_string()));
}

#[test]
fn drain_takes_messages_in_order() {
    let mut index = MatchIndex::new();
    let g = index.start(50);
    index.drain(vec![
        batch(g, 0, vec![2], vec![1], 1),
        ScanMessage::Done { generation: g, bytes_scanned: 50, lines_scanned: 4 },
    ]);
    assert_eq!(index.matching_lines_window(0, 5), vec![2]);
    assert!(index.complete);
    index.clear();
    assert_eq!(index.matching_line_count(), 0);
    assert!(index.complete);
    assert_eq!(index.file_size, 0);
}

#[test]
fn navigation_wraps_around() {
    let mut index = MatchIndex::new();
    let g = index.start(100);
    index.receive(batch(g, 0, vec![3, 7, 10], vec![], 3));
    assert_eq!(index.next_line_after(7), Some(10));
    assert_eq!(index.next_line_after(0), Some(3));
    assert_eq!(index.next_line_after(10), Some(3));
    assert_eq!(index.prev_line_before(8), Some(7));
    assert_eq!(index.prev_line_before(3), Some(10));
    assert_eq!(index.prev_line_before(100), Some(10));
    assert_eq!(index.matching_lines_window(1, 5), vec![7, 10]);
    assert_eq!(index.matching_lines_window(5, 5), Vec::<usize>::new());
    let empty = MatchIndex::new();
    assert_eq!(empty.next_line_after(1), None);
    assert_eq!(empty.prev_line_before(1), None);
}

#[test]
fn match_map_rows_mark_the_buckets_hit() {
    let mut index = MatchIndex::new();
    let g = index.start(100);
    index.receive(batch(g, 0, vec![1], vec![0, 4096, 8191], 3));
    assert_eq!(index.match_map_rows(4), vec![true, false, true, true]);
    assert_eq!(index.match_map_rows(0), Vec::<bool>::new());
    assert_eq!(index.match_map_rows(1), vec![true]);
}

#[test]
fn frequency_deltas_feed_the_top_bars() {
    let mut index = MatchIndex::new();
    let g = index.start(100);
    index.receive(ScanMessage::Batch {
        generation: g,
        chunk_index: 0,
        matching_lines: vec![1],
        map_buckets: vec![0],
        hit_count: 4,
        frequencies: vec![
            FrequencyDelta { group: "code".to_string(), value: "404".to_string(), count: 1 },
            FrequencyDelta { group: "code".to_string(), value: "500".to_string(), count: 3 },
            FrequencyDelta { group: "method".to_string(), value: "GET".to_string(), count: 1 },
        ],
        bytes_scanned: 10,
        lines_scanned: 1,
    });
    let (group, bars) = index.top_frequency_bars(5).unwrap();
    assert_eq!(group, "code");
    assert_eq!(bars, vec![("500".to_string(), 3), ("404".to_string(), 1)]);
    let (_, one) = index.top_frequency_bars(1).unwrap();
    assert_eq!(one, vec![("500".to_string(), 3)]);
    assert!(MatchIndex::new().top_frequency_bars(3).is_none());
}

#[test]
fn chunks_number_lines_and_place_them_in_the_file() {
    let mut builder = ChunkBuilder::new();
    let mut handed_out = Vec::new();
    for i in 0..CHUNK_LINES + 2 {
        let text = if i % 2 == 0 { b"ab\n".to_vec() } else { b"c\n".to_vec() };
        if let Some(work) = builder.push_line(text) {
            handed_out.push(work);
        }
    }
    assert_eq!(handed_out.len(), 1);
    let first = &handed_out[0];
    assert_eq!(first.index, 0);
    assert_eq!(first.lines.len(), CHUNK_LINES);
    assert_eq!(first.lines[0].line, 1);
    assert_eq!(first.lines[0].byte_offset, 0);
    assert_eq!(first.lines[1].byte_offset, 3);
    assert_eq!(first.lines[2].byte_offset, 5);
    assert_eq!(first.lines_scanned, CHUNK_LINES);
    assert_eq!(first.bytes_scanned, (CHUNK_LINES as u64 / 2) * 5);
    let (rest, bytes, lines) = builder.finish();
    let rest = rest.unwrap();
    assert_eq!(rest.index, 1);
    assert_eq!(rest.lines.len(), 2);
    assert_eq!(rest.lines[0].line, CHUNK_LINES + 1);
    assert_eq!(lines, CHUNK_LINES + 2);
    assert_eq!(bytes, (CHUNK_LINES as u64 / 2) * 5 + 5);
    let (nothing, zero_bytes, zero_lines) = ChunkBuilder::new().finish();
    assert!(nothing.is_none());
    assert_eq!((zero_bytes, zero_lines), (0, 0));
}

#[test]
fn offsets_map_to_rows() {
    assert_eq!(map_row_of_offset(0, 10, 100), 0);
    assert_eq!(map_row_of_offset(50, 10, 100), 5);
    assert_eq!(map_row_of_offset(100, 10, 100), 9);
    assert_eq!(map_row_of_offset(7, 10, 0), 9);
    assert_eq!(map_row_of_offset(u64::MAX, 3, 1), 2);
}

#[test]
fn a_restart_ignores_every_earlier_scan() {
    let mut index = MatchIndex::new();
    let first = index.start(100);
    let second = index.start(100);
    index.clear();
    let third = index.start(100);
    assert_eq!(third, first + 3);
    assert_ne!(second, third);
    index.drain(vec![
        batch(first, 0, vec![1], vec![0], 1),
        batch(second, 0, vec![2], vec![0], 1),
        ScanMessage::Done { generation: second, bytes_scanned: 100, lines_scanned: 9 },
    ]);
    assert_eq!(index.matching_line_count(), 0);
    assert!(!index.complete);
}

#[test]
fn drain_applies_the_first_chunks_and_keeps_later_ones_waiting() {
    let mut index = MatchIndex::new();
    let g = index.start(100);
    index.drain(vec![
        batch(g, 2, vec![9], vec![3], 4),
        batch(g, 0, vec![1, 2], vec![0], 2),
        batch(g, 3, vec![12], vec![4], 8),
    ]);
    assert_eq!(index.matching_lines_window(0, 10), vec![1, 2]);
    assert_eq!(index.hit_count, 2);
    index.drain(vec![batch(g, 1, vec![2, 5], vec![0, 1], 1)]);
    assert_eq!(index.matching_lines_window(0, 10), vec![1, 2, 5, 9, 12]);
    assert_eq!(index.hit_count, 15);
}
