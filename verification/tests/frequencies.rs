use oxireg::frequencies::{GroupFrequencies, ValueCounts};

fn chars(s: &str) -> Vec<char> {
    s.chars().collect()
}

#[test]
fn value_counts_cap_new_values_but_keep_counting_old_ones() {
    let mut counts = ValueCounts::new();
    counts.add_capped(&chars("b"), 1, 2);
    counts.add_capped(&chars("a"), 2, 2);
    counts.add_capped(&chars("c"), 5, 2);
    counts.add_capped(&chars("b"), 4, 2);
    assert_eq!(counts.len(), 2);
    assert_eq!(counts.get("a"), Some(2));
    assert_eq!(counts.get("b"), Some(5));
    assert_eq!(counts.get("c"), None);
    assert_eq!(counts.pairs(), vec![("a".to_string(), 2), ("b".to_string(), 5)]);
    assert_eq!(counts.total(), 7);
}

#[test]
fn top_bars_pick_the_busiest_group_and_rank_its_values() {
    let mut groups = GroupFrequencies::new();
    assert!(groups.top_bars(4).is_none());
    groups.add_capped(&chars("status"), &chars("200"), 2, 256);
    groups.add_capped(&chars("status"), &chars("404"), 2, 256);
    groups.add_capped(&chars("status"), &chars("500"), 3, 256);
    groups.add_capped(&chars("host"), &chars("a"), 1, 256);
    assert_eq!(groups.len(), 2);
    let (name, bars) = groups.top_bars(10).unwrap();
    assert_eq!(name, "status");
    assert_eq!(
        bars,
        vec![("500".to_string(), 3), ("200".to_string(), 2), ("404".to_string(), 2)]
    );
    let (_, two) = groups.top_bars(2).unwrap();
    assert_eq!(two.len(), 2);
}

#[test]
fn equal_totals_pick_the_last_group_by_name() {
    let mut groups = GroupFrequencies::new();
    groups.add_capped(&chars("b"), &chars("x"), 1, 256);
    groups.add_capped(&chars("a"), &chars("y"), 1, 256);
    let (name, _) = groups.top_bars(3).unwrap();
    assert_eq!(name, "b");
}
