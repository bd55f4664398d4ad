use oxireg::explain::explain;

#[test]
fn keeps_literal_words_together() {
    assert_eq!(explain("name"), vec!["name matches the characters literally"]);
}

#[test]
fn does_not_escape_quotes_in_literal_display() {
    assert_eq!(
        explain(r#""name""#),
        vec![r#""name" matches the characters literally"#]
    );
}

#[test]
fn consumes_named_group_prefix_as_one_construct() {
    let lines = explain(r"(?P<name>\w+)");

    assert_eq!(
        lines,
        vec![
            r#"(?P<name>...) captures a match into the named group "name""#,
            r#"  \w matches any word character; repeat the previous token one or more times"#,
        ]
    );
}

#[test]
fn attaches_quantifiers_to_classes_and_escapes() {
    assert_eq!(
        explain(r"[a-z]+\d{2}"),
        vec![
            "[a-z] matches one character present in the set; repeat the previous token one or more times",
            r"\d matches any digit, equivalent to [0-9]; repeat the previous token exactly 2 times",
        ]
    );
}

#[test]
fn explanation_lines_are_single_lines() {
    for pattern in ["a|b", "(x(y)z)*", "^\\bfoo$", "[a-c]{2,5}?", "a\nb"] {
        let lines = explain(pattern);
        assert!(!lines.is_empty());
        assert!(lines.len() <= 80);
        for line in lines {
            assert!(!line.contains('\n'));
        }
    }
}

#[test]
fn stray_closing_brackets_are_literals_of_their_own() {
    assert_eq!(
        explain("a]"),
        vec!["a matches the characters literally", "] matches the characters literally"]
    );
    assert_eq!(explain("}"), vec!["} matches the characters literally"]);
    assert_eq!(
        explain("{2}"),
        vec![
            "{ is a quantifier without a previous token",
            "2 matches the characters literally",
            "} matches the characters literally",
        ]
    );
    assert_eq!(
        explain("]+"),
        vec!["] matches the characters literally; repeat the previous token one or more times"]
    );
}

#[test]
fn empty_pattern_asks_for_a_regex() {
    assert_eq!(explain(""), vec!["Enter a regex to see an explanation."]);
}
