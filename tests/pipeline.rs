use rsi::layout::{layout, wrap_text};
use rsi::pivot::{label_order, pivot, PivotRow};
use rsi::render::{label_width, render_table, value_width_of, DELIMITER, KEY_FIELD};
use rsi::table::{key_column, parse_table};
use rsi::RsiError;

fn strings(v: &[&str]) -> Vec<String> {
    v.iter().map(|s| s.to_string()).collect()
}

#[test]
fn parse_drops_trailing_field() {
    let t = parse_table("JobID|State|\n123|COMPLETED|\n", '|').unwrap();
    assert_eq!(t.records(), &vec![strings(&["JobID", "State"]), strings(&["123", "COMPLETED"])]);
    assert_eq!(t.width(), 2);
}

#[test]
fn parse_handles_crlf_and_missing_final_break() {
    let t = parse_table("A|B|\r\n1|2|", '|').unwrap();
    assert_eq!(t.records(), &vec![strings(&["A", "B"]), strings(&["1", "2"])]);
}

#[test]
fn parse_keeps_empty_fields() {
    let t = parse_table("A|B|C|\n1||3|\n", '|').unwrap();
    assert_eq!(t.records()[1], strings(&["1", "", "3"]));
}

#[test]
fn parse_rejects_empty_text() {
    assert_eq!(parse_table("", '|').err(), Some(RsiError::MalformedInput));
}

#[test]
fn parse_rejects_empty_header() {
    assert_eq!(parse_table("JobID\n", '|').err(), Some(RsiError::MalformedInput));
}

#[test]
fn parse_rejects_mismatched_counts() {
    assert_eq!(parse_table("A|B|\n1|2|3|\n", '|').err(), Some(RsiError::MalformedInput));
    assert_eq!(parse_table("A|B|\n\n1|2|\n", '|').err(), Some(RsiError::MalformedInput));
}

#[test]
fn parse_twice_gives_equal_tables() {
    let text = "JobID|State|\n123|COMPLETED|\n";
    let a = parse_table(text, '|').unwrap();
    let b = parse_table(text, '|').unwrap();
    assert_eq!(a.records(), b.records());
}

#[test]
fn key_column_first_match() {
    let t = parse_table("State|JobID|JobID|\nX|1|2|\n", '|').unwrap();
    assert_eq!(key_column(&t, "JobID"), Ok(1));
}

#[test]
fn key_column_is_case_sensitive() {
    let t = parse_table("State|jobid|\nX|1|\n", '|').unwrap();
    assert_eq!(key_column(&t, "JobID"), Err(RsiError::KeyColumnNotFound));
}

#[test]
fn label_order_is_by_label_with_stable_ties() {
    let header = strings(&["JobID", "State", "Account", "Elapsed"]);
    assert_eq!(label_order(&header, 0), vec![2, 3, 1]);
    let header = strings(&["Same", "Key", "Same"]);
    // Once the key is swapped to the front, column 0 stands at position 1
    // and column 2 stays at position 2.
    assert_eq!(label_order(&header, 1), vec![0, 2]);
}

#[test]
fn pivot_of_trivial_table() {
    let t = parse_table("JobID|State|\n123|COMPLETED|\n", '|').unwrap();
    let key = key_column(&t, "JobID").unwrap();
    let rows = pivot(&t, key, "JOBID=123 STEP=0");
    assert_eq!(rows.len(), 2);
    assert_eq!(rows[0].label, "JOBID=123 STEP=0");
    assert_eq!(rows[0].values, strings(&["123"]));
    assert_eq!(rows[1].label, "State");
    assert_eq!(rows[1].values, strings(&["COMPLETED"]));
}

#[test]
fn pivot_puts_key_first_wherever_it_stands() {
    let t = parse_table("Zeta|Alpha|JobID|Beta|\nz|a|7|b|\nz2|a2|8|b2|\n", '|').unwrap();
    let key = key_column(&t, "JobID").unwrap();
    assert_eq!(key, 2);
    let rows = pivot(&t, key, "title");
    let labels: Vec<&str> = rows.iter().map(|r| r.label.as_str()).collect();
    assert_eq!(labels, vec!["title", "Alpha", "Beta", "Zeta"]);
    assert_eq!(rows[0].values, strings(&["7", "8"]));
    assert_eq!(rows[3].values, strings(&["z", "z2"]));
}

#[test]
fn pivot_sorts_bytewise() {
    let t = parse_table("JobID|b|B|a|\n1|x|y|z|\n", '|').unwrap();
    let rows = pivot(&t, 0, "t");
    let labels: Vec<&str> = rows.iter().map(|r| r.label.as_str()).collect();
    assert_eq!(labels, vec!["t", "B", "a", "b"]);
}

#[test]
fn wrap_keeps_words_whole() {
    assert_eq!(wrap_text("the quick brown fox", 10), strings(&["the quick", "brown fox"]));
    assert_eq!(wrap_text("aa bb cc", 5), strings(&["aa bb", "cc"]));
}

#[test]
fn wrap_puts_long_word_alone() {
    assert_eq!(wrap_text("a verylongword b", 4), strings(&["a", "verylongword", "b"]));
}

#[test]
fn wrap_of_empty_value_is_one_empty_line() {
    assert_eq!(wrap_text("", 10), strings(&[""]));
    assert_eq!(wrap_text("   ", 10), strings(&[""]));
}

#[test]
fn wrapped_lines_fit() {
    let value = "node[001-004],node[010-020] gpu:a100:4 partition=debug qos=normal";
    for width in 27..40 {
        for line in wrap_text(value, width) {
            assert!(line.chars().count() <= width);
        }
    }
}

#[test]
fn layout_blanks_label_on_continuation_lines() {
    let rows = vec![
        PivotRow { label: "T".to_string(), values: strings(&["1"]) },
        PivotRow { label: "Nodes".to_string(), values: strings(&["aa bb cc"]) },
    ];
    let lines = layout(&rows, 5);
    assert_eq!(
        lines,
        vec![strings(&["T", "1"]), strings(&["Nodes", "aa bb"]), strings(&["", "cc"])]
    );
}

#[test]
fn label_width_counts_characters() {
    let rows = vec![
        PivotRow { label: "Zeit".to_string(), values: vec![] },
        PivotRow { label: "Größe".to_string(), values: vec![] },
        PivotRow { label: "日本語".to_string(), values: vec![] },
    ];
    assert_eq!(label_width(&rows), 5);
}

#[test]
fn value_width_formula() {
    assert_eq!(value_width_of(80, 20, 1), 55);
    assert_eq!(value_width_of(80, 20, 2), 26);
    assert_eq!(value_width_of(20, 20, 1), 10);
    assert_eq!(value_width_of(80, 20, 0), 10);
}

#[test]
fn render_trivial_table() {
    let out = render_table("JobID|State|\n123|COMPLETED|\n", KEY_FIELD, "JOBID=123 STEP=0", Some(80), false).unwrap();
    assert!(out.contains("JOBID=123 STEP=0"));
    assert!(out.contains("COMPLETED"));
    assert!(out.contains('|'));
    let title_at = out.find("JOBID=123 STEP=0").unwrap();
    let state_at = out.find("State").unwrap();
    assert!(title_at < state_at);
    assert!(!out.contains("JobID"));
}

#[test]
fn render_without_width_fails() {
    assert_eq!(
        render_table("JobID|State|\n1|X|\n", KEY_FIELD, "t", None, false),
        Err(RsiError::TerminalSizeUnavailable)
    );
}

#[test]
fn render_without_key_fails() {
    assert_eq!(
        render_table("Job|State|\n1|X|\n", KEY_FIELD, "t", Some(80), false),
        Err(RsiError::KeyColumnNotFound)
    );
}

#[test]
fn render_of_malformed_text_fails() {
    assert_eq!(render_table("JobID|State|\n1|\n", KEY_FIELD, "t", None, false), Err(RsiError::MalformedInput));
    assert_eq!(DELIMITER, '|');
}

#[test]
fn highlight_marks_label_cells_only() {
    let lines = vec![strings(&["T", "1"]), strings(&["", "x"])];
    let marked = rsi::render::highlight_labels(lines.clone(), true);
    assert_eq!(marked[0][0], "\u{1b}[33mT\u{1b}[0m");
    assert_eq!(marked[0][1], "1");
    assert_eq!(marked[1][0], "\u{1b}[33m\u{1b}[0m");
    assert_eq!(marked[1][1], "x");
    assert_eq!(rsi::render::highlight_labels(lines.clone(), false), lines);
}

#[test]
fn render_scenario_with_two_records() {
    let text = "JobName|JobID|State|\nsim|42|RUNNING|\nsim|42.batch|RUNNING|\n";
    let out = render_table(text, KEY_FIELD, "JOBID=42 STEP=0", Some(100), true).unwrap();
    let title_at = out.find("JOBID=42 STEP=0").unwrap();
    let name_at = out.find("JobName").unwrap();
    let state_at = out.find("State").unwrap();
    assert!(title_at < name_at && name_at < state_at);
    assert!(out.contains("42.batch"));
}

#[test]
fn render_is_the_same_twice() {
    let text = "JobID|State|Comment|\n7|FAILED|out of memory on node a01|\n";
    let a = render_table(text, KEY_FIELD, "JOBID=7 STEP=0", Some(60), true).unwrap();
    let b = render_table(text, KEY_FIELD, "JOBID=7 STEP=0", Some(60), true).unwrap();
    assert_eq!(a, b);
    assert!(a.contains("\u{1b}[33m"));
    let plain = render_table(text, KEY_FIELD, "JOBID=7 STEP=0", Some(60), false).unwrap();
    assert!(!plain.contains('\u{1b}'));
}

#[test]
fn wrap_splits_at_unicode_spaces() {
    assert_eq!(wrap_text("a\u{3000}b\u{a0}c", 80), strings(&["a b c"]));
}
