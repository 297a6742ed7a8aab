use bdsh::colors::ColorScheme;
use bdsh::consensus::ConsensusLine;
use bdsh::render::{
    format_gutter, format_status, gutter_width, max_gutter_width, render_text_lines, truncate,
    RowKind,
};
use bdsh::selection::ConsensusView;
use bdsh::Status;

#[test]
fn test_truncate_ascii() {
    assert_eq!(truncate("hello", 10), "hello");
    assert_eq!(truncate("hello world", 10), "hello w...");
    assert_eq!(truncate("hi", 2), "hi");
}

#[test]
fn test_truncate_unicode() {
    // Emoji are multi-byte but should count as single characters
    assert_eq!(truncate("🍉🍊🍍", 10), "🍉🍊🍍");
    assert_eq!(truncate("🍉🍊🍍🍄🍅🍆🍇", 5), "🍉🍊...");

    // Mixed ASCII and unicode
    assert_eq!(truncate("hello 🌍", 10), "hello 🌍");
    assert_eq!(truncate("hello 🌍 world", 10), "hello 🌍...");
}

#[test]
fn test_truncate_edge_cases() {
    assert_eq!(truncate("", 5), "");
    assert_eq!(truncate("abc", 3), "abc");
    assert_eq!(truncate("abcd", 3), "...");
}

#[test]
fn gutter_single_host_shows_name() {
    let hosts = vec!["alpha".to_string()];
    assert_eq!(format_gutter(&hosts, false), "alpha");
    assert_eq!(format_gutter(&hosts, true), "alpha");
    assert_eq!(gutter_width(&hosts, false), 5);
}

#[test]
fn gutter_group_collapsed_and_expanded() {
    let hosts = vec!["a".to_string(), "b".to_string(), "c".to_string()];
    assert_eq!(format_gutter(&hosts, false), "[3]");
    assert_eq!(format_gutter(&hosts, true), "a,b,c");
    assert_eq!(gutter_width(&hosts, true), 5);
}

#[test]
fn gutter_width_has_minimum_of_four() {
    let variants = vec![("x".to_string(), vec!["h".to_string()])];
    let missing: Vec<String> = Vec::new();
    assert_eq!(max_gutter_width(&variants, &missing, None), 4);
}

#[test]
fn gutter_width_tracks_widest_entry() {
    let variants = vec![
        ("x".to_string(), vec!["longhostname".to_string()]),
        ("y".to_string(), vec!["h1".to_string(), "h2".to_string()]),
    ];
    let missing = vec!["m1".to_string(), "m2".to_string()];
    assert_eq!(max_gutter_width(&variants, &missing, None), 12);
}

#[test]
fn display_rows_empty_consensus_shows_placeholders() {
    let mut v = ConsensusView::new();
    let rows = v.build_display_rows(0, 10);
    assert_eq!(rows.len(), 1);
    assert_eq!(rows[0].kind, RowKind::NoHostsNotice);
    assert_eq!(rows[0].text, "No host directories found...");

    v.update_consensus(Vec::new(), true);
    let rows = v.build_display_rows(0, 10);
    assert_eq!(rows.len(), 1);
    assert_eq!(rows[0].kind, RowKind::EmptyNotice);
    assert_eq!(rows[0].text, "(no output yet)");
}

#[test]
fn display_rows_expanded_line() {
    let line = ConsensusLine::Differs {
        consensus: "common".to_string(),
        variants: vec![
            ("common".to_string(), vec!["h1".to_string(), "h2".to_string()]),
            ("odd".to_string(), vec!["h3".to_string()]),
        ],
        missing: vec!["h4".to_string()],
        expanded: true,
        expanded_hosts: Vec::new(),
    };
    let mut v = ConsensusView::new();
    v.update_consensus(vec![line], true);
    let rows = v.build_display_rows(0, 10);
    assert_eq!(rows.len(), 4);
    assert_eq!(rows[0].kind, RowKind::DiffSummary);
    assert_eq!(rows[0].text, "v[2] common");
    assert!(rows[0].selected);
    assert_eq!(rows[1].kind, RowKind::VariantEntry);
    assert_eq!(rows[1].text, "   [2] \u{2502} common");
    assert!(!rows[1].selected);
    assert_eq!(rows[2].text, "    h3 \u{2502} odd");
    assert_eq!(rows[3].kind, RowKind::MissingEntry);
    assert_eq!(rows[3].text, "    h4 \u{2502} <missing>");
}

#[test]
fn display_rows_windowing() {
    let lines: Vec<ConsensusLine> =
        (0..5).map(|i| ConsensusLine::Identical(format!("l{}", i))).collect();
    let mut v = ConsensusView::new();
    v.update_consensus(lines, true);
    let rows = v.build_display_rows(2, 2);
    assert_eq!(rows.len(), 2);
    assert_eq!(rows[0].text, "l2");
    assert_eq!(rows[1].text, "l3");
}

#[test]
fn scroll_offset_follows_selection() {
    let lines: Vec<ConsensusLine> =
        (0..10).map(|i| ConsensusLine::Identical(format!("l{}", i))).collect();
    let mut v = ConsensusView::new();
    v.update_consensus(lines, true);
    assert_eq!(v.calculate_scroll_offset(4), 0);
    v.selection.line_index = 7;
    assert_eq!(v.calculate_scroll_offset(4), 4);
}

#[test]
fn format_status_colours_by_meaning() {
    let c = ColorScheme::new(true);
    assert_eq!(format_status(Status::Running, &c), "\x1b[33mrunning\x1b[0m");
    assert_eq!(format_status(Status::Success, &c), "\x1b[32msuccess\x1b[0m");
    assert_eq!(format_status(Status::Failed, &c), "\x1b[31mfailed\x1b[0m");
    assert_eq!(format_status(Status::Pending, &c), "pending");
}

#[test]
fn text_render_header_and_lines() {
    let hosts = vec!["h1".to_string(), "h2".to_string()];
    let statuses = vec![Status::Success, Status::Pending];
    let consensus = vec![
        ConsensusLine::Identical("same".to_string()),
        ConsensusLine::Differs {
            consensus: "a".to_string(),
            variants: vec![
                ("a".to_string(), vec!["h1".to_string()]),
                ("b".to_string(), vec!["h2".to_string()]),
            ],
            missing: Vec::new(),
            expanded: false,
            expanded_hosts: Vec::new(),
        },
    ];
    let colors = ColorScheme::new(false);
    let lines = render_text_lines(&hosts, &statuses, &consensus, &colors);
    assert_eq!(lines[0], "=== Consensus View (2 hosts) ===");
    assert_eq!(lines[1], "h1:success  h2:pending");
    assert_eq!(lines[2], "");
    assert_eq!(lines[3], "same");
    assert_eq!(lines[4], "[2] a");
    assert_eq!(lines[5], "    h1 \u{2502} a");
    assert_eq!(lines[6], "    h2 \u{2502} b");
    assert_eq!(lines.len(), 7);
}

#[test]
fn text_render_no_hosts() {
    let hosts: Vec<String> = Vec::new();
    let statuses: Vec<Status> = Vec::new();
    let consensus: Vec<ConsensusLine> = Vec::new();
    let colors = ColorScheme::new(false);
    let lines = render_text_lines(&hosts, &statuses, &consensus, &colors);
    assert_eq!(lines, vec!["No hosts found."]);
}
