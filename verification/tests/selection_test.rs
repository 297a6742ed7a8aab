use bdsh::consensus::ConsensusLine;
use bdsh::selection::{ConsensusView, Selection};

fn differs(contents: &[&str], expanded: bool) -> ConsensusLine {
    let variants: Vec<(String, Vec<String>)> = contents
        .iter()
        .enumerate()
        .map(|(i, c)| (c.to_string(), vec![format!("h{}", i + 1)]))
        .collect();
    ConsensusLine::Differs {
        consensus: contents[0].to_string(),
        variants,
        missing: Vec::new(),
        expanded,
        expanded_hosts: Vec::new(),
    }
}

fn view_of(lines: Vec<ConsensusLine>) -> ConsensusView {
    let mut v = ConsensusView::new();
    v.update_consensus(lines, true);
    v
}

#[test]
fn scroll_down_and_up_walk_the_virtual_rows() {
    // One expanded line with two variants and no missing hosts, then one
    // more line: down visits main, variant 0, variant 1, next line.
    let mut v = view_of(vec![differs(&["a", "b"], true), ConsensusLine::Identical("x".into())]);
    assert_eq!(v.selection, Selection { line_index: 0, variant_index: None });
    v.scroll_down();
    assert_eq!(v.selection, Selection { line_index: 0, variant_index: Some(0) });
    v.scroll_down();
    assert_eq!(v.selection, Selection { line_index: 0, variant_index: Some(1) });
    v.scroll_down();
    assert_eq!(v.selection, Selection { line_index: 1, variant_index: None });
    v.scroll_down();
    assert_eq!(v.selection, Selection { line_index: 1, variant_index: None });

    v.scroll_up();
    assert_eq!(v.selection, Selection { line_index: 0, variant_index: Some(1) });
    v.scroll_up();
    assert_eq!(v.selection, Selection { line_index: 0, variant_index: Some(0) });
    v.scroll_up();
    assert_eq!(v.selection, Selection { line_index: 0, variant_index: None });
    v.scroll_up();
    assert_eq!(v.selection, Selection { line_index: 0, variant_index: None });
}

#[test]
fn jump_to_next_diff_wraps_around() {
    // Differs lines only at indices 1 and 4; starting at 4, the jump wraps
    // to 1.
    let mut v = view_of(vec![
        ConsensusLine::Identical("0".into()),
        differs(&["a", "b"], false),
        ConsensusLine::Identical("2".into()),
        ConsensusLine::Identical("3".into()),
        differs(&["c", "d"], false),
    ]);
    v.selection.line_index = 4;
    v.jump_to_next_diff();
    assert_eq!(v.selection.line_index, 1);
}

#[test]
fn jump_to_next_diff_finds_forward_first() {
    let mut v = view_of(vec![
        differs(&["a", "b"], false),
        ConsensusLine::Identical("1".into()),
        differs(&["c", "d"], false),
    ]);
    v.jump_to_next_diff();
    assert_eq!(v.selection.line_index, 2);
}

#[test]
fn jump_to_next_diff_no_diffs_is_noop() {
    let mut v = view_of(vec![
        ConsensusLine::Identical("0".into()),
        ConsensusLine::Identical("1".into()),
    ]);
    v.selection.line_index = 1;
    v.jump_to_next_diff();
    assert_eq!(v.selection.line_index, 1);
}

#[test]
fn expand_then_collapse_selected_line() {
    let mut v = view_of(vec![differs(&["a", "b"], false)]);
    v.expand_selected();
    assert!(matches!(&v.consensus[0], ConsensusLine::Differs { expanded: true, .. }));
    v.collapse_selected();
    assert!(matches!(&v.consensus[0], ConsensusLine::Differs { expanded: false, .. }));
}

#[test]
fn expand_selected_variant_host_list() {
    let line = ConsensusLine::Differs {
        consensus: "a".to_string(),
        variants: vec![("a".to_string(), vec!["h1".to_string(), "h2".to_string()])],
        missing: Vec::new(),
        expanded: true,
        expanded_hosts: Vec::new(),
    };
    let mut v = view_of(vec![line]);
    v.scroll_down(); // enter variant 0
    v.expand_selected();
    match &v.consensus[0] {
        ConsensusLine::Differs { expanded_hosts, .. } => {
            assert_eq!(expanded_hosts, &vec!["a".to_string()]);
        },
        _ => panic!("expected a differing line"),
    }
    // Collapsing folds the host list first and keeps the cursor.
    v.collapse_selected();
    match &v.consensus[0] {
        ConsensusLine::Differs { expanded_hosts, .. } => assert!(expanded_hosts.is_empty()),
        _ => panic!("expected a differing line"),
    }
    assert_eq!(v.selection.variant_index, Some(0));
    // A second collapse retreats to the main line.
    v.collapse_selected();
    assert_eq!(v.selection.variant_index, None);
}

#[test]
fn single_host_group_does_not_expand() {
    let mut v = view_of(vec![differs(&["a", "b"], true)]);
    v.scroll_down();
    v.expand_selected();
    match &v.consensus[0] {
        ConsensusLine::Differs { expanded_hosts, .. } => assert!(expanded_hosts.is_empty()),
        _ => panic!("expected a differing line"),
    }
}

#[test]
fn expand_all_and_collapse_all() {
    let mut v = view_of(vec![
        differs(&["a", "b"], false),
        ConsensusLine::Identical("x".into()),
        differs(&["c", "d"], false),
    ]);
    v.expand_all();
    assert!(matches!(&v.consensus[0], ConsensusLine::Differs { expanded: true, .. }));
    assert!(matches!(&v.consensus[2], ConsensusLine::Differs { expanded: true, .. }));
    v.collapse_all();
    assert!(matches!(&v.consensus[0], ConsensusLine::Differs { expanded: false, .. }));
    assert!(matches!(&v.consensus[2], ConsensusLine::Differs { expanded: false, .. }));
}

#[test]
fn scroll_to_end_lands_on_last_virtual_row() {
    let mut v = view_of(vec![ConsensusLine::Identical("x".into()), differs(&["a", "b"], true)]);
    v.scroll_to_end();
    assert_eq!(v.selection, Selection { line_index: 1, variant_index: Some(1) });
}

#[test]
fn update_consensus_clamps_the_cursor() {
    let mut v = view_of(vec![
        ConsensusLine::Identical("0".into()),
        ConsensusLine::Identical("1".into()),
        ConsensusLine::Identical("2".into()),
    ]);
    v.selection.line_index = 2;
    v.update_consensus(vec![ConsensusLine::Identical("only".into())], true);
    assert_eq!(v.selection.line_index, 0);
    v.update_consensus(Vec::new(), false);
    assert_eq!(v.selection.line_index, 0);
}

#[test]
fn selection_main_line_query() {
    let sel = Selection { line_index: 3, variant_index: None };
    assert!(sel.is_on_main_line());
    let sel2 = Selection { line_index: 3, variant_index: Some(0) };
    assert!(!sel2.is_on_main_line());
}
