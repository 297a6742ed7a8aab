use bdsh::consensus::{compute_consensus, ConsensusLine};

fn has_variant(variants: &Vec<(String, Vec<String>)>, content: &str) -> bool {
    variants.iter().any(|(c, _)| c == content)
}

#[test]
fn watch_test_compute_consensus_identical() {
    let hosts = vec!["host1".to_string(), "host2".to_string()];
    let outputs = vec![
        "line1\nline2\nline3".to_string(),
        "line1\nline2\nline3".to_string(),
    ];

    let consensus = compute_consensus(&hosts, &outputs);

    assert_eq!(consensus.len(), 3);
    assert!(matches!(&consensus[0], ConsensusLine::Identical(s) if s == "line1"));
    assert!(matches!(&consensus[1], ConsensusLine::Identical(s) if s == "line2"));
    assert!(matches!(&consensus[2], ConsensusLine::Identical(s) if s == "line3"));
}

#[test]
fn watch_test_compute_consensus_differs() {
    let hosts = vec![
        "host1".to_string(),
        "host2".to_string(),
        "host3".to_string(),
    ];
    let outputs = vec![
        "line1\nline2\nline3".to_string(),
        "line1\nDIFFERENT\nline3".to_string(),
        "line1\nline2\nline3".to_string(),
    ];

    let consensus = compute_consensus(&hosts, &outputs);

    // Simple line-by-line comparison: 3 lines
    // line1 (identical), line2 vs DIFFERENT (differs), line3 (identical)
    assert_eq!(consensus.len(), 3);
    assert!(matches!(&consensus[0], ConsensusLine::Identical(s) if s == "line1"));
    // line2 has "line2" (host1, host3) and "DIFFERENT" (host2)
    assert!(matches!(&consensus[1], ConsensusLine::Differs { variants, consensus, .. }
        if has_variant(variants, "line2") && has_variant(variants, "DIFFERENT") && consensus == "line2"));
    assert!(matches!(&consensus[2], ConsensusLine::Identical(s) if s == "line3"));
}

#[test]
fn watch_test_compute_consensus_single_host() {
    let hosts = vec!["host1".to_string()];
    let outputs = vec!["line1\nline2".to_string()];

    let consensus = compute_consensus(&hosts, &outputs);

    assert_eq!(consensus.len(), 2);
    assert!(matches!(&consensus[0], ConsensusLine::Identical(s) if s == "line1"));
    assert!(matches!(&consensus[1], ConsensusLine::Identical(s) if s == "line2"));
}

#[test]
fn watch_test_compute_consensus_empty() {
    let hosts: Vec<String> = vec![];
    let outputs: Vec<String> = vec![];

    let consensus = compute_consensus(&hosts, &outputs);
    assert!(consensus.is_empty());
}

#[test]
fn mod_test_compute_consensus_identical() {
    let hosts = vec!["host1".to_string(), "host2".to_string()];
    let outputs = vec![
        "line1\nline2\nline3".to_string(),
        "line1\nline2\nline3".to_string(),
    ];

    let consensus = compute_consensus(&hosts, &outputs);

    assert_eq!(consensus.len(), 3);
    assert!(matches!(&consensus[0], ConsensusLine::Identical(s) if s == "line1"));
    assert!(matches!(&consensus[1], ConsensusLine::Identical(s) if s == "line2"));
    assert!(matches!(&consensus[2], ConsensusLine::Identical(s) if s == "line3"));
}

#[test]
fn mod_test_compute_consensus_differs() {
    let hosts = vec![
        "host1".to_string(),
        "host2".to_string(),
        "host3".to_string(),
    ];
    let outputs = vec![
        "line1\nline2\nline3".to_string(),
        "line1\nDIFFERENT\nline3".to_string(),
        "line1\nline2\nline3".to_string(),
    ];

    let consensus = compute_consensus(&hosts, &outputs);

    assert_eq!(consensus.len(), 3);
    assert!(matches!(&consensus[0], ConsensusLine::Identical(s) if s == "line1"));
    assert!(matches!(&consensus[1], ConsensusLine::Differs { variants, consensus, .. }
        if has_variant(variants, "line2") && has_variant(variants, "DIFFERENT") && consensus == "line2"));
    assert!(matches!(&consensus[2], ConsensusLine::Identical(s) if s == "line3"));
}

#[test]
fn mod_test_compute_consensus_single_host() {
    let hosts = vec!["host1".to_string()];
    let outputs = vec!["line1\nline2".to_string()];

    let consensus = compute_consensus(&hosts, &outputs);

    assert_eq!(consensus.len(), 2);
    assert!(matches!(&consensus[0], ConsensusLine::Identical(s) if s == "line1"));
    assert!(matches!(&consensus[1], ConsensusLine::Identical(s) if s == "line2"));
}

#[test]
fn mod_test_compute_consensus_empty() {
    let hosts: Vec<String> = vec![];
    let outputs: Vec<String> = vec![];

    let consensus = compute_consensus(&hosts, &outputs);
    assert!(consensus.is_empty());
}

#[test]
fn consensus_tie_break_prefers_largest_group_in_order() {
    let hosts = vec!["h1".to_string(), "h2".to_string(), "h3".to_string()];
    let outputs = vec!["A".to_string(), "A".to_string(), "B".to_string()];

    let consensus = compute_consensus(&hosts, &outputs);
    assert_eq!(consensus.len(), 1);
    match &consensus[0] {
        ConsensusLine::Differs { consensus, variants, missing, .. } => {
            assert_eq!(consensus, "A");
            assert_eq!(variants.len(), 2);
            assert_eq!(variants[0].0, "A");
            assert_eq!(variants[0].1, vec!["h1".to_string(), "h2".to_string()]);
            assert_eq!(variants[1].0, "B");
            assert_eq!(variants[1].1, vec!["h3".to_string()]);
            assert!(missing.is_empty());
        },
        _ => panic!("expected a differing line"),
    }
}

#[test]
fn equal_sized_groups_keep_discovery_order() {
    let hosts = vec!["h1".to_string(), "h2".to_string()];
    let outputs = vec!["B".to_string(), "A".to_string()];

    let consensus = compute_consensus(&hosts, &outputs);
    match &consensus[0] {
        ConsensusLine::Differs { consensus, variants, .. } => {
            // Stable tie-break: the first-seen content stays first and is
            // the consensus.
            assert_eq!(variants[0].0, "B");
            assert_eq!(variants[1].0, "A");
            assert_eq!(consensus, "B");
        },
        _ => panic!("expected a differing line"),
    }
}

#[test]
fn short_host_listed_missing_beyond_its_length() {
    let hosts = vec!["h1".to_string(), "h2".to_string()];
    let outputs = vec!["x\ny\nz".to_string(), "x".to_string()];

    let consensus = compute_consensus(&hosts, &outputs);
    assert_eq!(consensus.len(), 3);
    assert!(matches!(&consensus[0], ConsensusLine::Identical(s) if s == "x"));
    for line in &consensus[1..] {
        match line {
            ConsensusLine::Differs { missing, .. } => {
                assert_eq!(missing, &vec!["h2".to_string()]);
            },
            _ => panic!("expected a differing line with a missing host"),
        }
    }
}
