use bdsh::consensus::ConsensusLine;
use bdsh::watch::{detect_input_prompt, HostEntry, StatusBar, StatusCell, WatchApp};
use bdsh::Status;

fn entry(name: &str, status: Option<&str>, raw: &str) -> HostEntry {
    HostEntry {
        name: name.to_string(),
        status_file: status.map(|s| s.to_string()),
        raw_output: raw.to_string(),
    }
}

#[test]
fn test_detect_input_prompt_password() {
    assert!(detect_input_prompt("Connecting...\nPassword:"));
    assert!(detect_input_prompt("Enter your password:"));
    assert!(detect_input_prompt("SSH passphrase for key:"));
}

#[test]
fn test_detect_input_prompt_confirmation() {
    assert!(detect_input_prompt("Proceed with installation? [y/n]"));
    assert!(detect_input_prompt("Continue? [Y/n]"));
    assert!(detect_input_prompt("Are you sure (yes/no)?"));
    assert!(detect_input_prompt("Do you want to continue?"));
}

#[test]
fn test_detect_input_prompt_negative() {
    // Regular output shouldn't trigger
    assert!(!detect_input_prompt("Installing packages..."));
    assert!(!detect_input_prompt("Downloading file 1 of 10"));
    assert!(!detect_input_prompt("Build completed successfully"));
}

#[test]
fn detect_input_prompt_is_case_insensitive() {
    // Only the lowercased tail can match the lowercase pattern here.
    assert!(detect_input_prompt("PASSWORD:"));
    assert!(detect_input_prompt("CONFIRM the change"));
}

#[test]
fn refresh_identical_outputs() {
    let mut app = WatchApp::new(false);
    app.refresh(vec![
        entry("h1", Some("success"), "same\n"),
        entry("h2", None, "same\n"),
        entry("h3", Some("running"), "same\n"),
    ]);
    assert_eq!(app.hosts, vec!["h1", "h2", "h3"]);
    assert_eq!(app.consensus_view.consensus.len(), 1);
    assert!(matches!(&app.consensus_view.consensus[0],
        ConsensusLine::Identical(s) if s == "same"));
    let bar = StatusBar::new(&app);
    assert_eq!(bar.host_count, 3);
    assert_eq!(bar.title(), "Consensus View (3 hosts) [TAIL]");
}

#[test]
fn refresh_differing_outputs() {
    let mut app = WatchApp::new(false);
    app.refresh(vec![entry("h1", None, "a\n"), entry("h2", None, "b\n")]);
    assert_eq!(app.consensus_view.consensus.len(), 1);
    match &app.consensus_view.consensus[0] {
        ConsensusLine::Differs { variants, missing, .. } => {
            assert_eq!(variants.len(), 2);
            assert_eq!(variants[0], ("a".to_string(), vec!["h1".to_string()]));
            assert_eq!(variants[1], ("b".to_string(), vec!["h2".to_string()]));
            assert!(missing.is_empty());
        },
        _ => panic!("expected a differing line"),
    }
}

#[test]
fn refresh_empty_outputs_give_empty_consensus() {
    let mut app = WatchApp::new(false);
    app.refresh(vec![entry("h1", None, ""), entry("h2", None, "")]);
    assert_eq!(app.hosts.len(), 2);
    assert!(app.consensus_view.consensus.is_empty());
    let rows = app.consensus_view.build_display_rows(0, 5);
    assert_eq!(rows.len(), 1);
    assert_eq!(rows[0].text, "(no output yet)");
}

#[test]
fn refresh_defaults_to_pending_without_status_file() {
    let mut app = WatchApp::new(false);
    app.refresh(vec![entry("h1", None, "")]);
    assert_eq!(app.statuses, vec![Status::Pending]);
}

#[test]
fn refresh_parses_status_markers() {
    let mut app = WatchApp::new(false);
    app.refresh(vec![
        entry("h1", Some("running\n"), ""),
        entry("h2", Some("failed\n"), ""),
        entry("h3", Some("nonsense"), ""),
    ]);
    assert_eq!(app.statuses, vec![Status::Running, Status::Failed, Status::Pending]);
}

#[test]
fn refresh_skips_hidden_entries_and_socket() {
    let mut app = WatchApp::new(false);
    app.refresh(vec![
        entry("h2", None, "x\n"),
        entry(".keep", None, ""),
        entry("tmux.sock", None, ""),
        entry("h1", None, "x\n"),
    ]);
    assert_eq!(app.hosts, vec!["h1", "h2"]);
}

#[test]
fn refresh_sorts_hosts_lexicographically() {
    let mut app = WatchApp::new(false);
    app.refresh(vec![
        entry("web2", None, ""),
        entry("db1", None, ""),
        entry("web1", None, ""),
    ]);
    assert_eq!(app.hosts, vec!["db1", "web1", "web2"]);
}

#[test]
fn refresh_preserves_expansion_by_index() {
    let mut app = WatchApp::new(false);
    app.refresh(vec![entry("h1", None, "a\n"), entry("h2", None, "b\n")]);
    app.expand_selected();
    assert!(matches!(&app.consensus_view.consensus[0],
        ConsensusLine::Differs { expanded: true, .. }));
    // New output at the same position keeps the line expanded.
    app.refresh(vec![entry("h1", None, "a2\n"), entry("h2", None, "b\n")]);
    assert!(matches!(&app.consensus_view.consensus[0],
        ConsensusLine::Differs { expanded: true, .. }));
}

#[test]
fn refresh_without_changes_leaves_view_alone() {
    let mut app = WatchApp::new(false);
    app.refresh(vec![entry("h1", None, "a\n"), entry("h2", None, "b\n")]);
    app.expand_selected();
    app.scroll_down();
    let sel_before = app.consensus_view.selection;
    app.refresh(vec![entry("h1", None, "a\n"), entry("h2", None, "b\n")]);
    assert_eq!(app.consensus_view.selection, sel_before);
}

#[test]
fn refresh_with_no_hosts_clears_everything() {
    let mut app = WatchApp::new(false);
    app.refresh(vec![entry("h1", None, "a\n")]);
    app.refresh(Vec::new());
    assert!(app.hosts.is_empty());
    assert!(app.consensus_view.consensus.is_empty());
    let rows = app.consensus_view.build_display_rows(0, 5);
    assert_eq!(rows[0].text, "No host directories found...");
}

#[test]
fn waiting_detection_only_for_running_hosts() {
    let mut app = WatchApp::new(false);
    app.refresh(vec![
        entry("h1", Some("running"), "Password:"),
        entry("h2", Some("success"), "Password:"),
    ]);
    assert_eq!(app.waiting_for_input, vec![true, false]);
    let bar = StatusBar::new(&app);
    assert_eq!(bar.cells[0].0, "h1");
    assert!(matches!(bar.cells[0].1, StatusCell::Waiting { window_num: 1, .. }));
    assert!(matches!(bar.cells[1].1, StatusCell::Glyph { symbol: '\u{2713}', .. }));
}

#[test]
fn toggles_and_spinner() {
    let mut app = WatchApp::new(false);
    assert!(app.tail_mode);
    app.toggle_tail();
    assert!(!app.tail_mode);
    app.toggle_keep();
    assert!(app.keep_output);
    let first = app.spinner_char();
    app.spinner_tick();
    assert_ne!(app.spinner_char(), first);
    let bar = StatusBar::new(&app);
    assert_eq!(bar.title(), "Consensus View (0 hosts) [KEEP]");
}
