use bdsh::hosts::{matches_filter, parse_inline, parse_tag_filter, parse_tagged_lines, TagFilter,
    TaggedHost};

// === Inline parsing tests ===

#[test]
fn parse_inline_single() {
    let hosts = parse_inline("host1");
    assert_eq!(hosts, vec!["host1"]);
}

#[test]
fn parse_inline_multiple() {
    let hosts = parse_inline("host1,host2,host3");
    assert_eq!(hosts, vec!["host1", "host2", "host3"]);
}

#[test]
fn parse_inline_with_spaces() {
    let hosts = parse_inline("host1, host2 , host3");
    assert_eq!(hosts, vec!["host1", "host2", "host3"]);
}

// === Tagged lines parsing tests ===

#[test]
fn parse_tagged_lines_simple() {
    let hosts = parse_tagged_lines("host1 :web\nhost2 :db\n");
    assert_eq!(hosts.len(), 2);
    assert_eq!(hosts[0].hostname, "host1");
    assert!(hosts[0].has_tag("web"));
    assert_eq!(hosts[1].hostname, "host2");
    assert!(hosts[1].has_tag("db"));
}

#[test]
fn parse_tagged_lines_multiple_tags() {
    let hosts = parse_tagged_lines("host1 :web :prod\n");
    assert_eq!(hosts.len(), 1);
    assert!(hosts[0].has_tag("web"));
    assert!(hosts[0].has_tag("prod"));
}

#[test]
fn parse_tagged_lines_no_tags() {
    let hosts = parse_tagged_lines("host1\nhost2\n");
    assert_eq!(hosts.len(), 2);
    assert!(hosts[0].tags.is_empty());
}

#[test]
fn parse_tagged_lines_with_comments() {
    let hosts = parse_tagged_lines("# comment\nhost1 :web\n\n# another\nhost2\n");
    assert_eq!(hosts.len(), 2);
}

#[test]
fn parse_tagged_lines_with_various_comment_styles() {
    let hosts = parse_tagged_lines(
        "# hash comment\nhost1 :web\n// slash comment\nhost2 :db\n; semicolon comment\nhost3 :api\n",
    );
    assert_eq!(hosts.len(), 3);
    assert_eq!(hosts[0].hostname, "host1");
    assert_eq!(hosts[1].hostname, "host2");
    assert_eq!(hosts[2].hostname, "host3");
}

#[test]
fn parse_tagged_lines_with_whitespace_only_lines() {
    let hosts = parse_tagged_lines("host1 :web\n   \n\t\t\nhost2 :db\n  \t  \nhost3 :api\n");
    assert_eq!(hosts.len(), 3);
    assert_eq!(hosts[0].hostname, "host1");
    assert_eq!(hosts[1].hostname, "host2");
    assert_eq!(hosts[2].hostname, "host3");
}

// === Tag filter parsing tests ===

#[test]
fn parse_tag_filter_single() {
    let filter = parse_tag_filter(":web").unwrap();
    assert_eq!(filter, TagFilter::Groups(vec![vec!["web".to_string()]]));
}

#[test]
fn parse_tag_filter_and() {
    let filter = parse_tag_filter(":web:prod").unwrap();
    assert_eq!(
        filter,
        TagFilter::Groups(vec![vec!["web".to_string(), "prod".to_string()]])
    );
}

#[test]
fn parse_tag_filter_or() {
    let filter = parse_tag_filter(":web,:db").unwrap();
    assert_eq!(
        filter,
        TagFilter::Groups(vec![vec!["web".to_string()], vec!["db".to_string()]])
    );
}

#[test]
fn parse_tag_filter_complex() {
    let filter = parse_tag_filter(":web:prod,:db").unwrap();
    assert_eq!(
        filter,
        TagFilter::Groups(vec![
            vec!["web".to_string(), "prod".to_string()],
            vec!["db".to_string()]
        ])
    );
}

#[test]
fn parse_tag_filter_empty_becomes_all() {
    let filter = parse_tag_filter("").unwrap();
    assert_eq!(filter, TagFilter::All);
}

// === Filter matching tests ===

#[test]
fn matches_filter_all() {
    let host = TaggedHost { hostname: "h1".to_string(), tags: Vec::new() };
    assert!(matches_filter(&host, &TagFilter::All));
}

#[test]
fn matches_filter_single_tag() {
    let host = TaggedHost { hostname: "h1".to_string(), tags: vec!["web".to_string()] };
    let filter = TagFilter::Groups(vec![vec!["web".to_string()]]);
    assert!(matches_filter(&host, &filter));
}

#[test]
fn matches_filter_and_logic() {
    let host = TaggedHost {
        hostname: "h1".to_string(),
        tags: vec!["web".to_string(), "prod".to_string()],
    };
    let filter = TagFilter::Groups(vec![vec!["web".to_string(), "prod".to_string()]]);
    assert!(matches_filter(&host, &filter));

    // Missing one tag
    let host2 = TaggedHost { hostname: "h2".to_string(), tags: vec!["web".to_string()] };
    assert!(!matches_filter(&host2, &filter));
}

#[test]
fn matches_filter_or_logic() {
    let host = TaggedHost { hostname: "h1".to_string(), tags: vec!["db".to_string()] };
    let filter = TagFilter::Groups(vec![vec!["web".to_string()], vec!["db".to_string()]]);
    assert!(matches_filter(&host, &filter));
}

#[test]
fn parse_tagged_lines_duplicate_tags_kept_once() {
    let hosts = parse_tagged_lines("host1 :web :web\n");
    assert_eq!(hosts.len(), 1);
    assert_eq!(hosts[0].tags, vec!["web".to_string()]);
}
