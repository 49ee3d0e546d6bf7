use kira_cdh_compat_clstr::{member_id, parse_clusters_from_lines, ClstrReader};

fn lines_of(text: &str) -> Vec<String> {
    text.lines().map(|l| l.to_string()).collect()
}

fn parse_text(text: &[u8]) -> Vec<Vec<String>> {
    parse_clusters_from_lines(&lines_of(std::str::from_utf8(text).unwrap()))
}

#[test]
fn parse_simple() {
    let s = b">Cluster 0
0\t150nt, >seqA... *
1\t140nt, >seqB...
>Cluster 1
0\t>seqC... *
";
    let cls = parse_text(&s[..]);
    assert_eq!(cls.len(), 2);
    assert_eq!(cls[0], vec!["seqA".to_string(), "seqB".to_string()]);
    assert_eq!(cls[1], vec!["seqC".to_string()]);
}

#[test]
fn parse_empty_input_gives_no_cluster() {
    assert!(parse_text(b"").is_empty());
    assert!(parse_clusters_from_lines(&Vec::new()).is_empty());
}

#[test]
fn header_without_members_adds_no_cluster() {
    let cls = parse_text(b">Cluster 0\n>Cluster 1\n0\t>a... *\n>Cluster 2\n");
    assert_eq!(cls, vec![vec!["a".to_string()]]);
}

#[test]
fn blank_lines_and_lines_without_marker_are_skipped() {
    let cls = parse_text(b">Cluster 0\n\n0\t>a... *\nno marker here\n\n1\t>b...\n");
    assert_eq!(cls, vec![vec!["a".to_string(), "b".to_string()]]);
}

#[test]
fn members_before_any_header_form_a_cluster() {
    let cls = parse_text(b"0\t>a... *\n>Cluster 0\n0\t>b... *\n");
    assert_eq!(cls, vec![vec!["a".to_string()], vec!["b".to_string()]]);
}

#[test]
fn member_id_trims_whitespace_and_commas() {
    assert_eq!(member_id("0\t150nt, >seqA... *"), Some("seqA".to_string()));
    assert_eq!(member_id("0\t>  seqB ,,... at 90%"), Some("seqB ".to_string()));
    assert_eq!(member_id("1\t> x y \u{3000}"), Some("x y".to_string()));
    assert_eq!(member_id("1\t>a>b..."), Some("a>b".to_string()));
    assert_eq!(member_id("1\t>.."), Some("..".to_string()));
    assert_eq!(member_id("1\t>"), Some(String::new()));
    assert_eq!(member_id("no marker"), None);
}

#[test]
fn member_id_stops_at_first_dots() {
    assert_eq!(member_id("0\t>a...b... *"), Some("a".to_string()));
    assert_eq!(member_id("0\t>a.b..."), Some("a.b".to_string()));
}

#[test]
fn reader_fed_line_by_line() {
    let mut r = ClstrReader::new();
    r.feed_line(">Cluster 7");
    r.feed_line("0\t300aa, >p1... *");
    r.feed_line(">Clusterless");
    r.feed_line("0\t>p2... *");
    let cls = r.finish();
    assert_eq!(cls, vec![vec!["p1".to_string()], vec!["p2".to_string()]]);
}

#[test]
fn cluster_tag_needs_full_word() {
    let cls = parse_text(b">Clust 0\n0\t>a... *\n");
    assert_eq!(cls, vec![vec!["Clust 0".to_string(), "a".to_string()]]);
}
