use kira_cdh_compat_clstr::{diff_partitions, parse_clusters_from_lines, report_split, to_set_of_sets, REPORT_LIMIT};

fn cl(v: &[&[&str]]) -> Vec<Vec<String>> {
    v.iter().map(|c| c.iter().map(|s| s.to_string()).collect()).collect()
}

fn parse_text(text: &str) -> Vec<Vec<String>> {
    parse_clusters_from_lines(&text.lines().map(|l| l.to_string()).collect())
}

const EXAMPLE: &str = ">Cluster 0\n0\t150nt, >seqA... *\n1\t140nt, >seqB...\n>Cluster 1\n0\t>seqC... *\n";

#[test]
fn example_parses_and_equals_itself() {
    let a = parse_text(EXAMPLE);
    assert_eq!(a, cl(&[&["seqA", "seqB"], &["seqC"]]));
    let d = diff_partitions(a.clone(), a);
    assert!(d.equal);
    assert_eq!(d.exit_code(), 0);
    assert_eq!(d.only_a.len(), 0);
    assert_eq!(d.only_b.len(), 0);
}

#[test]
fn example_against_regrouped_partition() {
    let a = parse_text(EXAMPLE);
    let b = cl(&[&["seqA"], &["seqB", "seqC"]]);
    let d = diff_partitions(a, b);
    assert!(!d.equal);
    assert_eq!(d.exit_code(), 1);
    assert_eq!(d.only_a.len(), 2);
    assert_eq!(d.only_b.len(), 2);
    assert_eq!(d.only_a.clusters(), &cl(&[&["seqA", "seqB"], &["seqC"]]));
    assert_eq!(d.only_b.clusters(), &cl(&[&["seqA"], &["seqB", "seqC"]]));
}

#[test]
fn diff_is_symmetric() {
    let a = cl(&[&["a", "b"], &["c"], &["d"]]);
    let b = cl(&[&["a"], &["b", "c"], &["d"]]);
    let ab = diff_partitions(a.clone(), b.clone());
    let ba = diff_partitions(b, a);
    assert_eq!(ab.only_a.clusters(), ba.only_b.clusters());
    assert_eq!(ab.only_b.clusters(), ba.only_a.clusters());
    assert_eq!(ab.exit_code(), ba.exit_code());
}

#[test]
fn annotations_do_not_matter() {
    let a = parse_text(">Cluster 0\n0\t150nt, >seqA... *\n1\t140nt, >seqB...\n>Cluster 1\n0\t9aa, >seqC... *\n");
    let b = parse_text(">Cluster 5\n0\t>seqC... *\n>Cluster 2\n0\t>seqB... *\n1\t77aa, >seqA... at 98%\n");
    let d = diff_partitions(a, b);
    assert!(d.equal);
    assert_eq!(d.exit_code(), 0);
}

#[test]
fn zero_clusters_compare_equal() {
    let d = diff_partitions(Vec::new(), parse_text(""));
    assert!(d.equal);
    assert_eq!(d.exit_code(), 0);
}

#[test]
fn empty_against_nonempty() {
    let d = diff_partitions(Vec::new(), cl(&[&["x"]]));
    assert!(!d.equal);
    assert_eq!(d.only_a.len(), 0);
    assert_eq!(d.only_b.clusters(), &cl(&[&["x"]]));
}

#[test]
fn canonical_form_collapses_repeats() {
    let s = to_set_of_sets(cl(&[&["b", "a", "b"], &["c"], &["a", "b"], &["c", "c"]]));
    assert_eq!(s.len(), 2);
    assert_eq!(s.clusters(), &cl(&[&["a", "b"], &["c"]]));
    assert!(s.contains_cluster(&cl(&[&["a", "b"]])[0]));
    assert!(!s.contains_cluster(&cl(&[&["a"]])[0]));
}

#[test]
fn canonical_form_twice_and_shuffled() {
    let p = cl(&[&["x", "y"], &["z"], &["w", "v", "u"]]);
    let once = to_set_of_sets(p.clone());
    let twice = to_set_of_sets(once.clusters().clone());
    assert_eq!(once.clusters(), twice.clusters());
    let q = cl(&[&["u", "w", "v"], &["y", "x"], &["z"]]);
    let d = diff_partitions(p, q);
    assert!(d.equal);
}

#[test]
fn report_split_bounds_listing() {
    assert_eq!(REPORT_LIMIT, 10);
    assert_eq!(report_split(0), (0, 0));
    assert_eq!(report_split(10), (10, 0));
    assert_eq!(report_split(11), (10, 1));
    assert_eq!(report_split(25), (10, 15));
}

#[test]
fn canonical_listing_is_lexicographic() {
    let s = to_set_of_sets(cl(&[&["z"], &["b", "a"], &["a"], &["\u{e9}", "a", "Z"]]));
    assert_eq!(s.clusters(), &cl(&[&["Z", "a", "\u{e9}"], &["a"], &["a", "b"], &["z"]]));
}
