use kira_cdh_compat_clstr::{parse_clusters_from_lines, ClstrUnit, ClstrWriter};

fn file_text(lines: &[String]) -> String {
    let mut t = String::new();
    for l in lines {
        t.push_str(l);
        t.push('\n');
    }
    t
}

fn read_back(lines: &[String]) -> Vec<Vec<String>> {
    let text = file_text(lines);
    let ls: Vec<String> = text.lines().map(|l| l.to_string()).collect();
    parse_clusters_from_lines(&ls)
}

#[test]
fn roundtrip_basic() {
    let headers = vec!["x".to_string(), "y".to_string(), "z".to_string()];
    let lengths = vec![100u32, 90, 80];
    let clusters = vec![vec![0, 1], vec![2]];

    let mut w = ClstrWriter::new();
    w.write_cluster(0, &clusters[0], &headers, Some(&lengths), ClstrUnit::Nt);
    w.write_cluster(1, &clusters[1], &headers, None, ClstrUnit::NoLength);
    let lines = w.finish();

    let parsed = read_back(&lines);
    assert_eq!(parsed.len(), 2);
    assert_eq!(parsed[0], vec!["x".to_string(), "y".to_string()]);
    assert_eq!(parsed[1], vec!["z".to_string()]);
}

#[test]
fn writer_line_format() {
    let headers = vec!["seqA".to_string(), "seqB".to_string(), "seqC".to_string()];
    let lengths = vec![150u32, 140];
    let mut w = ClstrWriter::new();
    w.write_cluster(0, &[0, 1], &headers, Some(&lengths), ClstrUnit::Nt);
    w.write_cluster(12, &[2], &headers, Some(&lengths), ClstrUnit::Aa);
    w.write_cluster(3, &[1, 0], &headers, Some(&lengths), ClstrUnit::Aa);
    w.write_cluster(3, &[0], &headers, Some(&lengths), ClstrUnit::NoLength);
    let lines = w.finish();
    assert_eq!(
        lines,
        vec![
            ">Cluster 0",
            "0\t150nt, >seqA... *",
            "1\t140nt, >seqB...",
            ">Cluster 12",
            "0\t>seqC... *",
            ">Cluster 3",
            "0\t140aa, >seqB... *",
            "1\t150aa, >seqA...",
            ">Cluster 3",
            "0\t>seqA... *",
        ]
    );
}

#[test]
fn writer_positions_count_within_cluster() {
    let headers: Vec<String> = (0..12).map(|i| format!("s{i}")).collect();
    let members: Vec<usize> = (0..12).collect();
    let lengths: Vec<u32> = vec![4294967295; 12];
    let mut w = ClstrWriter::new();
    w.write_cluster(1234567890, &members, &headers, Some(&lengths), ClstrUnit::Nt);
    let lines = w.finish();
    assert_eq!(lines[0], ">Cluster 1234567890");
    assert_eq!(lines[1], "0\t4294967295nt, >s0... *");
    assert_eq!(lines[11], "10\t4294967295nt, >s10...");
    assert_eq!(lines[12], "11\t4294967295nt, >s11...");
}

#[test]
fn writer_empty_cluster_is_header_only() {
    let headers = vec!["a".to_string()];
    let mut w = ClstrWriter::new();
    w.write_cluster(5, &[], &headers, None, ClstrUnit::Nt);
    assert_eq!(w.finish(), vec![">Cluster 5".to_string()]);
}

#[test]
fn unit_suffixes() {
    assert_eq!(ClstrUnit::Nt.suffix(), Some("nt"));
    assert_eq!(ClstrUnit::Aa.suffix(), Some("aa"));
    assert_eq!(ClstrUnit::NoLength.suffix(), None);
}

#[test]
fn roundtrip_any_unit_and_order() {
    let headers = vec!["alpha".to_string(), "beta|1".to_string(), "g a".to_string(), "d".to_string()];
    let lengths = vec![1u32, 22, 333];
    let clusters = vec![vec![2, 0], vec![3], vec![1]];
    for unit in [ClstrUnit::Nt, ClstrUnit::Aa, ClstrUnit::NoLength] {
        let mut w = ClstrWriter::new();
        for (i, c) in clusters.iter().enumerate() {
            w.write_cluster(i, c, &headers, Some(&lengths), unit);
        }
        let parsed = read_back(&w.finish());
        assert_eq!(
            parsed,
            vec![
                vec!["g a".to_string(), "alpha".to_string()],
                vec!["d".to_string()],
                vec!["beta|1".to_string()],
            ]
        );
    }
}

#[test]
fn writer_largest_cluster_id() {
    let headers = vec!["q".to_string()];
    let mut w = ClstrWriter::new();
    w.write_cluster(usize::MAX, &[0], &headers, Some(&[0u32]), ClstrUnit::Aa);
    let lines = w.finish();
    assert_eq!(lines, vec![format!(">Cluster {}", usize::MAX), "0\t0aa, >q... *".to_string()]);
}
