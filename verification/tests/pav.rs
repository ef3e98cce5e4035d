use pantools::error::CmdError;
use pantools::gfa::{Range, Walk};
use pantools::pav::{parse_node_id, pav_matrix};

fn walk(sample: &str, end: usize, unit: &[u8]) -> Walk {
    Walk {
        sample: sample.to_string(),
        haptype: "0".to_string(),
        chroms: "chr1".to_string(),
        ranges: Range { start: 0, end },
        unit: unit.to_vec(),
    }
}

#[test]
fn test_pav() {
    let walks = vec![
        walk("sample1", 18, b">11<12>13"),
        walk("sample2", 11, b">11<12"),
        walk("sample3", 12, b">11<13"),
        walk("sample4", 10, b">11<11"),
        walk("sample5", 11, b">12>11"),
    ];
    let nodes = vec![11, 12, 13];
    let m = pav_matrix(&walks, &nodes);

    assert_eq!(
        m.samples,
        vec!["sample1", "sample2", "sample3", "sample4", "sample5"]
    );
    assert_eq!(m.node_ids, vec![11, 12, 13]);
    assert_eq!(m.counts.len(), 3);
    assert_eq!(m.counts[0], vec![1, 1, 1, 2, 1]);
    assert_eq!(m.counts[1], vec![1, 1, 0, 0, 1]);
    assert_eq!(m.counts[2], vec![1, 0, 1, 0, 0]);
}

#[test]
fn test_pav_accumulates_over_multiple_walks() {
    let walks = vec![
        walk("ewe", 5, b">11"),
        walk("ram", 5, b">11<11"),
        walk("ewe", 5, b">11>12"),
    ];
    let nodes = vec![12, 11];
    let m = pav_matrix(&walks, &nodes);

    assert_eq!(m.samples, vec!["ewe", "ram"]);
    assert_eq!(m.node_ids, vec![11, 12]);
    assert_eq!(m.counts[0], vec![2, 2]);
    assert_eq!(m.counts[1], vec![1, 0]);
}

#[test]
fn test_pav_requested_ids_deduplicated() {
    let walks = vec![walk("one", 5, b">4>4>9")];
    let nodes = vec![9, 4, 9, 4];
    let m = pav_matrix(&walks, &nodes);

    assert_eq!(m.node_ids, vec![4, 9]);
    assert_eq!(m.counts[0], vec![2]);
    assert_eq!(m.counts[1], vec![1]);
}

#[test]
fn test_node_extraction_tolerates_trailing_run() {
    // A trailing digit run without a closing marker still yields its number.
    let w = walk("s", 5, b">11<222");
    let mut it = w.extract_node();
    let mut seen: Vec<usize> = Vec::new();
    while let Some(n) = it.next() {
        seen.push(n);
    }
    assert_eq!(seen, vec![11, 222]);
}

#[test]
fn test_parse_node_id_trims_whitespace() {
    assert_eq!(parse_node_id(b"  42\r"), Ok(42));
    assert!(matches!(parse_node_id(b""), Err(CmdError::ParseError)));
    assert!(matches!(parse_node_id(b"4x2"), Err(CmdError::ParseError)));
}
