use pantools::error::CmdError;
use pantools::gfa::{GFAParser, GFAParserBuilder, GfaEntity, GFA};

fn parse_all(data: &[u8]) -> GFA {
    let parser = GFAParser::default();
    let mut gfa = GFA::new();
    for line in data.split(|&b| b == b'\n') {
        if let Some(entity) = parser
            .parse_gfa_line(line)
            .expect("Failed to parse GFA line")
        {
            gfa.add_entity(entity);
        }
    }
    gfa
}

#[test]
fn test_parse_p_gfa1() {
    let gfa_data: &[u8] = b"H\tVN:Z:1.0\n\
S\t11\tACCTT\n\
S\t12\tTCAAGG\n\
S\t13\tCTTGATT\n\
L\t11\t+\t12\t-\t0M\n\
L\t12\t-\t13\t+\t0M\n\
L\t11\t+\t13\t+\t0M\n\
P\t14#0#chr1\t11+,12-,13+\t0M,0M";
    let gfa = parse_all(gfa_data);

    assert_eq!(gfa.headers.version, "1.0");
    assert!(gfa
        .segments
        .iter()
        .any(|s| s.id == 11 && s.sequence == b"ACCTT".as_ref()));
    assert!(gfa
        .segments
        .iter()
        .any(|s| s.id == 12 && s.sequence == b"TCAAGG".as_ref()));
    assert!(gfa
        .segments
        .iter()
        .any(|s| s.id == 13 && s.sequence == b"CTTGATT".as_ref()));
    assert!(gfa
        .links
        .iter()
        .any(|l| l.from_segment == 11 && l.to_segment == 12));
    assert!(gfa
        .links
        .iter()
        .any(|l| l.from_segment == 12 && l.to_segment == 13));
    assert!(gfa.paths.iter().any(|p| p.sample == "14"));
}

#[test]
fn test_parse_p_gfa2() {
    let gfa_data: &[u8] = b"H\tVN:Z:1.0\n\
S\t11\tACCTT\n\
S\t12\tTCAAGG\n\
S\t13\tCTTGATT\n\
L\t11\t+\t12\t-\t0M\n\
L\t12\t-\t13\t+\t0M\n\
L\t11\t+\t13\t+\t0M\n\
P\t14#0#chr1:0-18\t11+,12-,13+";
    let gfa = parse_all(gfa_data);

    assert_eq!(gfa.headers.version, "1.0");
    assert!(gfa
        .segments
        .iter()
        .any(|s| s.id == 11 && s.sequence == b"ACCTT".as_ref()));
    assert!(gfa
        .segments
        .iter()
        .any(|s| s.id == 12 && s.sequence == b"TCAAGG".as_ref()));
    assert!(gfa
        .segments
        .iter()
        .any(|s| s.id == 13 && s.sequence == b"CTTGATT".as_ref()));

    assert!(gfa
        .links
        .iter()
        .any(|l| l.from_segment == 11 && l.to_segment == 12));
    assert!(gfa
        .links
        .iter()
        .any(|l| l.from_segment == 12 && l.to_segment == 13));
    assert!(gfa
        .links
        .iter()
        .any(|l| l.from_segment == 11 && l.to_segment == 13));

    assert_eq!(gfa.paths[0].sample, "14");
    assert_eq!(gfa.paths[0].chroms, "chr1");

    assert!(gfa.paths[0].ranges.is_some());
    let ranges = gfa.paths[0].ranges.as_ref().unwrap();
    assert_eq!(ranges.start, 0, "The start of the range should be 0");
    assert_eq!(ranges.end, 18, "The end of the range should be 18");
    let a = gfa.segments.iter().map(|s| s.sequence.len()).sum::<usize>();
    assert_eq!(a, 18, "The length of the sequence should be 18");
}

#[test]
fn test_parse_w_gfa() {
    let gfa_data: &[u8] = b"H\tVN:Z:1.1\n\
S\t11\tACCTT\n\
S\t12\tTCAAGG\n\
S\t13\tCTTGATT\n\
L\t11\t+\t12\t-\t0M\n\
L\t12\t-\t13\t+\t0M\n\
L\t11\t+\t13\t+\t0M\n\
W\tsample\t0\tchr1\t0\t18\t>11<12>13";
    let gfa = parse_all(gfa_data);

    assert_eq!(gfa.headers.version, "1.1");
    assert!(gfa
        .segments
        .iter()
        .any(|s| s.id == 11 && s.sequence == b"ACCTT".as_ref()));
    assert!(gfa
        .segments
        .iter()
        .any(|s| s.id == 12 && s.sequence == b"TCAAGG".as_ref()));
    assert!(gfa
        .segments
        .iter()
        .any(|s| s.id == 13 && s.sequence == b"CTTGATT".as_ref()));

    assert!(gfa
        .links
        .iter()
        .any(|l| l.from_segment == 11 && l.to_segment == 12));
    assert!(gfa
        .links
        .iter()
        .any(|l| l.from_segment == 12 && l.to_segment == 13));
    assert!(gfa
        .links
        .iter()
        .any(|l| l.from_segment == 11 && l.to_segment == 13));

    assert_eq!(gfa.walks[0].sample, "sample");
    assert_eq!(gfa.walks[0].chroms, "chr1");
    assert_eq!(gfa.walks[0].haptype, "0");
    let mut it = gfa.walks[0].extract_node();
    let mut unit: Vec<usize> = Vec::new();
    while let Some(n) = it.next() {
        unit.push(n);
    }
    assert_eq!(unit, vec![11_usize, 12_usize, 13_usize]);

    let ranges = gfa.walks[0].ranges;
    assert_eq!(ranges.start, 0, "The start of the range should be 0");
    assert_eq!(ranges.end, 18, "The end of the range should be 18");
}

#[test]
fn test_unknown_line_type_aborts() {
    let parser = GFAParser::default();
    let r = parser.parse_gfa_line(b"X\tsomething\telse");
    assert!(matches!(r, Err(CmdError::UnknownLineType)));
}

#[test]
fn test_header_without_version_prefix_fails() {
    let parser = GFAParser::default();
    let r = parser.parse_gfa_line(b"H\t1.0");
    assert!(matches!(r, Err(CmdError::EmptyLine)));
    let r = parser.parse_gfa_line(b"H");
    assert!(matches!(r, Err(CmdError::EmptyLine)));
}

#[test]
fn test_header_samples() {
    let parser = GFAParser::default();
    let r = parser.parse_gfa_line(b"H\tVN:Z:1.1\tRS:Z:alpha\tbeta").unwrap();
    match r {
        Some(GfaEntity::Header(h)) => {
            assert_eq!(h.version, "1.1");
            assert_eq!(h.samples, Some(vec!["alpha".to_string(), "beta".to_string()]));
        }
        _ => panic!("expected a header record"),
    }
}

#[test]
fn test_disabled_kinds_are_skipped() {
    let parser = GFAParserBuilder::new().get_walks(true).build();
    let r = parser.parse_gfa_line(b"S\t11\tACCTT").unwrap();
    assert!(r.is_none());
    let r = parser.parse_gfa_line(b"W\ts\t0\tchr1\t0\t5\t>11").unwrap();
    assert!(r.is_some());
}

#[test]
fn test_link_orientation_rejected() {
    let parser = GFAParser::default();
    let r = parser.parse_gfa_line(b"L\t11\t*\t12\t-\t0M");
    assert!(matches!(r, Err(CmdError::ParseError)));
    let r = parser.parse_gfa_line(b"L\t11\t+\t12");
    assert!(matches!(r, Err(CmdError::EmptyLine)));
}

#[test]
fn test_numeric_token_rejects_non_digits() {
    assert_eq!(pantools::gfa::u8_slice_to_usize(b"123"), Ok(123));
    assert_eq!(pantools::gfa::u8_slice_to_usize(b""), Ok(0));
    assert!(matches!(
        pantools::gfa::u8_slice_to_usize(b"12a"),
        Err(CmdError::ParseError)
    ));
    assert!(matches!(
        pantools::gfa::u8_slice_to_usize(b"-5"),
        Err(CmdError::ParseError)
    ));
}

#[test]
fn test_segment_length_index() {
    let gfa = parse_all(b"H\tVN:Z:1.0\nS\t11\tACCTT\nS\t12\tTCAAGG");
    let lens = gfa.get_segment_len();
    assert_eq!(lens.get(&11), Some(&5));
    assert_eq!(lens.get(&12), Some(&6));
    assert_eq!(lens.get(&13), None);
}

#[test]
fn test_walk_line_fields() {
    let gfa = parse_all(b"H\tVN:Z:1.1\nW\tsheep\t2\tchr3\t4\t9\t>7<8");
    assert_eq!(gfa.walks.len(), 1);
    let w = &gfa.walks[0];
    assert_eq!(w.sample, "sheep");
    assert_eq!(w.haptype, "2");
    assert_eq!(w.chroms, "chr3");
    assert_eq!(w.ranges.start, 4);
    assert_eq!(w.ranges.end, 9);
    assert_eq!(w.unit, b">7<8".to_vec());
}

#[test]
fn test_path_without_range() {
    let gfa = parse_all(b"H\tVN:Z:1.0\nP\tcow#3#chr2\t5+,6-");
    assert_eq!(gfa.paths.len(), 1);
    let p = &gfa.paths[0];
    assert_eq!(p.sample, "cow");
    assert_eq!(p.haptype, 3);
    assert_eq!(p.chroms, "chr2");
    assert!(p.ranges.is_none());
    assert_eq!(p.unit, b"5+,6-".to_vec());
}

#[test]
fn test_path_with_malformed_combined_field() {
    let parser = GFAParser::default();
    let r = parser.parse_gfa_line(b"P\tsample#0\t11+");
    assert!(matches!(r, Err(CmdError::ParseError)));
    let r = parser.parse_gfa_line(b"P\tsample#x#chr1\t11+");
    assert!(matches!(r, Err(CmdError::ParseError)));
    let r = parser.parse_gfa_line(b"P\tsample#0#chr1:7\t11+");
    assert!(matches!(r, Err(CmdError::ParseError)));
}
