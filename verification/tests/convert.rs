use pantools::convert::{convert_lines_1_0, convert_lines_1_1, p2w, w2p};
use pantools::error::CmdError;

fn lines_of(data: &[u8]) -> Vec<Vec<u8>> {
    data.split(|&b| b == b'\n')
        .filter(|l| !l.is_empty())
        .map(|l| l.to_vec())
        .collect()
}

#[test]
fn test_p2w() {
    let input = b"11+,12-,13+";
    let expected = b">11<12>13";
    let result = p2w(input);
    assert_eq!(result, expected);
}

#[test]
fn test_w2p() {
    let input = b">11<12>13";
    let expected = b"11+,12-,13+";
    let result = w2p(input);
    assert_eq!(result, expected);
}

#[test]
fn test_round_trip_from_path_form() {
    let input = b"7+,1024-,3+,3-";
    assert_eq!(w2p(&p2w(input)), input.to_vec());
}

#[test]
fn test_round_trip_from_walk_form() {
    let input = b">7<1024>3<3";
    assert_eq!(p2w(&w2p(input)), input.to_vec());
}

#[test]
fn test_convert_1_1_case1() {
    let gfa_data: &[u8] = b"H\tVN:Z:1.0\n\
S\t11\tACCTT\n\
S\t12\tTCAAGG\n\
S\t13\tCTTGATT\n\
L\t11\t+\t12\t-\t0M\n\
L\t12\t-\t13\t+\t0M\n\
L\t11\t+\t13\t+\t0M\n\
P\tsample#0#chr1:0-18\t11+,12-,13+\n";

    let expected: &[u8] = b"H\tVN:Z:1.1\n\
S\t11\tACCTT\n\
S\t12\tTCAAGG\n\
S\t13\tCTTGATT\n\
L\t11\t+\t12\t-\t0M\n\
L\t12\t-\t13\t+\t0M\n\
L\t11\t+\t13\t+\t0M\n\
W\tsample\t0\tchr1\t0\t18\t>11<12>13\n";

    let result = convert_lines_1_1(&lines_of(gfa_data)).expect("Conversion failed");
    assert_eq!(result, lines_of(expected));
}

#[test]
fn test_convert_1_1_case2() {
    let gfa_data: &[u8] = b"H\tVN:Z:1.0\n\
S\t11\tACCTT\n\
S\t12\tTCAAGG\n\
S\t13\tCTTGATT\n\
L\t11\t+\t12\t-\t0M\n\
L\t12\t-\t13\t+\t0M\n\
L\t11\t+\t13\t+\t0M\n\
P\tsample#0#chr1\t11+,12-,13+\t0M,0M\n";

    // The path line carries no range, so the walk's end coordinate is
    // synthesized from the segment-length index: the lengths of every
    // traversed segment after the first, 6 + 7.
    let expected: &[u8] = b"H\tVN:Z:1.1\n\
S\t11\tACCTT\n\
S\t12\tTCAAGG\n\
S\t13\tCTTGATT\n\
L\t11\t+\t12\t-\t0M\n\
L\t12\t-\t13\t+\t0M\n\
L\t11\t+\t13\t+\t0M\n\
W\tsample\t0\tchr1\t0\t13\t>11<12>13\n";

    let result = convert_lines_1_1(&lines_of(gfa_data)).expect("Conversion failed");
    assert_eq!(result, lines_of(expected));
}

#[test]
fn test_convert_1_0() {
    let gfa_data: &[u8] = b"H\tVN:Z:1.1\n\
S\t11\tACCTT\n\
S\t12\tTCAAGG\n\
S\t13\tCTTGATT\n\
L\t11\t+\t12\t-\t0M\n\
L\t12\t-\t13\t+\t0M\n\
L\t11\t+\t13\t+\t0M\n\
W\tsample\t0\tchr1\t0\t18\t>11<12>13\n";

    let expected: &[u8] = b"H\tVN:Z:1.0\n\
S\t11\tACCTT\n\
S\t12\tTCAAGG\n\
S\t13\tCTTGATT\n\
L\t11\t+\t12\t-\t0M\n\
L\t12\t-\t13\t+\t0M\n\
L\t11\t+\t13\t+\t0M\n\
P\tsample#0#chr1:0-18\t11+,12-,13+\n";

    let result = convert_lines_1_0(&lines_of(gfa_data)).expect("Conversion failed");
    assert_eq!(result, lines_of(expected));
}

#[test]
fn test_coordinate_synthesis_skips_first_segment() {
    let gfa_data: &[u8] = b"S\t11\tACCTT\n\
S\t12\tTCAAGG\n\
S\t13\tCTTGATT\n\
P\tsample#0#chr1\t11+,12-,13+\n";
    let result = convert_lines_1_1(&lines_of(gfa_data)).expect("Conversion failed");
    assert_eq!(result[3], b"W\tsample\t0\tchr1\t0\t13\t>11<12>13".to_vec());
}

#[test]
fn test_synthesis_ignores_unknown_segments() {
    let gfa_data: &[u8] = b"S\t12\tTCAAGG\nP\tsample#0#chr1\t11+,12-,99+\n";
    let result = convert_lines_1_1(&lines_of(gfa_data)).expect("Conversion failed");
    assert_eq!(result[1], b"W\tsample\t0\tchr1\t0\t6\t>11<12>99".to_vec());
}

#[test]
fn test_explicit_zero_end_is_synthesized() {
    let gfa_data: &[u8] = b"S\t11\tACCTT\nS\t12\tTCAAGG\nP\tsample#0#chr1:4-0\t11+,12-\n";
    let result = convert_lines_1_1(&lines_of(gfa_data)).expect("Conversion failed");
    assert_eq!(result[2], b"W\tsample\t0\tchr1\t4\t6\t>11<12".to_vec());
}

#[test]
fn test_convert_1_1_malformed_unit_fails() {
    let gfa_data: &[u8] = b"P\tsample#0#chr1\t11x,12-\n";
    let result = convert_lines_1_1(&lines_of(gfa_data));
    assert!(matches!(result, Err(CmdError::ParseError)));
}

#[test]
fn test_convert_1_0_short_walk_line_fails() {
    let gfa_data: &[u8] = b"W\tsample\t0\tchr1\t0\t18\n";
    let result = convert_lines_1_0(&lines_of(gfa_data));
    assert!(matches!(result, Err(CmdError::ParseError)));
}

#[test]
fn test_convert_1_1_malformed_segment_fails() {
    let gfa_data: &[u8] = b"S\t1x\tACCTT\nP\tsample#0#chr1\t11+\n";
    let result = convert_lines_1_1(&lines_of(gfa_data));
    assert!(matches!(result, Err(CmdError::ParseError)));
}

#[test]
fn test_simplify_line() {
    let r = pantools::simplify::simplify_line(b"P\tsample#0#chr1\t11+,12-\t0M").unwrap();
    assert_eq!(r, Some(b"P\tsample#0#chr1\t*\t0M".to_vec()));
    let r = pantools::simplify::simplify_line(b"W\tsample\t0\tchr1\t0\t18\t>11<12").unwrap();
    assert_eq!(r, Some(b"W\tsample\t0\tchr1\t0\t18\t*".to_vec()));
    let r = pantools::simplify::simplify_line(b"S\t11\tACCTT").unwrap();
    assert_eq!(r, None);
    let r = pantools::simplify::simplify_line(b"W\tsample\t0");
    assert!(matches!(r, Err(CmdError::ParseError)));
}
