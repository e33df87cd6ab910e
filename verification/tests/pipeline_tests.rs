use fasta_util::filter::FilterState;
use fasta_util::pipeline::{count_lines, process_line, slice_lines, LengthCounter};
use fasta_util::range_spec::parse_range;
use fasta_util::wrap::WrapState;

fn lines_of(strs: &[&str]) -> Vec<Vec<u8>> {
    strs.iter().map(|s| s.as_bytes().to_vec()).collect()
}

fn slice_str(strs: &[&str], range_text: &str, chars_per_line: u64) -> Result<String, u8> {
    let range = parse_range(range_text.as_bytes()).expect("range must parse");
    match slice_lines(&lines_of(strs), range, chars_per_line) {
        Ok(out) => Ok(String::from_utf8(out).expect("output must be text")),
        Err(e) => Err(e.byte),
    }
}

#[test]
fn scenario_inner_range_rewrapped() {
    assert_eq!(slice_str(&["ACGTACGTAC"], "2..6", 2), Ok("GT\nAC\n".to_string()));
}

#[test]
fn scenario_full_range_wide_line() {
    assert_eq!(slice_str(&["ACGT"], "..", 60), Ok("ACGT\n".to_string()));
}

#[test]
fn scenario_invalid_symbol_fails_with_the_byte() {
    let lines = lines_of(&["ACGT", "ACXGT"]);
    let range = parse_range(b"..").unwrap();
    let err = slice_lines(&lines, range, 60).unwrap_err();
    assert_eq!(err.byte, b'X');
    assert_eq!(err.printable(), 'X');
    let err = count_lines(&lines).unwrap_err();
    assert_eq!(err.byte, b'X');
}

#[test]
fn count_headers_only_is_zero() {
    let lines = lines_of(&[">one\n", ">two\n"]);
    assert_eq!(count_lines(&lines), Ok(0));
}

#[test]
fn count_ignores_headers_and_blank_lines() {
    let lines = lines_of(&[">h\n", "ACGT\n", "   \n", "", "AC\n"]);
    assert_eq!(count_lines(&lines), Ok(6));
}

#[test]
fn count_trims_whitespace() {
    let lines = lines_of(&["  ACGT  \n"]);
    assert_eq!(count_lines(&lines), Ok(4));
}

#[test]
fn counter_accumulates_per_line() {
    let mut counter = LengthCounter::new();
    counter.push_line(b">h\n").unwrap();
    assert_eq!(counter.total, 0);
    counter.push_line(b"ACGT\n").unwrap();
    assert_eq!(counter.total, 4);
    counter.push_line(b"GG\n").unwrap();
    assert_eq!(counter.total, 6);
    assert!(counter.push_line(b"AXA\n").is_err());
    assert_eq!(counter.total, 6);
}

#[test]
fn round_trip_full_range_single_line() {
    // extracting 0..N at width N reproduces the residue stream as one line
    let lines = ["ACGTA", "CGTAC"];
    assert_eq!(slice_str(&lines, "0..10", 10), Ok("ACGTACGTAC\n".to_string()));
}

#[test]
fn wrap_already_wrapped_output_is_identity() {
    let once = slice_str(&["ACGTACGTACG"], "..", 4).unwrap();
    assert_eq!(once, "ACGT\nACGT\nACG\n");
    let again_lines: Vec<&str> = once.lines().collect();
    let again = slice_str(&again_lines, "..", 4).unwrap();
    assert_eq!(again, once);
}

#[test]
fn headers_are_copied_verbatim() {
    assert_eq!(
        slice_str(&[">rec one\n", "ACGT\n"], "..", 2),
        Ok(">rec one\nAC\nGT\n".to_string())
    );
}

#[test]
fn start_is_consumed_once_across_chunks() {
    // the start bound falls on a chunk boundary: later chunks are not re-clipped
    assert_eq!(slice_str(&["AC", "GT", "AC"], "2..", 60), Ok("GTAC\n".to_string()));
    // the start bound falls inside a chunk
    assert_eq!(slice_str(&["ACG", "TAC"], "1..", 60), Ok("CGTAC\n".to_string()));
}

#[test]
fn range_exhaustion_stops_midway() {
    let lines = lines_of(&["ACGT", "ACGT", "XXXX"]);
    let range = parse_range(b"..=5").unwrap();
    // the range is exhausted before the invalid line is reached
    let out = slice_lines(&lines, range, 60).unwrap();
    assert_eq!(out, b"ACGTAC\n".to_vec());
}

#[test]
fn width_floor_is_one() {
    assert_eq!(slice_str(&["ACG"], "..", 0), Ok("A\nC\nG\n".to_string()));
}

#[test]
fn process_line_streams_state() {
    let range = parse_range(b"1..=4").unwrap();
    let mut filter = FilterState::new(range);
    let mut wrap = WrapState::new(2);
    let mut out: Vec<u8> = Vec::new();

    let done = process_line(&mut filter, &mut wrap, b">h\n", &mut out).unwrap();
    assert!(!done);
    assert_eq!(out, b">h\n".to_vec());

    out.clear();
    let done = process_line(&mut filter, &mut wrap, b"ACG\n", &mut out).unwrap();
    assert!(!done);
    assert_eq!(out, b"CG\n".to_vec());
    assert_eq!(filter.start, None);
    assert_eq!(filter.consumed, 3);
    assert_eq!(wrap.written, 2);

    out.clear();
    let done = process_line(&mut filter, &mut wrap, b"TAC\n", &mut out).unwrap();
    assert!(done);
    assert_eq!(out, b"TA\n".to_vec());
}
