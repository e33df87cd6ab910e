use fasta_util::range_spec::parse_range;
use fasta_util::region::{count_region, lines, slice_region};

fn region_of(content: &[u8]) -> memmap2::Mmap {
    let mut m = memmap2::MmapOptions::new()
        .len(content.len())
        .map_anon()
        .expect("anonymous map");
    m.copy_from_slice(content);
    m.make_read_only().expect("read-only map")
}

#[test]
fn next_scans_terminator_inclusive_lines() {
    let mut src = lines(region_of(b">h\nACGT\nAC"));
    let first = src.next().expect("header line");
    assert_eq!(first.as_bytes(), b">h\n");
    let second = src.next().expect("residue line");
    assert_eq!(second.as_bytes(), b"ACGT\n");
    let third = src.next().expect("final unterminated line");
    assert_eq!(third.as_bytes(), b"AC");
    assert!(src.next().is_none());
    assert!(src.next().is_none());
}

#[test]
fn line_views_outlive_the_source() {
    let mut src = lines(region_of(b"ACGT\nACGT\n"));
    let first = src.next().unwrap();
    let copy = first.clone();
    drop(src);
    assert_eq!(first.as_bytes(), b"ACGT\n");
    assert_eq!(copy.as_bytes(), b"ACGT\n");
}

#[test]
fn count_region_sums_residue_lines() {
    let src = lines(region_of(b">h\nACGT\n  \nAC\n"));
    assert_eq!(count_region(src), Ok(6));
}

#[test]
fn count_region_fails_on_invalid_byte() {
    let src = lines(region_of(b"ACGT\nAXGT\n"));
    let err = count_region(src).unwrap_err();
    assert_eq!(err.byte, b'X');
}

#[test]
fn slice_region_extracts_and_rewraps() {
    let src = lines(region_of(b">h\nACGTA\nCGTAC\n"));
    let range = parse_range(b"2..6").unwrap();
    let out = slice_region(src, range, 2).unwrap();
    assert_eq!(out, b">h\nGT\nAC\n".to_vec());
}

#[test]
fn slice_region_full_range() {
    let src = lines(region_of(b"ACGT\n"));
    let range = parse_range(b"..").unwrap();
    let out = slice_region(src, range, 60).unwrap();
    assert_eq!(out, b"ACGT\n".to_vec());
}
