use timelapse::conflicts::{
    check_resolution_status, count_conflicts, has_conflict_markers, is_resolved, parse_conflict_regions,
    split_lines, write_conflict_markers, write_smart_conflict_markers, ConflictRegion, ResolutionStatus,
};

fn has(content: &[u8], part: &str) -> bool {
    String::from_utf8_lossy(content).contains(part)
}

#[test]
fn test_write_conflict_markers() {
    let content = write_conflict_markers(
        Some(b"base content"),
        b"local content",
        b"remote content",
        b"LOCAL",
        b"REMOTE",
    );
    assert!(has(&content, "<<<<<<< LOCAL"));
    assert!(has(&content, "local content"));
    assert!(has(&content, "||||||| BASE"));
    assert!(has(&content, "base content"));
    assert!(has(&content, "======="));
    assert!(has(&content, "remote content"));
    assert!(has(&content, ">>>>>>> REMOTE"));
    assert_eq!(
        String::from_utf8(content).unwrap(),
        "<<<<<<< LOCAL\nlocal content\n||||||| BASE\nbase content\n=======\nremote content\n>>>>>>> REMOTE\n"
    );
}

#[test]
fn sides_end_in_one_newline() {
    let content = write_conflict_markers(None, b"a\n", b"", b"L", b"R");
    assert_eq!(String::from_utf8(content).unwrap(), "<<<<<<< L\na\n=======\n>>>>>>> R\n");
    let (content, regions) = write_smart_conflict_markers(Some(b""), b"x", b"y\n\n", b"L", b"R");
    assert_eq!(regions, 1);
    assert_eq!(
        String::from_utf8(content).unwrap(),
        "<<<<<<< L\nx\n||||||| BASE\n=======\ny\n\n>>>>>>> R\n"
    );
}

#[test]
fn test_has_conflict_markers() {
    assert!(!has_conflict_markers(b"normal content"));
    assert!(has_conflict_markers(b"<<<<<<< LOCAL\ncontent\n=======\nother\n>>>>>>> REMOTE"));
    assert!(!has_conflict_markers(b"<<<<<<< LOCAL\ncontent\n"));
    assert!(is_resolved(b"normal content"));
    assert!(!is_resolved(b"<<<<<<< a\n>>>>>>> b"));
}

#[test]
fn test_parse_conflict_regions() {
    let content = "some code\n<<<<<<< LOCAL\nlocal version\n||||||| BASE\noriginal version\n=======\nremote version\n>>>>>>> REMOTE\nmore code\n";

    let regions = parse_conflict_regions(content.as_bytes());
    assert_eq!(regions.len(), 1);
    assert_eq!(regions[0].ours, b"local version");
    assert_eq!(regions[0].base.as_ref().unwrap(), b"original version");
    assert_eq!(regions[0].theirs, b"remote version");
    assert_eq!(regions[0].start_line, 2);
    assert_eq!(regions[0].end_line, 8);
}

#[test]
fn parse_reads_several_regions_and_drops_an_open_one() {
    let content = b"<<<<<<< A\none\ntwo\n=======\nthree\r\nfour\n>>>>>>> B\ntext\n<<<<<<< A\n=======\n>>>>>>> B\n<<<<<<< open\nleft";
    let regions = parse_conflict_regions(content);
    assert_eq!(
        regions,
        vec![
            ConflictRegion {
                start_line: 1,
                end_line: 7,
                ours: b"one\ntwo".to_vec(),
                base: None,
                theirs: b"three\nfour".to_vec(),
            },
            ConflictRegion { start_line: 9, end_line: 11, ours: Vec::new(), base: None, theirs: Vec::new() },
        ]
    );
    assert_eq!(parse_conflict_regions(b""), Vec::<ConflictRegion>::new());
}

#[test]
fn what_the_writer_writes_the_reader_reads() {
    let content = write_conflict_markers(Some(b"b1\nb2"), b"o1\no2\n", b"t", b"LOCAL", b"REMOTE");
    let regions = parse_conflict_regions(&content);
    assert_eq!(
        regions,
        vec![ConflictRegion {
            start_line: 1,
            end_line: 9,
            ours: b"o1\no2".to_vec(),
            base: Some(b"b1\nb2".to_vec()),
            theirs: b"t".to_vec(),
        }]
    );
    assert_eq!(count_conflicts(&content), 1);
}

#[test]
fn test_count_conflicts() {
    let content = "<<<<<<< A\n=======\n>>>>>>> B\nsome code\n<<<<<<< A\n=======\n>>>>>>> B\n";
    assert_eq!(count_conflicts(content.as_bytes()), 2);
    assert_eq!(count_conflicts(b""), 0);
    assert_eq!(count_conflicts(b"<<<<<<"), 0);
    // fourteen in a row are two markers, fifteen too
    assert_eq!(count_conflicts(b"<<<<<<<<<<<<<<"), 2);
    assert_eq!(count_conflicts(b"<<<<<<<<<<<<<<<"), 2);
}

#[test]
fn resolution_status() {
    let marked: &[u8] = b"<<<<<<< a\n=======\n>>>>>>> b\n";
    assert_eq!(check_resolution_status(None, true), ResolutionStatus::Missing);
    assert_eq!(check_resolution_status(Some(marked), false), ResolutionStatus::Conflicted);
    assert_eq!(check_resolution_status(Some(b"fine"), true), ResolutionStatus::Resolved);
    assert_eq!(check_resolution_status(Some(b"fine"), false), ResolutionStatus::Clean);
}

#[test]
fn lines_are_split_at_newlines() {
    assert_eq!(split_lines(b"a\nb\r\n\nc"), vec![b"a".to_vec(), b"b".to_vec(), Vec::new(), b"c".to_vec()]);
    assert_eq!(split_lines(b"a\n"), vec![b"a".to_vec()]);
    assert_eq!(split_lines(b"\n"), vec![Vec::<u8>::new()]);
    assert_eq!(split_lines(b""), Vec::<Vec<u8>>::new());
    // a carriage return counts as part of a line ending only before a newline
    assert_eq!(split_lines(b"a\r"), vec![b"a\r".to_vec()]);
    assert_eq!(split_lines(b"a\rb\n"), vec![b"a\rb".to_vec()]);
}
