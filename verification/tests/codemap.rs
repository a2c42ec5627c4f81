use codespan_preprocessed::{BuildError, Error, FileSlice, PreprocessedFile};

fn sample() -> Vec<u8> {
    let text = "#line 1 \"top_file\"\n\
                a first statement;\n\
                another one\n\
                \n\
                #line 1 \"included_file\"\n\
                continue...\n\
                \n\
                #line 5\n\
                another line\n\
                the last one\n";
    text.as_bytes().to_vec()
}

fn segments_in_order(f: &PreprocessedFile) -> Vec<FileSlice> {
    let mut segs: Vec<FileSlice> = Vec::new();
    for p in 0..=f.len() {
        let id = f.file_id(p);
        if segs.last() != Some(&id) {
            segs.push(id);
        }
    }
    segs
}

#[test]
fn end_to_end_scenario() {
    let buf = sample();
    let f = PreprocessedFile::new(buf.clone()).unwrap();

    let last_one = 109; // byte offset of "the last one"
    assert_eq!(&buf[last_one..last_one + 12], b"the last one");
    let id = f.file_id(last_one);
    assert_eq!(f.name(&id), b"included_file".to_vec());
    assert_eq!(f.line_index(&id, last_one), Ok(5)); // displayed 1-based as 6

    let first_stmt = 19; // byte offset of "a first statement;"
    assert_eq!(&buf[first_stmt..first_stmt + 18], b"a first statement;");
    let id = f.file_id(first_stmt);
    assert_eq!(f.name(&id), b"top_file".to_vec());
    assert_eq!(f.line_index(&id, first_stmt), Ok(0)); // displayed 1-based as 1

    // the label offsets a diagnostic would carry: "last" and "first"
    assert_eq!(&buf[113..117], b"last");
    assert_eq!(f.line_index(&f.file_id(113), 113), Ok(5));
    assert_eq!(&buf[21..26], b"first");
    assert_eq!(f.line_index(&f.file_id(21), 21), Ok(0));
}

#[test]
fn no_directive_identity() {
    let f = PreprocessedFile::new(b"hello\nbig\nworld".to_vec()).unwrap();
    for p in 0..=f.len() {
        let id = f.file_id(p);
        assert_eq!(id.byte_start, 0);
        assert_eq!(id.byte_end, 15);
        assert_eq!(id.base, 0);
        assert_eq!(id.name_start, id.name_end);
    }
    let id = f.file_id(0);
    // the resolved indices match a direct newline count
    assert_eq!(f.line_index(&id, 0), Ok(0));
    assert_eq!(f.line_index(&id, 5), Ok(0)); // a line's own newline
    assert_eq!(f.line_index(&id, 6), Ok(1));
    assert_eq!(f.line_index(&id, 10), Ok(2));
    assert_eq!(f.line_index(&id, 14), Ok(2));
}

#[test]
fn directive_offset_contract() {
    // `#line 42` on flattened line 1: flattened line 2 is original line 41
    // (zero-based), that is displayed line 42.
    let f = PreprocessedFile::new(b"x\n#line 42\ny\n".to_vec()).unwrap();
    let id = f.file_id(11);
    assert_eq!(id.base, 41);
    assert_eq!(f.line_index(&id, 11), Ok(41));
    assert_eq!(f.line_index(&id, 12), Ok(41));
}

#[test]
fn round_trip() {
    let f = PreprocessedFile::new(sample()).unwrap();
    for id in segments_in_order(&f) {
        for k in 0..(id.line_end - id.line_start) {
            let orig = id.base + k;
            let range = f.line_range(&id, orig).unwrap();
            assert_eq!(f.line_index(&id, range.start), Ok(orig));
        }
    }
}

#[test]
fn contiguity() {
    let f = PreprocessedFile::new(sample()).unwrap();
    let segs = segments_in_order(&f);
    assert_eq!(segs.first().unwrap().byte_start, 0);
    assert_eq!(segs.first().unwrap().line_start, 0);
    assert_eq!(segs.last().unwrap().byte_end, f.len());
    for pair in segs.windows(2) {
        assert_eq!(pair[0].byte_end, pair[1].byte_start);
        assert_eq!(pair[0].line_end, pair[1].line_start);
    }
}

#[test]
fn binary_search_matches_linear_scan() {
    let f = PreprocessedFile::new(sample()).unwrap();
    for p in 0..=f.len() + 3 {
        assert_eq!(f.file_id(p), f.file_id_linear(p));
    }
    let empty = PreprocessedFile::new(Vec::new()).unwrap();
    for p in 0..4 {
        assert_eq!(empty.file_id(p), empty.file_id_linear(p));
    }
}

#[test]
fn directive_line_belongs_to_preceding_segment() {
    let buf = sample();
    let f = PreprocessedFile::new(buf).unwrap();
    // byte 51 starts the `#line 1 "included_file"` line; it still belongs to
    // the segment of top_file, which ends where the following text begins.
    let id = f.file_id(51);
    assert_eq!(f.name(&id), b"top_file".to_vec());
    assert_eq!(id.byte_end, 75);
}

#[test]
fn filename_carries_over_renumbering() {
    // a directive without a filename keeps the active one
    let f = PreprocessedFile::new(b"#line 1 \"f\"\na\n#line 9\nb\n".to_vec()).unwrap();
    let id = f.file_id(22); // the line holding "b"
    assert_eq!(f.name(&id), b"f".to_vec());
    assert_eq!(id.base, 8);
}

#[test]
fn preamble_has_empty_name() {
    let f = PreprocessedFile::new(b"before\n#line 1 \"f\"\nafter\n".to_vec()).unwrap();
    let id = f.file_id(0);
    assert_eq!(f.name(&id), Vec::<u8>::new());
    assert_eq!(id.base, 0);
    assert_eq!(f.line_index(&id, 0), Ok(0));
}

#[test]
fn malformed_directives_are_rejected() {
    let r = PreprocessedFile::new(b"#line x\n".to_vec());
    assert!(matches!(r, Err(BuildError::InvalidDirective { line_index: 0 })));

    // the marker with no number at all
    let r = PreprocessedFile::new(b"#line \n".to_vec());
    assert!(matches!(r, Err(BuildError::InvalidDirective { line_index: 0 })));

    // garbage after a well-formed filename
    let r = PreprocessedFile::new(b"a\n#line 3 \"f\" junk\n".to_vec());
    assert!(matches!(r, Err(BuildError::InvalidDirective { line_index: 1 })));

    // no space between the number and the filename
    let r = PreprocessedFile::new(b"#line 3\"f\"\n".to_vec());
    assert!(matches!(r, Err(BuildError::InvalidDirective { line_index: 0 })));

    // an unclosed filename
    let r = PreprocessedFile::new(b"#line 3 \"f\n".to_vec());
    assert!(matches!(r, Err(BuildError::InvalidDirective { line_index: 0 })));
}

#[test]
fn out_of_range_numbers_are_rejected() {
    let r = PreprocessedFile::new(b"#line 0\n".to_vec());
    assert!(matches!(r, Err(BuildError::NumberOutOfRange { line_index: 0 })));

    let r = PreprocessedFile::new(b"#line 99999999999999999999999999\n".to_vec());
    assert!(matches!(r, Err(BuildError::NumberOutOfRange { line_index: 0 })));
}

#[test]
fn near_matches_are_content() {
    // the marker token not followed by a space is ordinary text
    let f = PreprocessedFile::new(b"#lines 4\n#line5\n#line\n".to_vec()).unwrap();
    let id = f.file_id(0);
    assert_eq!(id.byte_start, 0);
    assert_eq!(id.byte_end, 22);
    assert_eq!(id.base, 0);
}

#[test]
fn edges_are_trimmed() {
    // indentation, trailing blanks and a carriage return do not hide a
    // directive
    let f = PreprocessedFile::new(b"  #line 2 \"indented\"  \r\nx\n".to_vec()).unwrap();
    let id = f.file_id(24);
    assert_eq!(f.name(&id), b"indented".to_vec());
    assert_eq!(f.line_index(&id, 24), Ok(1)); // displayed line 2
}

#[test]
fn repeated_separator_spaces() {
    let f = PreprocessedFile::new(b"#line   5   \"a b\"\nx\n".to_vec()).unwrap();
    let id = f.file_id(18);
    assert_eq!(f.name(&id), b"a b".to_vec());
    assert_eq!(f.line_index(&id, 18), Ok(4)); // displayed line 5
}

#[test]
fn query_errors() {
    let f = PreprocessedFile::new(sample()).unwrap();
    let id = f.file_id(109); // the last segment: lines 8..10, base 4

    // a byte before the segment is the caller's error
    assert_eq!(f.line_index(&id, 5), Err(Error::FileMissing));

    // an original index past the table is refused, reporting the table's
    // largest valid line index
    assert_eq!(
        f.line_range(&id, 100),
        Err(Error::LineTooLarge { given: 100, max: 9 })
    );

    // an original index before the segment's numbering underflows the table
    let g = PreprocessedFile::new(b"x\n#line 42\ny\n".to_vec()).unwrap();
    let id = g.file_id(11);
    assert_eq!(
        g.line_range(&id, 0),
        Err(Error::LineTooLarge { given: 0, max: 2 })
    );
}

#[test]
fn end_of_file_is_clamped() {
    let f = PreprocessedFile::new(sample()).unwrap();
    let id = f.file_id(f.len());
    // the sentinel offset at the buffer's end resolves to the last original
    // line of the last segment
    assert_eq!(f.line_index(&id, f.len()), Ok(5));
}

#[test]
fn empty_buffer() {
    let f = PreprocessedFile::new(Vec::new()).unwrap();
    assert_eq!(f.len(), 0);
    assert_eq!(f.source(), &Vec::<u8>::new());
    let id = f.file_id(0);
    assert_eq!(id.byte_start, 0);
    assert_eq!(id.byte_end, 0);
    assert_eq!(f.line_index(&id, 0), Ok(0));
    assert_eq!(f.line_range(&id, 0), Ok(0..0));
}

#[test]
fn unterminated_final_line() {
    let f = PreprocessedFile::new(b"#line 7\nabc".to_vec()).unwrap();
    let id = f.file_id(8);
    assert_eq!(f.name(&id), Vec::<u8>::new());
    assert_eq!(f.line_index(&id, 8), Ok(6)); // displayed line 7
    assert_eq!(f.line_index(&id, 10), Ok(6));
    assert_eq!(f.line_range(&id, 6), Ok(8..11));
}

#[test]
fn source_and_len() {
    let buf = sample();
    let f = PreprocessedFile::new(buf.clone()).unwrap();
    assert_eq!(f.source(), &buf);
    assert_eq!(f.len(), buf.len());
}

#[test]
fn line_ranges_follow_the_table() {
    let f = PreprocessedFile::new(sample()).unwrap();
    let id = f.file_id(19); // top_file: lines 1..5, base 0
    assert_eq!(f.line_range(&id, 0), Ok(19..37));
    assert_eq!(f.line_range(&id, 1), Ok(38..49));
    assert_eq!(f.line_range(&id, 2), Ok(50..50));
}
