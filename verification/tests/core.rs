use doc_reflow::{
    tokenize, AnnotatedLiteral, AnnotatedLiteralRef, ConsecutiveLiteralSet, ContentOrigin,
    CoreError, LineColumn, Span, SuggestionSet, Suggestion, Detector, Range,
};

const TEXT: &str = "With markdown removed, for sure.";

fn lit(line: usize, content: &str) -> AnnotatedLiteral {
    let rendered: Vec<u8> = format!("\"{}\"", content).into_bytes();
    let n = rendered.len();
    AnnotatedLiteral::from(
        rendered,
        Span {
            start: LineColumn { line, column: 1 },
            end: LineColumn { line, column: 1 + n },
        },
    )
}

fn set_of(first_line: usize, contents: &[&str]) -> ConsecutiveLiteralSet {
    let mut set = ConsecutiveLiteralSet::from(lit(first_line, contents[0]));
    for (i, c) in contents.iter().enumerate().skip(1) {
        assert!(set.add_adjacent(lit(first_line + i, c)).is_ok());
    }
    set
}

#[test]
fn tokens() {
    let tokens = ["With", "markdown", "removed", "for", "sure"];
    let bytes: Vec<u8> = TEXT.as_bytes().to_vec();
    let ranges: Vec<Range> = tokenize(&bytes);
    for (range, expect) in ranges.into_iter().zip(tokens.iter()) {
        assert_eq!(&&TEXT[range.start..range.end], expect);
    }
}

#[test]
fn tokenize_counts_every_word() {
    let bytes: Vec<u8> = TEXT.as_bytes().to_vec();
    assert_eq!(tokenize(&bytes).len(), 5);
}

#[test]
fn tokenize_punctuation_only_is_empty() {
    let bytes: Vec<u8> = " \t.,;:!?#()-{}[]/`\"\r\n".as_bytes().to_vec();
    assert!(tokenize(&bytes).is_empty());
}

#[test]
fn tokenize_concat_reproduces_kept_bytes() {
    let input = "a-b c.d(e)";
    let bytes: Vec<u8> = input.as_bytes().to_vec();
    let mut joined = String::new();
    for r in tokenize(&bytes) {
        joined.push_str(&input[r.start..r.end]);
    }
    assert_eq!(joined, "abcde");
}

#[test]
fn annotate_padding_metrics() {
    let l = AnnotatedLiteral::from(
        b"  abc  ".to_vec(),
        Span {
            start: LineColumn { line: 1, column: 1 },
            end: LineColumn { line: 1, column: 8 },
        },
    );
    assert_eq!(l.pre, 3);
    assert_eq!(l.post, 3);
    assert_eq!(l.len, 1);
    assert_eq!(l.as_str(), b"b");
    assert!(l.validate().is_ok());

    let r = AnnotatedLiteralRef::new(&l);
    assert_eq!(r.pre(), 3);
    assert_eq!(r.post(), 3);
    assert_eq!(r.len(), 1);
    assert_eq!(r.as_str(), b"b");
}

#[test]
fn malformed_literal_detected() {
    let bad = AnnotatedLiteral {
        rendered: b"a".to_vec(),
        span: Span {
            start: LineColumn { line: 1, column: 1 },
            end: LineColumn { line: 1, column: 2 },
        },
        pre: 5,
        post: 5,
        len: 0,
    };
    assert_eq!(bad.validate(), Err(CoreError::MalformedLiteral));
}

#[test]
fn adjacency_append_and_reject() {
    let mut set = ConsecutiveLiteralSet::from(lit(2, "first"));
    assert_eq!(set.coverage, (2, 2));
    assert!(set.add_adjacent(lit(3, "second")).is_ok());
    assert_eq!(set.coverage, (2, 3));
    assert_eq!(set.len(), 2);

    let stray = lit(7, "far away");
    match set.add_adjacent(stray) {
        Ok(()) => panic!("a non-adjacent literal must be rejected"),
        Err(back) => {
            assert_eq!(back, lit(7, "far away"));
        }
    }
    assert_eq!(set.coverage, (2, 3));
    assert_eq!(set.len(), 2);
}

#[test]
fn adjacency_prepend() {
    let mut set = ConsecutiveLiteralSet::from(lit(2, "middle"));
    assert!(set.add_adjacent(lit(1, "top")).is_ok());
    assert_eq!(set.coverage, (1, 2));
    assert_eq!(set.literals()[0].as_str(), b"top");
    assert_eq!(set.literals()[1].as_str(), b"middle");
}

#[test]
fn virtual_text_joins_contents() {
    let set = set_of(
        1,
        &[
            "Another excellent verification pass.",
            "",
            "Boats float, don't they?",
        ],
    );
    let vt = set.virtual_text();
    assert_eq!(
        vt,
        b"Another excellent verification pass.\n\nBoats float, don't they?".to_vec()
    );
}

#[test]
fn offset_to_location_values() {
    let set = set_of(1, &["abc", "defg"]);
    // content columns start right after the opening delimiter: column 2
    assert_eq!(set.offset_to_location(0), Ok((0, LineColumn { line: 1, column: 2 })));
    // the separator resolves to the end of the earlier literal's content
    assert_eq!(set.offset_to_location(3), Ok((0, LineColumn { line: 1, column: 5 })));
    assert_eq!(set.offset_to_location(4), Ok((1, LineColumn { line: 2, column: 2 })));
    assert_eq!(set.offset_to_location(8), Ok((1, LineColumn { line: 2, column: 6 })));
    assert_eq!(set.offset_to_location(9), Err(CoreError::OutOfBounds));
}

#[test]
fn coverage_spans_round_trip() {
    let set = set_of(1, &["abc", "defg"]);
    let vt = set.virtual_text();
    let spans = set
        .linear_coverage_to_spans(1, 5)
        .expect("the range lies within the virtual text");
    assert_eq!(spans.len(), 2);
    assert_eq!(spans[0].0, 0);
    assert_eq!(spans[1].0, 1);

    // re-slice the rendered source at the returned spans and join with the
    // separating newline: that must equal the virtual-text slice
    let mut joined: Vec<u8> = Vec::new();
    for (i, (idx, sp)) in spans.iter().enumerate() {
        if i > 0 {
            joined.push(b'\n');
        }
        let l = &set.literals()[*idx];
        let a = sp.start.column - l.span.start.column;
        let b = sp.end.column - l.span.start.column;
        joined.extend_from_slice(&l.rendered[a..b]);
    }
    assert_eq!(joined, vt[1..6].to_vec());
}

#[test]
fn coverage_spans_out_of_bounds_reported() {
    let set = set_of(1, &["abc", "defg"]);
    assert_eq!(
        set.linear_coverage_to_spans(4, 100),
        Err(CoreError::OutOfBounds)
    );
}

#[test]
fn suggestion_set_add_and_join() {
    let mut a = SuggestionSet::new();
    a.add(
        ContentOrigin::TestEntity,
        Suggestion {
            detector: Detector::Reflow,
            range: Range { start: 0, end: 1 },
            span: Span {
                start: LineColumn { line: 1, column: 1 },
                end: LineColumn { line: 1, column: 2 },
            },
            origin: ContentOrigin::TestEntity,
            replacements: vec![b"x".to_vec()],
            description: None,
        },
    );
    assert_eq!(a.len(), 1);
    assert_eq!(a.total_count(), 1);

    let mut b = SuggestionSet::new();
    b.add(
        ContentOrigin::RustSourceFile(b"lib.rs".to_vec()),
        Suggestion {
            detector: Detector::Reflow,
            range: Range { start: 0, end: 1 },
            span: Span {
                start: LineColumn { line: 1, column: 1 },
                end: LineColumn { line: 1, column: 2 },
            },
            origin: ContentOrigin::RustSourceFile(b"lib.rs".to_vec()),
            replacements: vec![b"y".to_vec()],
            description: None,
        },
    );
    a.join(b);
    assert_eq!(a.len(), 2);
    assert_eq!(a.total_count(), 2);
}
