use doc_reflow::{
    check, AnnotatedLiteral, CheckableChunk, Config, ConsecutiveLiteralSet, ContentOrigin,
    Documentation, LineColumn, Reflow, ReflowConfig, Span,
};

fn lit(line: usize, content: &str) -> AnnotatedLiteral {
    let rendered: Vec<u8> = format!("\"{}\"", content).into_bytes();
    let n = rendered.len();
    AnnotatedLiteral::from(
        rendered,
        Span {
            start: LineColumn { line, column: 1 },
            end: LineColumn { line, column: 1 + n },
        },
    )
}

fn docs_of(contents: &[&str]) -> Documentation {
    let mut set = ConsecutiveLiteralSet::from(lit(1, contents[0]));
    for (i, c) in contents.iter().enumerate().skip(1) {
        assert!(set.add_adjacent(lit(1 + i, c)).is_ok());
    }
    let mut docs = Documentation::new();
    docs.add(ContentOrigin::TestEntity, CheckableChunk::from_set(set));
    docs
}

fn sole_replacement(docs: &Documentation, width: usize) -> Vec<u8> {
    let cfg = ReflowConfig {
        max_line_length: width,
    };
    let set = Reflow::check(docs, &cfg).expect("the reflow checker never fails");
    assert_eq!(set.len(), 1, "expected suggestions under exactly one origin");
    let (_, suggestions) = &set.entries[0];
    assert_eq!(suggestions.len(), 1, "expected exactly one suggestion");
    assert_eq!(suggestions[0].replacements.len(), 1);
    suggestions[0].replacements[0].clone()
}

#[test]
fn rewrap_into_suggestion() {
    let docs = docs_of(&[
        "This module contains documentation thats is too long for one line and moreover, \
it spans over mulitple lines such that we can test our rewrapping algorithm. \
Smart, isn't it? Lorem ipsum and some more blanket text without any meaning",
        "",
        "But lets also see what happens if there are two consecutive newlines \
in one connected documentation span.",
    ]);
    let replacement = sole_replacement(&docs, 41);
    let expected = " This module contains documentation thats\n is too long for one line and moreover,\n it spans over mulitple lines such that\n we can test our rewrapping algorithm.\n Smart, isn't it? Lorem ipsum and some\n more blanket text without any meaning\n\n But lets also see what happens if there\n are two consecutive newlines in one\n connected documentation span.";
    assert_eq!(
        String::from_utf8(replacement).unwrap(),
        expected.to_string()
    );
}

#[test]
fn width41_long_paragraph_lines_bounded() {
    let docs = docs_of(&[
        "This module contains documentation thats is too long for one line and moreover, \
it spans over mulitple lines such that we can test our rewrapping algorithm. \
Smart, isn't it? Lorem ipsum and some more blanket text without any meaning",
    ]);
    let replacement = sole_replacement(&docs, 41);
    let text = String::from_utf8(replacement).unwrap();
    for line in text.lines() {
        assert!(line.len() <= 41, "line too long: {:?}", line);
    }
}

#[test]
fn reflow_idempotent_when_already_wrapped() {
    // exactly the rewrap the engine itself produces at width 41: feeding it
    // back in must be a fixed point and yield no suggestion
    let docs = docs_of(&[
        " This module contains documentation thats",
        " is too long for one line and moreover,",
        " it spans over mulitple lines such that",
        " we can test our rewrapping algorithm.",
        " Smart, isn't it? Lorem ipsum and some",
        " more blanket text without any meaning",
        "",
        " But lets also see what happens if there",
        " are two consecutive newlines in one",
        " connected documentation span.",
    ]);
    let cfg = ReflowConfig { max_line_length: 41 };
    let set = Reflow::check(&docs, &cfg).expect("the reflow checker never fails");
    assert_eq!(set.len(), 0, "an already-wrapped paragraph must yield no suggestion");
}

#[test]
fn unbreakable_kept_on_one_line() {
    let docs = docs_of(&["aaaa *bb cc* dd"]);
    let replacement = sole_replacement(&docs, 10);
    let text = String::from_utf8(replacement).unwrap();
    assert_eq!(text, " aaaa\n *bb cc*\n dd");
    assert!(text.contains("*bb cc*"), "the emphasised span must stay on one line");
}

#[test]
fn one_sentence_single_suggestion() {
    let docs = docs_of(&["this sentence runs well past the width limit set here"]);
    let cfg = ReflowConfig { max_line_length: 20 };
    let set = Reflow::check(&docs, &cfg).expect("the reflow checker never fails");
    assert_eq!(set.total_count(), 1);
    let replacement = &set.entries[0].1[0].replacements[0];
    let text = String::from_utf8(replacement.clone()).unwrap();
    for line in text.lines() {
        assert!(line.len() <= 20, "line too long: {:?}", line);
    }
}

#[test]
fn suggestion_carries_source_span() {
    let docs = docs_of(&["word another word here to push past", "the width limit"]);
    let cfg = ReflowConfig { max_line_length: 20 };
    let set = Reflow::check(&docs, &cfg).expect("the reflow checker never fails");
    assert_eq!(set.total_count(), 1);
    let sugg = &set.entries[0].1[0];
    // the rewrapped unit spans both source lines
    assert_eq!(sugg.span.start.line, 1);
    assert_eq!(sugg.span.end.line, 2);
    assert_eq!(sugg.description, Some(b"Rewrapped".to_vec()));
}

#[test]
fn width_zero_emits_each_token_alone() {
    // a width smaller than any token must not deadlock: every token gets
    // its own line
    let docs = docs_of(&["aa bb"]);
    let replacement = sole_replacement(&docs, 0);
    assert_eq!(String::from_utf8(replacement).unwrap(), " aa\n bb");
}

#[test]
fn fenced_code_block_is_never_rewrapped() {
    let docs = docs_of(&[
        "some prose before the fence that is long enough to need a rewrap",
        "",
        "```",
        "let code = here;",
        "```",
        "",
        "and some prose after the fence that is also long enough for one",
    ]);
    let cfg = ReflowConfig { max_line_length: 30 };
    let set = Reflow::check(&docs, &cfg).expect("the reflow checker never fails");
    assert_eq!(set.total_count(), 2, "one suggestion per prose paragraph");
    for (_, suggestions) in &set.entries {
        for s in suggestions {
            for replacement in &s.replacements {
                let text = String::from_utf8(replacement.clone()).unwrap();
                assert!(
                    !text.contains("let code"),
                    "the code block must stay opaque: {:?}",
                    text
                );
            }
        }
    }
}

#[test]
fn config_disabled_yields_empty() {
    let docs = docs_of(&["this sentence runs well past the width limit set here"]);
    let off = Config { reflow: None };
    let set = check(&docs, &off).expect("checking never fails");
    assert_eq!(set.len(), 0);

    let on = Config {
        reflow: Some(ReflowConfig { max_line_length: 20 }),
    };
    let set = check(&docs, &on).expect("checking never fails");
    assert_eq!(set.total_count(), 1);
}
