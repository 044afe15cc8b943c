use stringly::docstring::{DocString, ParseError};

fn ok(doc: &str) -> DocString {
    match DocString::new(doc) {
        Ok(ds) => ds,
        Err(_) => panic!("expected a successful parse"),
    }
}

#[test]
fn empty_input_yields_empty_record() {
    let ds = ok("");
    assert_eq!(ds.text, "");
    assert!(ds.defaults.is_empty());
    assert!(ds.argdocs.is_empty());
    assert!(ds.presets.is_empty());
    assert_eq!(ds.doc, "\n");
}

#[test]
fn single_paragraph() {
    let ds = ok("hello world");
    assert_eq!(ds.text, "hello world");
    assert!(ds.defaults.is_empty());
    assert!(ds.presets.is_empty());
}

#[test]
fn two_paragraphs_one_blank_line() {
    let ds = ok("para one\n\npara two");
    assert_eq!(ds.text, "para one\n\npara two");
}

#[test]
fn two_paragraphs_blank_run_collapses() {
    let ds = ok("line a\nline b\n\n\nline c");
    assert_eq!(ds.text, "line a\nline b\n\nline c");
}

#[test]
fn leading_and_trailing_blank_lines_trimmed() {
    let ds = ok("\n\nbody\n\n");
    assert_eq!(ds.text, "body");
}

#[test]
fn argument_with_default_and_description() {
    let ds = ok("intro\n\n.. arguments::\n\n   foo [bar]\n     description here");
    assert_eq!(ds.defaults, vec![("foo".to_string(), "bar".to_string())]);
    assert_eq!(ds.argdocs, vec![("foo".to_string(), "description here".to_string())]);
    assert_eq!(ds.text, "intro");
}

#[test]
fn argument_without_default() {
    let ds = ok("intro\n\n.. arguments::\n\n   plain\n     about plain");
    assert!(ds.defaults.is_empty());
    assert_eq!(ds.argdocs, vec![("plain".to_string(), "about plain".to_string())]);
}

#[test]
fn argument_multi_line_description() {
    let ds = ok("intro\n\n.. arguments::\n\n   foo [1]\n     first\n     second");
    assert_eq!(ds.argdocs, vec![("foo".to_string(), "first\nsecond".to_string())]);
}

#[test]
fn blank_line_between_arguments_is_gobbled() {
    let ds = ok("intro\n\n.. arguments::\n\n   foo [1]\n\n   baz");
    assert_eq!(ds.defaults, vec![("foo".to_string(), "1".to_string())]);
    assert_eq!(
        ds.argdocs,
        vec![("foo".to_string(), "".to_string()), ("baz".to_string(), "".to_string())]
    );
}

#[test]
fn blank_line_after_description_yields_empty_entry() {
    let ds = ok("intro\n\n.. arguments::\n\n   foo [1]\n     doc\n\n   baz");
    assert_eq!(
        ds.argdocs,
        vec![
            ("foo".to_string(), "doc".to_string()),
            ("".to_string(), "".to_string()),
            ("baz".to_string(), "".to_string()),
        ]
    );
}

#[test]
fn preset_with_two_parameters() {
    let ds = ok("intro\n\n.. presets::\n\n   fast\n     x=1,y=2");
    assert_eq!(ds.presets.len(), 1);
    assert_eq!(ds.presets[0].0, "fast");
    assert_eq!(
        ds.presets[0].1,
        vec![("x".to_string(), "1".to_string()), ("y".to_string(), "2".to_string())]
    );
}

#[test]
fn preset_pretty_multi_line_parameters() {
    let ds = ok("intro\n\n.. presets::\n\n   fast\n     x=1\n     y=2");
    assert_eq!(
        ds.presets[0].1,
        vec![("x".to_string(), "1".to_string()), ("y".to_string(), "2".to_string())]
    );
}

#[test]
fn preset_missing_value_fails() {
    let r = DocString::new("intro\n\n.. presets::\n\n   fast\n     x=1,y");
    match r {
        Err(ParseError::MissingValue { preset, item }) => {
            assert_eq!(preset, "fast");
            assert_eq!(item, "y");
        }
        _ => panic!("expected a missing-value failure"),
    }
}

#[test]
fn protected_comma_does_not_split_preset_parameters() {
    let ds = ok("intro\n\n.. presets::\n\n   fast\n     x={a,b},y=2");
    assert_eq!(
        ds.presets[0].1,
        vec![("x".to_string(), "a,b".to_string()), ("y".to_string(), "2".to_string())]
    );
}

#[test]
fn blocks_and_paragraphs_combined() {
    let ds = ok(
        "summary line\n\n.. arguments::\n\n   n [10]\n     the count\n\nmore text\n\n.. presets::\n\n   quick\n     n=1",
    );
    assert_eq!(ds.text, "summary line\n\nmore text");
    assert_eq!(ds.defaults, vec![("n".to_string(), "10".to_string())]);
    assert_eq!(ds.argdocs, vec![("n".to_string(), "the count".to_string())]);
    assert_eq!(ds.presets.len(), 1);
    assert_eq!(ds.presets[0].0, "quick");
    assert_eq!(ds.presets[0].1, vec![("n".to_string(), "1".to_string())]);
}

#[test]
fn full_text_is_normalized_lines_joined() {
    let ds = ok("first\n  second\n  third");
    assert_eq!(ds.doc, "first\nsecond\nthird\n");
}

#[test]
fn empty_arguments_block() {
    let ds = ok("intro\n\n.. arguments::");
    assert!(ds.argdocs.is_empty());
    assert!(ds.defaults.is_empty());
    assert_eq!(ds.text, "intro");
}

#[test]
fn blank_line_after_preset_parameters_fails() {
    // The blank line after the parameters is yielded as an empty preset
    // name whose empty parameter string has no assignment in it.
    let r = DocString::new("intro\n\n.. presets::\n\n   fast\n     x=1\n\n   slow\n     y=2");
    match r {
        Err(ParseError::MissingValue { preset, item }) => {
            assert_eq!(preset, "");
            assert_eq!(item, "");
        }
        _ => panic!("expected a missing-value failure"),
    }
}

#[test]
fn marker_with_trailing_content_is_a_paragraph() {
    let ds = ok(".. arguments:: extra");
    assert_eq!(ds.text, ".. arguments:: extra");
    assert!(ds.argdocs.is_empty());
}
