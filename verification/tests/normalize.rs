use stringly::text::{Dedent, IterLines, JoinLines, LineIter, VecLineIter};
use stringly::text::split_and_dedent;
use stringly::strutil::{leading_spaces, str_to_char, trim, trim_end};

#[test]
fn dedent_shared_indentation() {
    let lines = split_and_dedent("first\n  alpha\n   beta");
    assert_eq!(lines, vec!["first".to_string(), "alpha".to_string(), " beta".to_string()]);
}

#[test]
fn dedent_roundtrip_by_reindenting() {
    let original = ["first", "  alpha", "   beta", ""];
    let lines = split_and_dedent(&original.join("\n"));
    assert_eq!(lines[0], "first");
    for (raw, line) in original.iter().zip(lines.iter()).skip(1) {
        let reindented = if line.is_empty() { String::new() } else { format!("  {}", line) };
        assert_eq!(&reindented, raw.trim_end());
    }
}

#[test]
fn dedent_falls_back_on_short_indentation() {
    let lines = split_and_dedent("first\n  alpha\n beta\n");
    assert_eq!(lines, vec!["first".to_string(), "  alpha".to_string(), " beta".to_string()]);
}

#[test]
fn dedent_ignores_tab_indentation() {
    let lines = split_and_dedent("first\n\talpha");
    assert_eq!(lines, vec!["first".to_string(), "\talpha".to_string()]);
}

#[test]
fn empty_text_gives_one_empty_line() {
    assert_eq!(split_and_dedent(""), vec!["".to_string()]);
}

#[test]
fn lines_are_right_trimmed() {
    let lines = split_and_dedent("first  \n  alpha\t\n");
    assert_eq!(lines, vec!["first".to_string(), "alpha".to_string(), "".to_string()]);
}

#[test]
fn cursor_peek_and_next() {
    let v = vec!["a".to_string(), "".to_string(), "b".to_string()];
    let mut it = v.iter_lines();
    assert_eq!(it.peek(), Some("a".to_string()));
    assert_eq!(it.peek_unempty(), Some("a".to_string()));
    assert_eq!(it.next(), Some("a".to_string()));
    assert_eq!(it.peek(), Some("".to_string()));
    assert_eq!(it.peek_unempty(), Some("b".to_string()));
    assert_eq!(it.next_if_unempty(), None);
    it.gobble_empty_lines();
    assert_eq!(it.next_if_unempty(), Some("b".to_string()));
    assert_eq!(it.next(), None);
}

#[test]
fn scope_strips_detected_indentation() {
    let v = vec!["  a".to_string(), "".to_string(), "   b".to_string(), "c".to_string()];
    let it = VecLineIter { lines: &v, index: 0 };
    let mut sc = it.dedent(2);
    assert_eq!(sc.next(), Some("a".to_string()));
    assert_eq!(sc.next(), Some("".to_string()));
    assert_eq!(sc.next(), Some(" b".to_string()));
    assert_eq!(sc.next(), None);
    let mut it = sc.finish();
    assert_eq!(it.next(), Some("c".to_string()));
}

#[test]
fn scope_short_of_minimum_gets_one_more() {
    // The first non-empty line is indented 1, short of the minimum 2, so
    // the scope adopts indentation 2 and exposes nothing.
    let v = vec![" a".to_string()];
    let it = VecLineIter { lines: &v, index: 0 };
    let mut sc = it.dedent(2);
    assert_eq!(sc.next(), None);
}

#[test]
fn scope_does_not_consume_trailing_blanks() {
    let v = vec!["  a".to_string(), "".to_string(), "b".to_string()];
    let it = VecLineIter { lines: &v, index: 0 };
    let mut sc = it.dedent(2);
    assert_eq!(sc.next(), Some("a".to_string()));
    assert_eq!(sc.next(), None);
    let mut it = sc.finish();
    // The blank line after the block stays for the parent.
    assert_eq!(it.next(), Some("".to_string()));
    assert_eq!(it.next(), Some("b".to_string()));
}

#[test]
fn join_lines_terminates_every_line() {
    let v = vec!["a".to_string(), "".to_string(), "b".to_string()];
    let mut it = v.iter_lines();
    assert_eq!(it.join_lines(), "a\n\nb\n");
}

#[test]
fn dedent_line_strips_or_refuses() {
    let v = vec!["x".to_string()];
    let sc = Dedent { parent: VecLineIter { lines: &v, index: 0 }, indent: 2 };
    assert_eq!(sc.dedent_line("    y"), Some("  y"));
    assert_eq!(sc.dedent_line(" y"), None);
}

#[test]
fn string_helpers() {
    assert_eq!(trim_end("ab  \t"), "ab");
    assert_eq!(trim("  ab "), "ab");
    assert_eq!(leading_spaces("   x"), 3);
    assert_eq!(leading_spaces("\tx"), 0);
    assert_eq!(str_to_char("a"), Some('a'));
    assert_eq!(str_to_char(""), None);
    assert_eq!(str_to_char("ab"), None);
}
