use stringly::protect::{
    deprettify, is_balanced, prettify, protect, safesplit, safesplit_once, unprotect,
};

#[test]
fn protect_then_unprotect_roundtrips_balanced_values() {
    for s in ["", "abc", "a,b", "{x}", "a{b{c}}d"] {
        assert_eq!(unprotect(&protect(s)), s);
    }
}

#[test]
fn protected_value_is_atomic_for_splitting() {
    let p = protect("a,b");
    let joined = format!("x,{},y", p);
    assert_eq!(
        safesplit(&joined, ','),
        vec!["x".to_string(), "{a,b}".to_string(), "y".to_string()]
    );
}

#[test]
fn balance_checking() {
    assert!(is_balanced(""));
    assert!(is_balanced("a{b{c}}d"));
    assert!(is_balanced("{a}{b}"));
    assert!(!is_balanced("}{"));
    assert!(!is_balanced("{a"));
    assert!(!is_balanced("a}"));
}

#[test]
fn safesplit_plain() {
    assert_eq!(safesplit("a,b,c", ','), vec!["a".to_string(), "b".to_string(), "c".to_string()]);
}

#[test]
fn safesplit_keeps_protected_separator() {
    assert_eq!(
        safesplit("a,{b,c},d", ','),
        vec!["a".to_string(), "{b,c}".to_string(), "d".to_string()]
    );
}

#[test]
fn safesplit_empty_pieces() {
    assert_eq!(safesplit("", ','), vec!["".to_string()]);
    assert_eq!(safesplit("a,,b", ','), vec!["a".to_string(), "".to_string(), "b".to_string()]);
}

#[test]
fn safesplit_once_splits_at_first() {
    assert_eq!(safesplit_once("a=b=c", '='), Ok(("a".to_string(), "b=c".to_string())));
}

#[test]
fn safesplit_once_respects_protection() {
    assert_eq!(safesplit_once("{a=b}=c", '='), Ok(("{a=b}".to_string(), "c".to_string())));
    assert!(safesplit_once("{a=b}", '=').is_err());
    assert!(safesplit_once("abc", '=').is_err());
}

#[test]
fn unprotect_strips_one_outer_pair() {
    assert_eq!(unprotect("{abc}"), "abc");
    assert_eq!(unprotect("{a,{b}}"), "a,{b}");
    assert_eq!(unprotect("abc"), "abc");
    // The first brace closes before the end: not one protected value.
    assert_eq!(unprotect("{a}{b}"), "{a}{b}");
    assert_eq!(unprotect("{}"), "");
}

#[test]
fn deprettify_joins_terminated_lines() {
    assert_eq!(deprettify("x=1\ny=2\n"), Ok("x=1,y=2".to_string()));
    assert_eq!(deprettify("x=1,y=2\n"), Ok("x=1,y=2".to_string()));
    assert_eq!(deprettify(""), Ok("".to_string()));
}

#[test]
fn deprettify_rejects_unterminated_text() {
    assert!(deprettify("x=1").is_err());
}

#[test]
fn prettify_puts_items_on_lines() {
    assert_eq!(prettify("a,{b,c}"), "a\n{b,c}\n");
    assert_eq!(prettify(""), "\n");
}

#[test]
fn prettify_then_deprettify_roundtrips() {
    for s in ["", "a", "a,b", "a,{b,c},d", "x=1,y={2,3}", ",,"] {
        assert_eq!(deprettify(&prettify(s)), Ok(s.to_string()));
    }
}
