//! Delimiter-aware splitting and protection handling.
//!
//! A sub-value wrapped in braces is protected: separators inside it are
//! never treated as delimiters. A pretty text form puts one item per line;
//! `deprettify` reverses it back to the separator-joined form.

use vstd::prelude::*;
use crate::text::join_nl;

verus! {

/// What one character contributes to the protection depth.
pub open spec fn ch_delta(c: char) -> int {
    if c == '{' {
        1int
    } else if c == '}' {
        -1int
    } else {
        0int
    }
}

/// The protection depth after reading `s`: braces opened minus braces
/// closed.
pub open spec fn depth_after(s: Seq<char>) -> int
    decreases s.len(),
{
    if s.len() == 0 {
        0int
    } else {
        depth_after(s.drop_last()) + ch_delta(s.last())
    }
}

/// The first position at or after `i` where `sep` occurs unprotected, at
/// depth zero.
pub open spec fn first_sep(s: Seq<char>, sep: char, i: int) -> Option<int>
    decreases s.len() - i,
{
    if i < 0 || i >= s.len() {
        Option::None
    } else if s[i] == sep && depth_after(s.take(i)) == 0 {
        Option::Some(i)
    } else {
        first_sep(s, sep, i + 1)
    }
}

pub proof fn lemma_first_sep(s: Seq<char>, sep: char, i: int)
    requires
        0 <= i <= s.len(),
    ensures
        match first_sep(s, sep, i) {
            Option::Some(k) => i <= k < s.len() && s[k] == sep && depth_after(s.take(k)) == 0
                && forall|j: int|
                i <= j < k ==> !(s[j] == sep && depth_after(#[trigger] s.take(j)) == 0),
            Option::None => forall|j: int|
                i <= j < s.len() ==> !(s[j] == sep && depth_after(#[trigger] s.take(j)) == 0),
        },
    decreases s.len() - i,
{
    if i < s.len() && !(s[i] == sep && depth_after(s.take(i)) == 0) {
        lemma_first_sep(s, sep, i + 1);
    }
}

/// `s` split at every unprotected occurrence of `sep`.
pub open spec fn safesplit_spec(s: Seq<char>, sep: char) -> Seq<Seq<char>>
    decreases s.len(),
        via safesplit_spec_dec
{
    match first_sep(s, sep, 0) {
        Option::Some(k) => seq![s.take(k)] + safesplit_spec(s.skip(k + 1), sep),
        Option::None => seq![s],
    }
}

#[via_fn]
proof fn safesplit_spec_dec(s: Seq<char>, sep: char) {
    lemma_first_sep(s, sep, 0);
}

/// The pieces joined back with `sep` between them.
pub open spec fn join_sep(ls: Seq<Seq<char>>, sep: char) -> Seq<char>
    decreases ls.len(),
{
    if ls.len() == 0 {
        Seq::empty()
    } else if ls.len() == 1 {
        ls.first()
    } else {
        ls.first() + seq![sep] + join_sep(ls.drop_first(), sep)
    }
}

/// No unprotected occurrence of `sep` anywhere in `piece`.
pub open spec fn no_unprotected(piece: Seq<char>, sep: char) -> bool {
    forall|k: int|
        0 <= k < piece.len() ==> !(piece[k] == sep && depth_after(#[trigger] piece.take(k)) == 0)
}

/// The splitter's two defining laws: joining the pieces with the separator
/// gives the input back, and no piece holds an unprotected separator — in
/// particular a separator inside a protected sub-value never splits.
pub proof fn lemma_safesplit(s: Seq<char>, sep: char)
    ensures
        safesplit_spec(s, sep).len() >= 1,
        join_sep(safesplit_spec(s, sep), sep) == s,
        forall|p: int|
            0 <= p < safesplit_spec(s, sep).len() ==> no_unprotected(
                #[trigger] safesplit_spec(s, sep)[p],
                sep,
            ),
    decreases s.len(),
{
    lemma_first_sep(s, sep, 0);
    match first_sep(s, sep, 0) {
        Option::Some(k) => {
            let head = s.take(k);
            let tail = s.skip(k + 1);
            lemma_safesplit(tail, sep);
            let r = safesplit_spec(s, sep);
            assert(r.drop_first() =~= safesplit_spec(tail, sep));
            assert(join_sep(r, sep) =~= s) by {
                assert(head + seq![sep] + join_sep(safesplit_spec(tail, sep), sep) =~= s);
            }
            assert forall|p: int| 0 <= p < r.len() implies no_unprotected(#[trigger] r[p], sep) by {
                if p == 0 {
                    assert forall|j: int|
                        0 <= j < head.len() implies !(head[j] == sep && depth_after(
                        #[trigger] head.take(j),
                    ) == 0) by {
                        assert(head.take(j) =~= s.take(j));
                    }
                } else {
                    assert(r[p] == safesplit_spec(tail, sep)[p - 1]);
                }
            }
        },
        Option::None => {
            assert(safesplit_spec(s, sep) =~= seq![s]);
        },
    }
}

/// Whether the whole of `s` is one protected sub-value: wrapped in an outer
/// brace pair that stays open throughout the inside.
pub open spec fn is_protected(s: Seq<char>) -> bool {
    s.len() >= 2 && s.first() == '{' && s.last() == '}' && forall|k: int|
        1 <= k < s.len() ==> depth_after(#[trigger] s.take(k)) >= 1
}

/// `s` with its outer protection pair removed, when it carries one.
pub open spec fn unprotect_spec(s: Seq<char>) -> Seq<char> {
    if is_protected(s) {
        s.subrange(1, s.len() - 1)
    } else {
        s
    }
}

/// `s` wrapped in one protection pair.
pub open spec fn protect_spec(s: Seq<char>) -> Seq<char> {
    seq!['{'] + s + seq!['}']
}

/// Wrap `s` in one protection pair, so that delimiter-aware splitting
/// treats it as atomic.
pub fn protect(s: &str) -> (r: String)
    ensures
        r@ == protect_spec(s@),
{
    let mut out = String::new();
    out.append("{");
    out.append(s);
    out.append("}");
    proof {
        reveal_strlit("{");
        reveal_strlit("}");
        assert(out@ =~= protect_spec(s@));
    }
    out
}

/// Protecting a value whose own markers are correctly nested is exactly
/// reversed by removing the protection.
pub proof fn lemma_protect_roundtrip(s: Seq<char>)
    requires
        is_balanced_spec(s),
    ensures
        unprotect_spec(protect_spec(s)) == s,
{
    let p = protect_spec(s);
    assert(p.first() == '{');
    assert(p.last() == '}');
    assert forall|k: int| 1 <= k < p.len() implies depth_after(#[trigger] p.take(k)) >= 1 by {
        assert(p.take(k).drop_first() =~= s.take(k - 1));
        lemma_depth_after_open(p.take(k), s.take(k - 1));
        assert(depth_after(s.take(k - 1)) >= 0);
    }
    assert(is_protected(p));
    assert(p.subrange(1, p.len() - 1) =~= s);
}

/// The depth after a text that opens with one brace is one more than the
/// depth after the rest.
proof fn lemma_depth_after_open(p: Seq<char>, s: Seq<char>)
    requires
        p.len() >= 1,
        p.first() == '{',
        s == p.drop_first(),
    ensures
        depth_after(p) == 1 + depth_after(s),
    decreases p.len(),
{
    assert(depth_after(p) == depth_after(p.drop_last()) + ch_delta(p.last()));
    if p.len() == 1 {
        assert(s =~= Seq::<char>::empty());
        assert(p.drop_last() =~= Seq::<char>::empty());
        assert(depth_after(Seq::<char>::empty()) == 0);
        assert(p.last() == '{');
    } else {
        assert(p.drop_last().first() == '{');
        assert(p.drop_last().drop_first() =~= s.drop_last());
        lemma_depth_after_open(p.drop_last(), s.drop_last());
        assert(s.len() >= 1);
        assert(p.last() == s.last());
        assert(depth_after(s) == depth_after(s.drop_last()) + ch_delta(s.last()));
    }
}

/// A pretty text that could not be reversed: it ends in an unterminated
/// line.
#[derive(Debug, PartialEq, Eq, Structural)]
pub struct FormatError;

/// Whether `deprettify` accepts the text: empty, or every line terminated.
pub open spec fn deprettify_ok(t: Seq<char>) -> bool {
    t.len() == 0 || t.last() == '\n'
}

/// The reversal of the pretty form: the final terminator dropped and every
/// other terminator turned back into a separator.
pub open spec fn deprettify_spec(t: Seq<char>) -> Seq<char> {
    Seq::new(
        if t.len() == 0 {
            0nat
        } else {
            (t.len() - 1) as nat
        },
        |k: int|
            if t[k] == '\n' {
                ','
            } else {
                t[k]
            },
    )
}

/// The pretty form of `s`: every item of the comma-separated form on a line
/// of its own, each line terminated.
pub open spec fn prettify_spec(s: Seq<char>) -> Seq<char> {
    join_nl(safesplit_spec(s, ','))
}

/// Scan for the first unprotected occurrence of `sep` in `s`.
fn scan_sep(s: &str, sep: char) -> (r: Option<usize>)
    ensures
        match r {
            Option::Some(k) => first_sep(s@, sep, 0) == Option::Some(k as int),
            Option::None => first_sep(s@, sep, 0) is None,
        },
{
    let len: usize = s.unicode_len();
    let mut k: usize = 0;
    let mut d: i128 = 0;
    while k < len
        invariant
            k <= len,
            len == s@.len(),
            d == depth_after(s@.take(k as int)),
            -(k as int) <= d <= k as int,
            forall|j: int|
                0 <= j < k ==> !(s@[j] == sep && depth_after(#[trigger] s@.take(j)) == 0),
        decreases len - k,
    {
        let c = s.get_char(k);
        if c == sep && d == 0 {
            proof {
                lemma_first_sep(s@, sep, 0);
            }
            return Option::Some(k);
        }
        proof {
            assert(s@.take(k + 1).drop_last() =~= s@.take(k as int));
        }
        if c == '{' {
            d = d + 1;
        } else if c == '}' {
            d = d - 1;
        }
        k = k + 1;
    }
    proof {
        lemma_first_sep(s@, sep, 0);
    }
    Option::None
}

/// Split `s` at every unprotected occurrence of `sep`. A separator inside a
/// protected sub-value never splits; joining the pieces with `sep` gives
/// `s` back.
pub fn safesplit(s: &str, sep: char) -> (r: Vec<String>)
    ensures
        r.deep_view() == safesplit_spec(s@, sep),
    decreases s@.len(),
{
    let mut r: Vec<String> = Vec::new();
    match scan_sep(s, sep) {
        Option::Some(k) => {
            proof {
                lemma_first_sep(s@, sep, 0);
            }
            let len: usize = s.unicode_len();
            let head = s.substring_char(0, k);
            let mut rest = safesplit(s.substring_char(k + 1, len), sep);
            r.push(head.to_owned());
            r.append(&mut rest);
            proof {
                assert(s@.subrange(0, k as int) =~= s@.take(k as int));
                assert(s@.subrange(k + 1, s@.len() as int) =~= s@.skip(k + 1));
                assert(r.deep_view() =~= safesplit_spec(s@, sep));
            }
        },
        Option::None => {
            r.push(s.to_owned());
            proof {
                assert(r.deep_view() =~= safesplit_spec(s@, sep));
            }
        },
    }
    r
}

/// The separator never occurred unprotected.
#[derive(Debug, PartialEq, Eq, Structural)]
pub struct SeparatorNotFound;

/// Split `s` at the first unprotected occurrence of `sep`, or report that
/// there is none.
pub fn safesplit_once(s: &str, sep: char) -> (r: Result<(String, String), SeparatorNotFound>)
    ensures
        match r {
            Result::Ok(lr) => match first_sep(s@, sep, 0) {
                Option::Some(k) => lr.0@ == s@.take(k) && lr.1@ == s@.skip(k + 1),
                Option::None => false,
            },
            Result::Err(e) => first_sep(s@, sep, 0) is None,
        },
{
    match scan_sep(s, sep) {
        Option::Some(k) => {
            proof {
                lemma_first_sep(s@, sep, 0);
            }
            let len: usize = s.unicode_len();
            let head = s.substring_char(0, k);
            let tail = s.substring_char(k + 1, len);
            proof {
                assert(s@.subrange(0, k as int) =~= s@.take(k as int));
                assert(s@.subrange(k + 1, s@.len() as int) =~= s@.skip(k + 1));
            }
            Result::Ok((head.to_owned(), tail.to_owned()))
        },
        Option::None => Result::Err(SeparatorNotFound),
    }
}

/// Remove the outer protection pair of `s`, when `s` is one protected
/// sub-value; any other string is given back unchanged.
pub fn unprotect(s: &str) -> (r: &str)
    ensures
        r@ == unprotect_spec(s@),
{
    let len: usize = s.unicode_len();
    if len < 2 || s.get_char(0) != '{' || s.get_char(len - 1) != '}' {
        return s;
    }
    let mut k: usize = 1;
    let mut d: i128 = 1;
    proof {
        assert(s@.take(1).drop_last() =~= s@.take(0));
        assert(s@.take(0) =~= Seq::<char>::empty());
        assert(depth_after(s@.take(0)) == 0);
        assert(s@.take(1).last() == s@[0]);
        assert(depth_after(s@.take(1)) == 1);
    }
    while k < len - 1
        invariant
            1 <= k <= len - 1,
            len == s@.len(),
            s@[0] == '{',
            s@[len - 1] == '}',
            2 <= len,
            d == depth_after(s@.take(k as int)),
            -(k as int) <= d <= k as int,
            forall|j: int| 1 <= j <= k ==> depth_after(#[trigger] s@.take(j)) >= 1,
        decreases len - k,
    {
        let c = s.get_char(k);
        proof {
            assert(s@.take(k + 1).drop_last() =~= s@.take(k as int));
        }
        if c == '{' {
            d = d + 1;
        } else if c == '}' {
            d = d - 1;
        }
        if d < 1 {
            proof {
                assert(depth_after(s@.take(k + 1)) < 1);
                assert(!is_protected(s@));
            }
            return s;
        }
        k = k + 1;
    }
    proof {
        assert(is_protected(s@));
    }
    s.substring_char(1, len - 1)
}

/// Whether the protection markers in `s` are correctly nested: no closing
/// brace before its opening one, and none left open at the end.
pub open spec fn is_balanced_spec(s: Seq<char>) -> bool {
    depth_after(s) == 0 && forall|k: int| 0 <= k <= s.len() ==> depth_after(#[trigger] s.take(k))
        >= 0
}

/// Report whether the protection markers in `s` are correctly nested.
pub fn is_balanced(s: &str) -> (r: bool)
    ensures
        r == is_balanced_spec(s@),
{
    let len: usize = s.unicode_len();
    let mut k: usize = 0;
    let mut d: i128 = 0;
    proof {
        assert(s@.take(0) =~= Seq::<char>::empty());
    }
    while k < len
        invariant
            k <= len,
            len == s@.len(),
            d == depth_after(s@.take(k as int)),
            -(k as int) <= d <= k as int,
            forall|j: int| 0 <= j <= k ==> depth_after(#[trigger] s@.take(j)) >= 0,
        decreases len - k,
    {
        let c = s.get_char(k);
        proof {
            assert(s@.take(k + 1).drop_last() =~= s@.take(k as int));
        }
        if c == '{' {
            d = d + 1;
        } else if c == '}' {
            d = d - 1;
        }
        if d < 0 {
            proof {
                assert(depth_after(s@.take(k + 1)) < 0);
            }
            return false;
        }
        k = k + 1;
    }
    proof {
        assert(s@.take(len as int) =~= s@);
    }
    d == 0
}

/// Whether a value is a single line.
pub open spec fn no_newline(s: Seq<char>) -> bool {
    forall|k: int| 0 <= k < s.len() ==> s[k] != '\n'
}

/// Reverse the pretty form: drop the final terminator and turn every other
/// terminator back into a separator. A non-empty text whose last line is
/// unterminated cannot come from prettifying and is rejected.
pub fn deprettify(t: &str) -> (r: Result<String, FormatError>)
    ensures
        match r {
            Result::Ok(v) => deprettify_ok(t@) && v@ == deprettify_spec(t@),
            Result::Err(e) => !deprettify_ok(t@),
        },
{
    let len: usize = t.unicode_len();
    if len == 0 {
        proof {
            assert(deprettify_spec(t@) =~= Seq::<char>::empty());
        }
        return Result::Ok(String::new());
    }
    if t.get_char(len - 1) != '\n' {
        return Result::Err(FormatError);
    }
    let ghost dp = deprettify_spec(t@);
    let mut out = String::new();
    let mut pos: usize = 0;
    let mut done: bool = false;
    proof {
        reveal_strlit(",");
        assert(out@ =~= dp.take(0));
    }
    while !done
        invariant
            pos <= len - 1,
            len == t@.len(),
            len >= 1,
            t@[len - 1] == '\n',
            dp == deprettify_spec(t@),
            ","@.len() == 1 && ","@[0] == ',',
            !done ==> out@ == dp.take(pos as int),
            done ==> out@ == dp,
        decreases len - pos + (if done {
            0int
        } else {
            1int
        }),
    {
        let mut k: usize = pos;
        while t.get_char(k) != '\n'
            invariant
                pos <= k <= len - 1,
                len == t@.len(),
                len >= 1,
                t@[len - 1] == '\n',
                forall|j: int| pos <= j < k ==> t@[j] != '\n',
            decreases len - 1 - k,
        {
            k = k + 1;
        }
        let ghost pre = out@;
        out.append(t.substring_char(pos, k));
        proof {
            assert(out@ =~= dp.take(k as int));
        }
        if k + 1 == len {
            done = true;
            proof {
                assert(dp.take(k as int) =~= dp);
            }
        } else {
            out.append(",");
            pos = k + 1;
            proof {
                assert(out@ =~= dp.take(k + 1));
            }
        }
    }
    Result::Ok(out)
}

/// The pretty form of a separator-joined value: each item on a line of its
/// own, each line terminated.
pub fn prettify(s: &str) -> (r: String)
    ensures
        r@ == prettify_spec(s@),
{
    let items = safesplit(s, ',');
    let ghost its = items.deep_view();
    let mut out = String::new();
    let mut i: usize = 0;
    proof {
        reveal_strlit("\n");
        assert(its.skip(0) =~= its);
        assert(out@ + join_nl(its.skip(0)) =~= join_nl(its));
    }
    while i < items.len()
        invariant
            i <= its.len(),
            its == items.deep_view(),
            "\n"@ == seq!['\n'],
            out@ + join_nl(its.skip(i as int)) == join_nl(its),
        decreases its.len() - i,
    {
        let ghost pre = out@;
        out.append(items[i].as_str());
        out.append("\n");
        proof {
            assert(its.skip(i as int).first() == its[i as int]);
            assert(its.skip(i as int).drop_first() =~= its.skip(i + 1));
            assert(out@ + join_nl(its.skip(i + 1)) =~= pre + join_nl(its.skip(i as int)));
        }
        i = i + 1;
    }
    proof {
        assert(its.skip(its.len() as int) =~= Seq::<Seq<char>>::empty());
        assert(out@ + join_nl(its.skip(its.len() as int)) =~= out@);
    }
    out
}

/// When the joined pieces hold no occurrence of `c`, no piece does either.
proof fn lemma_join_sep_no_char(items: Seq<Seq<char>>, sep: char, c: char)
    requires
        items.len() >= 1,
        no_char(join_sep(items, sep), c),
    ensures
        forall|i: int| 0 <= i < items.len() ==> no_char(#[trigger] items[i], c),
    decreases items.len(),
{
    let t = join_sep(items, sep);
    if items.len() == 1 {
        assert(items[0] == t);
    } else {
        let rest = items.drop_first();
        let rt = join_sep(rest, sep);
        assert(t == items.first() + seq![sep] + rt);
        assert(no_char(items.first(), c)) by {
            assert forall|k: int| 0 <= k < items.first().len() implies items.first()[k] != c by {
                assert(items.first()[k] == t[k]);
            }
        }
        assert(no_char(rt, c)) by {
            assert forall|k: int| 0 <= k < rt.len() implies rt[k] != c by {
                assert(rt[k] == t[items.first().len() + 1 + k]);
            }
        }
        lemma_join_sep_no_char(rest, sep, c);
        assert forall|i: int| 0 <= i < items.len() implies no_char(#[trigger] items[i], c) by {
            if i > 0 {
                assert(items[i] == rest[i - 1]);
            }
        }
    }
}

/// Whether `c` never occurs in `s`.
pub open spec fn no_char(s: Seq<char>, c: char) -> bool {
    forall|k: int| 0 <= k < s.len() ==> s[k] != c
}

/// Reversing the join of single-line items recovers the separator-joined
/// form.
proof fn lemma_deprettify_join(items: Seq<Seq<char>>)
    requires
        items.len() >= 1,
        forall|i: int| 0 <= i < items.len() ==> no_char(#[trigger] items[i], '\n'),
    ensures
        join_nl(items).len() >= 1,
        join_nl(items).last() == '\n',
        deprettify_spec(join_nl(items)) == join_sep(items, ','),
    decreases items.len(),
{
    let t = join_nl(items);
    if items.len() == 1 {
        assert(t == items.first() + seq!['\n'] + join_nl(items.drop_first()));
        assert(join_nl(items.drop_first()) =~= Seq::<char>::empty());
        assert(deprettify_spec(t) =~= items.first());
        assert(join_sep(items, ',') == items.first());
    } else {
        let rest = items.drop_first();
        lemma_deprettify_join(rest);
        let head = items.first();
        let rt = join_nl(rest);
        assert(t == head + seq!['\n'] + rt);
        assert(t.last() == rt.last());
        assert(deprettify_spec(t) =~= head + seq![','] + deprettify_spec(rt)) by {
            assert forall|j: int|
                0 <= j < t.len() - 1 implies (deprettify_spec(t)[j] == (head + seq![',']
                + deprettify_spec(rt))[j]) by {
                if j < head.len() {
                    assert(t[j] == head[j]);
                } else if j == head.len() {
                    assert(t[j] == '\n');
                } else {
                    assert(t[j] == rt[j - head.len() - 1]);
                }
            }
        }
        assert(join_sep(items, ',') == head + seq![','] + join_sep(rest, ','));
    }
}

/// Deprettifying is the exact inverse of prettifying: a single-line value
/// put into the pretty form and reversed comes back unchanged.
pub proof fn lemma_prettify_roundtrip(s: Seq<char>)
    requires
        no_char(s, '\n'),
    ensures
        deprettify_ok(prettify_spec(s)),
        deprettify_spec(prettify_spec(s)) == s,
{
    let items = safesplit_spec(s, ',');
    lemma_safesplit(s, ',');
    assert(no_char(join_sep(items, ','), '\n'));
    lemma_join_sep_no_char(items, ',', '\n');
    lemma_deprettify_join(items);
}

} // verus!
