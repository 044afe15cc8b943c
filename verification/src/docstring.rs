//! The block parser: classify the normalized lines of a documentation
//! block into paragraphs, an arguments section and a presets section, and
//! build the structured record.

use vstd::prelude::*;
use crate::strutil::{trim, trim_end, trim_end_spec, trim_spec, str_eq};
use crate::text::{
    join_nl, lemma_next_unempty, lemma_next_unempty_is, lemma_scope_rem_len, next_unempty,
    norm_lines_spec, scope_can_yield, scope_end, scope_indent, scope_rem, split_and_dedent,
    yield_line, Dedent, JoinLines, LineIter, VecLineIter,
};
use crate::protect::{
    deprettify, deprettify_ok, deprettify_spec, first_sep, safesplit, safesplit_once,
    safesplit_spec, unprotect, unprotect_spec, FormatError,
};

verus! {

/// The marker line that begins an arguments block.
pub open spec fn args_marker() -> Seq<char> {
    ".. arguments::"@
}

/// The marker line that begins a presets block.
pub open spec fn presets_marker() -> Seq<char> {
    ".. presets::"@
}

/// The record extracted from one documentation block.
pub struct DocString {
    /// The normalized lines joined back with terminators.
    pub doc: String,
    /// The plain paragraphs, separated by single blank lines, trimmed.
    pub text: String,
    /// One entry per argument whose spec line carried a bracketed default.
    pub defaults: Vec<(String, String)>,
    /// One entry per line of an arguments block, in source order.
    pub argdocs: Vec<(String, String)>,
    /// One entry per preset, each with its ordered parameter list.
    pub presets: Vec<(String, Vec<(String, String)>)>,
}

/// A failed parse. Nothing of the record survives a failure.
pub enum ParseError {
    /// A preset's parameter string could not be reversed from its pretty
    /// form.
    Format(FormatError),
    /// A preset parameter carries no unprotected `=`: the offending preset
    /// and the item, with its protection removed.
    MissingValue { preset: String, item: String },
}

/// The mathematical form of the record.
pub ghost struct SpecDoc {
    pub body: Seq<char>,
    pub defaults: Seq<(Seq<char>, Seq<char>)>,
    pub argdocs: Seq<(Seq<char>, Seq<char>)>,
    pub presets: Seq<(Seq<char>, Seq<(Seq<char>, Seq<char>)>)>,
}

/// The mathematical form of a failure.
pub ghost enum SpecErr {
    Format,
    MissingValue(Seq<char>, Seq<char>),
}

/// The outcome of parsing a run of blocks.
pub ghost enum ParseOut {
    Done(SpecDoc),
    Failed(SpecErr),
}

/// The first position at or after `i` where a space followed by an opening
/// bracket occurs.
pub open spec fn find_default(a: Seq<char>, i: int) -> Option<int>
    decreases a.len() - i,
{
    if i < 0 || i + 1 >= a.len() {
        Option::None
    } else if a[i] == ' ' && a[i + 1] == '[' {
        Option::Some(i)
    } else {
        find_default(a, i + 1)
    }
}

pub proof fn lemma_find_default(a: Seq<char>, i: int)
    requires
        0 <= i,
    ensures
        match find_default(a, i) {
            Option::Some(k) => i <= k && k + 1 < a.len() && a[k] == ' ' && a[k + 1] == '['
                && forall|j: int| i <= j < k ==> !(#[trigger] a[j] == ' ' && a[j + 1] == '['),
            Option::None => forall|j: int|
                i <= j && j + 1 < a.len() ==> !(#[trigger] a[j] == ' ' && a[j + 1] == '['),
        },
    decreases a.len() - i,
{
    if i + 1 < a.len() && !(a[i] == ' ' && a[i + 1] == '[') {
        lemma_find_default(a, i + 1);
    }
}

/// Whether a trimmed argument spec line carries a bracketed default.
pub open spec fn has_default(a: Seq<char>) -> bool {
    find_default(a, 0) is Some && a.len() >= 1 && a.last() == ']'
}

/// The argument name of a trimmed argument spec line: everything before
/// the bracketed default, or the whole line.
pub open spec fn arg_name_spec(a: Seq<char>) -> Seq<char> {
    if has_default(a) {
        a.take(find_default(a, 0)->Some_0)
    } else {
        a
    }
}

/// The default literal of a trimmed argument spec line.
pub open spec fn arg_default_spec(a: Seq<char>) -> Seq<char> {
    a.subrange(find_default(a, 0)->Some_0 + 2, a.len() - 1)
}

/// What an arguments block yields: defaults, per-argument descriptions,
/// and the position where the block ends.
pub ghost struct ArgsOut {
    pub defaults: Seq<(Seq<char>, Seq<char>)>,
    pub argdocs: Seq<(Seq<char>, Seq<char>)>,
    pub end: int,
}

/// Parse an arguments block: while the scope of indentation `d` standing
/// at `i` yields a line, that line (trimmed) is an argument spec, and the
/// sub-block indented at least two more holds its description.
pub open spec fn parse_args_at(ls: Seq<Seq<char>>, i: int, d: nat) -> ArgsOut
    decreases ls.len() - i,
        via parse_args_at_dec
{
    if !scope_can_yield(ls, i, d) {
        ArgsOut { defaults: Seq::empty(), argdocs: Seq::empty(), end: i }
    } else {
        let a = trim_spec(yield_line(ls, i, d));
        let name = arg_name_spec(a);
        let d2 = (d + scope_indent(ls, i + 1, d, 2)) as nat;
        let j = next_unempty(ls, i + 1);
        let desc = trim_end_spec(join_nl(scope_rem(ls, j, d2)));
        let i2 = scope_end(ls, j, d2);
        let rest = parse_args_at(ls, i2, d);
        ArgsOut {
            defaults: (if has_default(a) {
                seq![(name, arg_default_spec(a))]
            } else {
                Seq::empty()
            }) + rest.defaults,
            argdocs: seq![(name, desc)] + rest.argdocs,
            end: rest.end,
        }
    }
}

#[via_fn]
proof fn parse_args_at_dec(ls: Seq<Seq<char>>, i: int, d: nat) {
    if scope_can_yield(ls, i, d) {
        lemma_scope_step(ls, i, d);
    }
}

/// Inside a scope that can yield at `i`, the nested description scope ends
/// past `i` and within the lines.
pub proof fn lemma_scope_step(ls: Seq<Seq<char>>, i: int, d: nat)
    requires
        scope_can_yield(ls, i, d),
    ensures
        0 <= i < ls.len(),
        ({
            let d2 = (d + scope_indent(ls, i + 1, d, 2)) as nat;
            let j = next_unempty(ls, i + 1);
            i + 1 <= j <= ls.len() && j <= scope_end(ls, j, d2) <= ls.len()
        }),
{
    lemma_next_unempty(ls, i);
    if i >= ls.len() {
        assert(next_unempty(ls, i) == i);
    }
    lemma_next_unempty(ls, i + 1);
    let d2 = (d + scope_indent(ls, i + 1, d, 2)) as nat;
    let j = next_unempty(ls, i + 1);
    lemma_scope_rem_len(ls, j, d2);
}

/// The outcome of a presets block.
pub ghost enum PresetsOut {
    Done(Seq<(Seq<char>, Seq<(Seq<char>, Seq<char>)>)>, int),
    Failed(SpecErr),
}

/// Parse one preset's parameter items: each must carry an unprotected `=`;
/// key and value lose their protection. The first item without one fails
/// the parse, naming the preset and the unprotected item.
pub open spec fn parse_params_spec(items: Seq<Seq<char>>, preset: Seq<char>) -> Result<
    Seq<(Seq<char>, Seq<char>)>,
    SpecErr,
>
    decreases items.len(),
{
    if items.len() == 0 {
        Result::Ok(Seq::empty())
    } else {
        let it = items.first();
        match first_sep(it, '=', 0) {
            Option::Some(k) => match parse_params_spec(items.drop_first(), preset) {
                Result::Ok(rest) => Result::Ok(
                    seq![(unprotect_spec(it.take(k)), unprotect_spec(it.skip(k + 1)))] + rest,
                ),
                Result::Err(e) => Result::Err(e),
            },
            Option::None => Result::Err(SpecErr::MissingValue(preset, unprotect_spec(it))),
        }
    }
}

/// Parse a presets block: each yielded line (trimmed) names a preset, the
/// sub-block under it is joined, reversed from its pretty form, and split
/// into `key=value` items at unprotected commas.
pub open spec fn parse_presets_at(ls: Seq<Seq<char>>, i: int, d: nat) -> PresetsOut
    decreases ls.len() - i,
        via parse_presets_at_dec
{
    if !scope_can_yield(ls, i, d) {
        PresetsOut::Done(Seq::empty(), i)
    } else {
        let name = trim_spec(yield_line(ls, i, d));
        let d2 = (d + scope_indent(ls, i + 1, d, 2)) as nat;
        let j = next_unempty(ls, i + 1);
        let ptext = join_nl(scope_rem(ls, j, d2));
        let i2 = scope_end(ls, j, d2);
        if !deprettify_ok(ptext) {
            PresetsOut::Failed(SpecErr::Format)
        } else {
            let items = safesplit_spec(deprettify_spec(ptext), ',');
            match parse_params_spec(items, name) {
                Result::Err(e) => PresetsOut::Failed(e),
                Result::Ok(params) => match parse_presets_at(ls, i2, d) {
                    PresetsOut::Done(rest, end) => PresetsOut::Done(
                        seq![(name, params)] + rest,
                        end,
                    ),
                    PresetsOut::Failed(e) => PresetsOut::Failed(e),
                },
            }
        }
    }
}

#[via_fn]
proof fn parse_presets_at_dec(ls: Seq<Seq<char>>, i: int, d: nat) {
    if scope_can_yield(ls, i, d) {
        lemma_scope_step(ls, i, d);
    }
}

/// Where an arguments block ends, within the lines.
pub proof fn lemma_parse_args_end(ls: Seq<Seq<char>>, i: int, d: nat)
    requires
        0 <= i <= ls.len(),
    ensures
        i <= parse_args_at(ls, i, d).end <= ls.len(),
    decreases ls.len() - i,
{
    if scope_can_yield(ls, i, d) {
        lemma_scope_step(ls, i, d);
        let d2 = (d + scope_indent(ls, i + 1, d, 2)) as nat;
        let j = next_unempty(ls, i + 1);
        lemma_parse_args_end(ls, scope_end(ls, j, d2), d);
    }
}

/// Where a presets block ends, within the lines, when it succeeds.
pub proof fn lemma_parse_presets_end(ls: Seq<Seq<char>>, i: int, d: nat)
    requires
        0 <= i <= ls.len(),
    ensures
        match parse_presets_at(ls, i, d) {
            PresetsOut::Done(ps, end) => i <= end <= ls.len(),
            PresetsOut::Failed(e) => true,
        },
    decreases ls.len() - i,
{
    if scope_can_yield(ls, i, d) {
        lemma_scope_step(ls, i, d);
        let d2 = (d + scope_indent(ls, i + 1, d, 2)) as nat;
        let j = next_unempty(ls, i + 1);
        lemma_parse_presets_end(ls, scope_end(ls, j, d2), d);
    }
}

/// The position right after the run of non-empty lines starting at `i`.
pub open spec fn para_end(ls: Seq<Seq<char>>, i: int) -> int
    decreases ls.len() - i,
{
    if 0 <= i < ls.len() && ls[i].len() > 0 {
        para_end(ls, i + 1)
    } else {
        i
    }
}

/// Converse characterization of `para_end`: a run of non-empty lines from
/// `i` up to `n`, ended by an empty line or the end, pins it to `n`.
pub proof fn lemma_para_end_is(ls: Seq<Seq<char>>, i: int, n: int)
    requires
        0 <= i <= n <= ls.len(),
        forall|j: int| i <= j < n ==> ls[j].len() > 0,
        n == ls.len() || ls[n].len() == 0,
    ensures
        para_end(ls, i) == n,
    decreases n - i,
{
    if i < n {
        lemma_para_end_is(ls, i + 1, n);
    }
}

pub proof fn lemma_para_end(ls: Seq<Seq<char>>, i: int)
    requires
        0 <= i <= ls.len(),
    ensures
        i <= para_end(ls, i) <= ls.len(),
        forall|j: int| i <= j < para_end(ls, i) ==> ls[j].len() > 0,
        para_end(ls, i) < ls.len() ==> ls[para_end(ls, i)].len() == 0,
    decreases ls.len() - i,
{
    if 0 <= i < ls.len() && ls[i].len() > 0 {
        lemma_para_end(ls, i + 1);
    }
}

/// One paragraph: its lines joined, each with a terminator.
pub open spec fn para_text(ls: Seq<Seq<char>>, i: int) -> Seq<char> {
    join_nl(ls.subrange(i, para_end(ls, i)))
}

/// Two pieces of body text joined by one blank separator line, empty
/// pieces dropped.
pub open spec fn body_cat(a: Seq<char>, b: Seq<char>) -> Seq<char> {
    if a.len() == 0 {
        b
    } else if b.len() == 0 {
        a
    } else {
        a + seq!['\n'] + b
    }
}

pub proof fn lemma_body_cat_assoc(a: Seq<char>, b: Seq<char>, c: Seq<char>)
    ensures
        body_cat(body_cat(a, b), c) == body_cat(a, body_cat(b, c)),
{
    if a.len() > 0 && b.len() > 0 && c.len() > 0 {
        assert(body_cat(body_cat(a, b), c) =~= body_cat(a, body_cat(b, c)));
    }
}

/// Parse the run of blocks from position `i`: skip empty lines, classify
/// the next non-empty line, and recurse past the block it opens. The body
/// here is the raw concatenation; the record trims it at the end.
pub open spec fn parse_at(ls: Seq<Seq<char>>, i: int) -> ParseOut
    decreases ls.len() - i,
        via parse_at_dec
{
    let j = next_unempty(ls, i);
    if !(0 <= i && j < ls.len()) {
        ParseOut::Done(
            SpecDoc {
                body: Seq::empty(),
                defaults: Seq::empty(),
                argdocs: Seq::empty(),
                presets: Seq::empty(),
            },
        )
    } else {
        let line = ls[j];
        if line == args_marker() {
            let d = scope_indent(ls, j + 1, 0, 3);
            let jj = next_unempty(ls, j + 1);
            let a = parse_args_at(ls, jj, d);
            match parse_at(ls, a.end) {
                ParseOut::Done(rest) => ParseOut::Done(
                    SpecDoc {
                        body: rest.body,
                        defaults: a.defaults + rest.defaults,
                        argdocs: a.argdocs + rest.argdocs,
                        presets: rest.presets,
                    },
                ),
                ParseOut::Failed(e) => ParseOut::Failed(e),
            }
        } else if line == presets_marker() {
            let d = scope_indent(ls, j + 1, 0, 3);
            let jj = next_unempty(ls, j + 1);
            match parse_presets_at(ls, jj, d) {
                PresetsOut::Failed(e) => ParseOut::Failed(e),
                PresetsOut::Done(ps, end) => match parse_at(ls, end) {
                    ParseOut::Done(rest) => ParseOut::Done(
                        SpecDoc {
                            body: rest.body,
                            defaults: rest.defaults,
                            argdocs: rest.argdocs,
                            presets: ps + rest.presets,
                        },
                    ),
                    ParseOut::Failed(e) => ParseOut::Failed(e),
                },
            }
        } else {
            let e = para_end(ls, j);
            match parse_at(ls, e) {
                ParseOut::Done(rest) => ParseOut::Done(
                    SpecDoc {
                        body: body_cat(para_text(ls, j), rest.body),
                        defaults: rest.defaults,
                        argdocs: rest.argdocs,
                        presets: rest.presets,
                    },
                ),
                ParseOut::Failed(e2) => ParseOut::Failed(e2),
            }
        }
    }
}

#[via_fn]
proof fn parse_at_dec(ls: Seq<Seq<char>>, i: int) {
    let j = next_unempty(ls, i);
    if 0 <= i && j < ls.len() {
        lemma_next_unempty(ls, i);
        let d = scope_indent(ls, j + 1, 0, 3);
        let jj = next_unempty(ls, j + 1);
        lemma_next_unempty(ls, j + 1);
        lemma_parse_args_end(ls, jj, d);
        lemma_parse_presets_end(ls, jj, d);
        lemma_para_end(ls, j);
    }
}

pub proof fn lemma_join_nl_push(ls: Seq<Seq<char>>, x: Seq<char>)
    ensures
        join_nl(ls.push(x)) == join_nl(ls) + x + seq!['\n'],
    decreases ls.len(),
{
    let p = ls.push(x);
    assert(p.len() == ls.len() + 1);
    assert(join_nl(p) == p.first() + seq!['\n'] + join_nl(p.drop_first()));
    if ls.len() == 0 {
        assert(p.first() == x);
        assert(p.drop_first() =~= Seq::<Seq<char>>::empty());
        assert(join_nl(p.drop_first()) == Seq::<char>::empty());
        assert(join_nl(ls) == Seq::<char>::empty());
        assert(x + seq!['\n'] + join_nl(p.drop_first()) =~= join_nl(ls) + x + seq!['\n']);
    } else {
        assert(p.first() == ls.first());
        assert(p.drop_first() =~= ls.drop_first().push(x));
        lemma_join_nl_push(ls.drop_first(), x);
        assert(join_nl(ls) == ls.first() + seq!['\n'] + join_nl(ls.drop_first()));
        assert(ls.first() + seq!['\n'] + (join_nl(ls.drop_first()) + x + seq!['\n']) =~= join_nl(
            ls,
        ) + x + seq!['\n']);
    }
}

/// What already-collected pieces and the outcome of the remaining lines
/// make together.
pub open spec fn combine(
    defs: Seq<(Seq<char>, Seq<char>)>,
    docs: Seq<(Seq<char>, Seq<char>)>,
    pres: Seq<(Seq<char>, Seq<(Seq<char>, Seq<char>)>)>,
    text: Seq<char>,
    rest: ParseOut,
) -> ParseOut {
    match rest {
        ParseOut::Done(sd) => ParseOut::Done(
            SpecDoc {
                body: body_cat(text, sd.body),
                defaults: defs + sd.defaults,
                argdocs: docs + sd.argdocs,
                presets: pres + sd.presets,
            },
        ),
        ParseOut::Failed(e) => ParseOut::Failed(e),
    }
}

/// Combining nothing changes nothing.
pub proof fn lemma_combine_empty(rest: ParseOut)
    ensures
        combine(Seq::empty(), Seq::empty(), Seq::empty(), Seq::empty(), rest) == rest,
{
    match rest {
        ParseOut::Done(sd) => {
            assert(Seq::empty() + sd.defaults =~= sd.defaults);
            assert(Seq::empty() + sd.argdocs =~= sd.argdocs);
            assert(Seq::empty() + sd.presets =~= sd.presets);
        },
        ParseOut::Failed(e) => {
        },
    }
}

/// Combining is associative: collecting two runs of pieces one after the
/// other is collecting their concatenation.
pub proof fn lemma_combine_assoc(
    d1: Seq<(Seq<char>, Seq<char>)>,
    a1: Seq<(Seq<char>, Seq<char>)>,
    p1: Seq<(Seq<char>, Seq<(Seq<char>, Seq<char>)>)>,
    t1: Seq<char>,
    d2: Seq<(Seq<char>, Seq<char>)>,
    a2: Seq<(Seq<char>, Seq<char>)>,
    p2: Seq<(Seq<char>, Seq<(Seq<char>, Seq<char>)>)>,
    t2: Seq<char>,
    rest: ParseOut,
)
    ensures
        combine(d1, a1, p1, t1, combine(d2, a2, p2, t2, rest)) == combine(
            d1 + d2,
            a1 + a2,
            p1 + p2,
            body_cat(t1, t2),
            rest,
        ),
{
    match rest {
        ParseOut::Done(sd) => {
            assert(d1 + (d2 + sd.defaults) =~= (d1 + d2) + sd.defaults);
            assert(a1 + (a2 + sd.argdocs) =~= (a1 + a2) + sd.argdocs);
            assert(p1 + (p2 + sd.presets) =~= (p1 + p2) + sd.presets);
            lemma_body_cat_assoc(t1, t2, sd.body);
        },
        ParseOut::Failed(e) => {
        },
    }
}

/// Two consecutive paragraphs separated by one blank line produce a body
/// that is the first paragraph's terminated lines, one blank separator
/// line, and the second paragraph's terminated lines; the record trims the
/// trailing terminator off.
pub proof fn lemma_two_paragraphs(ls: Seq<Seq<char>>, k: int)
    requires
        0 < k < ls.len() - 1,
        forall|i: int| 0 <= i < ls.len() && i != k ==> (#[trigger] ls[i]).len() > 0,
        ls[k].len() == 0,
        forall|i: int|
            0 <= i < ls.len() ==> #[trigger] ls[i] != args_marker() && ls[i] != presets_marker(),
    ensures
        parse_at(ls, 0) == ParseOut::Done(
            SpecDoc {
                body: join_nl(ls.take(k)) + seq!['\n'] + join_nl(ls.skip(k + 1)),
                defaults: Seq::empty(),
                argdocs: Seq::empty(),
                presets: Seq::empty(),
            },
        ),
{
    let len = ls.len() as int;
    lemma_next_unempty_is(ls, 0, 0);
    lemma_para_end_is(ls, 0, k);
    lemma_next_unempty_is(ls, k, k + 1);
    lemma_para_end_is(ls, k + 1, len);
    lemma_next_unempty_is(ls, len, len);
    let p1 = para_text(ls, 0);
    let p2 = para_text(ls, k + 1);
    assert(ls.subrange(0, k) =~= ls.take(k));
    assert(ls.subrange(k + 1, len) =~= ls.skip(k + 1));
    assert(parse_at(ls, len) == ParseOut::Done(
        SpecDoc {
            body: Seq::empty(),
            defaults: Seq::empty(),
            argdocs: Seq::empty(),
            presets: Seq::empty(),
        },
    ));
    assert(join_nl(ls.take(k)).len() >= 1);
    assert(join_nl(ls.skip(k + 1)).len() >= 1);
    assert(body_cat(p2, Seq::empty()) == p2);
    assert(parse_at(ls, k) == ParseOut::Done(
        SpecDoc {
            body: p2,
            defaults: Seq::empty(),
            argdocs: Seq::empty(),
            presets: Seq::empty(),
        },
    ));
    assert(body_cat(p1, p2) == join_nl(ls.take(k)) + seq!['\n'] + join_nl(ls.skip(k + 1)));
}

/// Scan a trimmed argument spec for the opening of a bracketed default.
fn find_default_exec(a: &str) -> (r: Option<usize>)
    ensures
        match r {
            Option::Some(k) => find_default(a@, 0) == Option::Some(k as int),
            Option::None => find_default(a@, 0) is None,
        },
{
    let len: usize = a.unicode_len();
    let lim: usize = if len == 0 {
        0
    } else {
        len - 1
    };
    let mut k: usize = 0;
    while k < lim
        invariant
            k <= lim,
            lim <= len,
            len == 0 || lim == len - 1,
            len == a@.len(),
            forall|j: int| 0 <= j < k ==> !(#[trigger] a@[j] == ' ' && a@[j + 1] == '['),
        decreases lim - k,
    {
        if a.get_char(k) == ' ' && a.get_char(k + 1) == '[' {
            proof {
                lemma_find_default(a@, 0);
            }
            return Option::Some(k);
        }
        k = k + 1;
    }
    proof {
        lemma_find_default(a@, 0);
    }
    Option::None
}

/// Parse one preset's parameter items, as split at unprotected commas.
fn run_params(items: &Vec<String>, preset: &str) -> (r: Result<Vec<(String, String)>, ParseError>)
    ensures
        ({
            let sr = parse_params_spec(items.deep_view(), preset@);
            match r {
                Result::Ok(ps) => sr is Ok && ps.deep_view() == sr->Ok_0,
                Result::Err(pe) => sr is Err && match pe {
                    ParseError::MissingValue { preset: bp, item: bi } => sr->Err_0
                        == SpecErr::MissingValue(bp@, bi@),
                    ParseError::Format(f) => false,
                },
            }
        }),
{
    let ghost its = items.deep_view();
    let ghost full = parse_params_spec(its, preset@);
    let mut ps: Vec<(String, String)> = Vec::new();
    let mut i: usize = 0;
    proof {
        assert(its.skip(0) =~= its);
    }
    while i < items.len()
        invariant
            i <= its.len(),
            its == items.deep_view(),
            full == parse_params_spec(its, preset@),
            ({
                match parse_params_spec(its.skip(i as int), preset@) {
                    Result::Ok(rest) => full == Result::<
                        Seq<(Seq<char>, Seq<char>)>,
                        SpecErr,
                    >::Ok(ps.deep_view() + rest),
                    Result::Err(e) => full == Result::<Seq<(Seq<char>, Seq<char>)>, SpecErr>::Err(
                        e,
                    ),
                }
            }),
        decreases its.len() - i,
    {
        let ghost cur = its.skip(i as int);
        proof {
            assert(cur.first() == its[i as int]);
            assert(cur.drop_first() =~= its.skip(i + 1));
        }
        match safesplit_once(items[i].as_str(), '=') {
            Result::Ok(kv) => {
                let key = unprotect(kv.0.as_str());
                let val = unprotect(kv.1.as_str());
                let ghost pre = ps.deep_view();
                ps.push((key.to_owned(), val.to_owned()));
                proof {
                    assert(ps.deep_view() =~= pre.push((key@, val@)));
                    match parse_params_spec(its.skip(i + 1), preset@) {
                        Result::Ok(rest) => {
                            assert(pre + (seq![(key@, val@)] + rest) =~= ps.deep_view() + rest);
                        },
                        Result::Err(e) => {
                        },
                    }
                }
            },
            Result::Err(nf) => {
                let it_un = unprotect(items[i].as_str());
                return Result::Err(
                    ParseError::MissingValue { preset: preset.to_owned(), item: it_un.to_owned() },
                );
            },
        }
        i = i + 1;
    }
    proof {
        assert(its.skip(its.len() as int) =~= Seq::<Seq<char>>::empty());
        assert(ps.deep_view() + Seq::<(Seq<char>, Seq<char>)>::empty() =~= ps.deep_view());
    }
    Result::Ok(ps)
}

/// Run the argument-block handler over an open scope: each yielded line is
/// one argument spec, the sub-block under it the argument's description.
fn run_args<I: LineIter>(
    sc: Dedent<I>,
    defaults: &mut Vec<(String, String)>,
    argdocs: &mut Vec<(String, String)>,
) -> (r: Dedent<I>)
    requires
        sc.wf(),
    ensures
        r.wf(),
        r.lines() == sc.lines(),
        r.depth() == sc.depth(),
        r.pos() == parse_args_at(sc.lines(), sc.pos(), sc.depth()).end,
        final(defaults).deep_view() == old(defaults).deep_view() + parse_args_at(
            sc.lines(),
            sc.pos(),
            sc.depth(),
        ).defaults,
        final(argdocs).deep_view() == old(argdocs).deep_view() + parse_args_at(
            sc.lines(),
            sc.pos(),
            sc.depth(),
        ).argdocs,
{
    let ghost ls = sc.lines();
    let ghost d = sc.depth();
    let ghost p0 = sc.pos();
    let ghost full = parse_args_at(ls, p0, d);
    let mut sc = sc;
    proof {
        sc.lemma_wf();
    }
    let mut done: bool = false;
    while !done
        invariant
            sc.wf(),
            sc.lines() == ls,
            sc.depth() == d,
            0 <= sc.pos() <= ls.len(),
            full == parse_args_at(ls, p0, d),
            defaults.deep_view() + parse_args_at(ls, sc.pos(), d).defaults == old(
                defaults,
            ).deep_view() + full.defaults,
            argdocs.deep_view() + parse_args_at(ls, sc.pos(), d).argdocs == old(
                argdocs,
            ).deep_view() + full.argdocs,
            parse_args_at(ls, sc.pos(), d).end == full.end,
            done ==> !scope_can_yield(ls, sc.pos(), d),
        decreases ls.len() - sc.pos() + (if done {
            0int
        } else {
            1int
        }),
    {
        let ghost i = sc.pos();
        let n = sc.next();
        match n {
            Option::None => {
                done = true;
            },
            Option::Some(line) => {
                proof {
                    lemma_scope_step(ls, i, d);
                }
                let ghost aspec = trim_spec(yield_line(ls, i, d));
                let a = trim(line.as_str());
                let alen: usize = a.unicode_len();
                let ghost pred = defaults.deep_view();
                let fd = find_default_exec(a);
                let name: &str = match fd {
                    Option::Some(k) => {
                        if alen >= 1 && a.get_char(alen - 1) == ']' {
                            proof {
                                lemma_find_default(a@, 0);
                            }
                            let dflt = a.substring_char(k + 2, alen - 1);
                            let nm = a.substring_char(0, k);
                            defaults.push((nm.to_owned(), dflt.to_owned()));
                            proof {
                                assert(nm@ =~= arg_name_spec(aspec));
                                assert(dflt@ =~= arg_default_spec(aspec));
                                assert(defaults.deep_view() =~= pred.push(
                                    (arg_name_spec(aspec), arg_default_spec(aspec)),
                                ));
                            }
                            nm
                        } else {
                            a
                        }
                    },
                    Option::None => a,
                };
                proof {
                    assert(name@ == arg_name_spec(aspec));
                    if has_default(aspec) {
                        assert(defaults.deep_view() == pred.push(
                            (arg_name_spec(aspec), arg_default_spec(aspec)),
                        ));
                    } else {
                        assert(defaults.deep_view() == pred);
                    }
                }
                let mut inner = sc.dedent(2);
                let draw = crate::text::join_scope(&mut inner);
                sc = inner.finish();
                let desc = trim_end(draw.as_str());
                let ghost prea = argdocs.deep_view();
                argdocs.push((name.to_owned(), desc.to_owned()));
                proof {
                    let d2 = (d + scope_indent(ls, i + 1, d, 2)) as nat;
                    let j = next_unempty(ls, i + 1);
                    let i2 = scope_end(ls, j, d2);
                    assert(sc.pos() == i2);
                    assert(sc.depth() == d);
                    assert(desc@ == trim_end_spec(join_nl(scope_rem(ls, j, d2))));
                    assert(argdocs.deep_view() =~= prea.push((arg_name_spec(aspec), desc@)));
                    let step = parse_args_at(ls, i, d);
                    let rest = parse_args_at(ls, i2, d);
                    let x = (arg_name_spec(aspec), arg_default_spec(aspec));
                    if has_default(aspec) {
                        assert(seq![x] + rest.defaults =~= step.defaults);
                        assert(pred.push(x) + rest.defaults =~= pred + (seq![x] + rest.defaults));
                        assert(defaults.deep_view() + rest.defaults =~= pred + step.defaults);
                    } else {
                        assert(step.defaults =~= rest.defaults);
                        assert(defaults.deep_view() + rest.defaults =~= pred + step.defaults);
                    }
                    assert(argdocs.deep_view() + rest.argdocs =~= prea + step.argdocs) by {
                        assert(seq![(arg_name_spec(aspec), desc@)] + rest.argdocs =~= step.argdocs);
                        assert(prea.push((arg_name_spec(aspec), desc@)) + rest.argdocs =~= prea + (
                        seq![(arg_name_spec(aspec), desc@)] + rest.argdocs));
                    }
                }
            },
        }
    }
    proof {
        assert(defaults.deep_view() + Seq::<(Seq<char>, Seq<char>)>::empty() =~= defaults.deep_view());
        assert(argdocs.deep_view() + Seq::<(Seq<char>, Seq<char>)>::empty() =~= argdocs.deep_view());
    }
    sc
}

/// Run the preset-block handler over an open scope: each yielded line
/// names a preset, the sub-block under it holds its parameter string.
fn run_presets<I: LineIter>(
    sc: Dedent<I>,
    presets: &mut Vec<(String, Vec<(String, String)>)>,
) -> (r: Result<Dedent<I>, ParseError>)
    requires
        sc.wf(),
    ensures
        ({
            let po = parse_presets_at(sc.lines(), sc.pos(), sc.depth());
            match r {
                Result::Ok(nsc) => match po {
                    PresetsOut::Done(ps, end) => nsc.wf() && nsc.lines() == sc.lines()
                        && nsc.depth() == sc.depth() && nsc.pos() == end
                        && final(presets).deep_view() == old(presets).deep_view() + ps,
                    PresetsOut::Failed(e) => false,
                },
                Result::Err(pe) => match po {
                    PresetsOut::Done(ps, end) => false,
                    PresetsOut::Failed(e) => err_matches(pe, e),
                },
            }
        }),
{
    let ghost ls = sc.lines();
    let ghost d = sc.depth();
    let ghost p0 = sc.pos();
    let ghost full = parse_presets_at(ls, p0, d);
    let mut sc = sc;
    proof {
        sc.lemma_wf();
    }
    let mut done: bool = false;
    while !done
        invariant
            sc.wf(),
            sc.lines() == ls,
            sc.depth() == d,
            0 <= sc.pos() <= ls.len(),
            full == parse_presets_at(ls, p0, d),
            ({
                match (parse_presets_at(ls, sc.pos(), d), full) {
                    (PresetsOut::Done(ps2, e2), PresetsOut::Done(psf, ef)) => presets.deep_view()
                        + ps2 == old(presets).deep_view() + psf && e2 == ef,
                    (PresetsOut::Failed(e2), PresetsOut::Failed(ef)) => e2 == ef,
                    (PresetsOut::Failed(e2), PresetsOut::Done(psf, ef)) => false,
                    (PresetsOut::Done(ps2, e2), PresetsOut::Failed(ef)) => false,
                }
            }),
            done ==> !scope_can_yield(ls, sc.pos(), d),
        decreases ls.len() - sc.pos() + (if done {
            0int
        } else {
            1int
        }),
    {
        let ghost i = sc.pos();
        let n = sc.next();
        match n {
            Option::None => {
                done = true;
            },
            Option::Some(line) => {
                proof {
                    lemma_scope_step(ls, i, d);
                }
                let ghost namespec = trim_spec(yield_line(ls, i, d));
                let name = trim(line.as_str());
                let mut inner = sc.dedent(2);
                let draw = crate::text::join_scope(&mut inner);
                sc = inner.finish();
                proof {
                    let d2 = (d + scope_indent(ls, i + 1, d, 2)) as nat;
                    let j = next_unempty(ls, i + 1);
                    assert(sc.pos() == scope_end(ls, j, d2));
                    assert(sc.depth() == d);
                    assert(draw@ == join_nl(scope_rem(ls, j, d2)));
                }
                match deprettify(draw.as_str()) {
                    Result::Err(f) => {
                        return Result::Err(ParseError::Format(f));
                    },
                    Result::Ok(pstring) => {
                        let items = safesplit(pstring.as_str(), ',');
                        match run_params(&items, name) {
                            Result::Err(pe) => {
                                return Result::Err(pe);
                            },
                            Result::Ok(params) => {
                                let ghost prep = presets.deep_view();
                                presets.push((name.to_owned(), params));
                                proof {
                                    let step = parse_presets_at(ls, i, d);
                                    assert(presets.deep_view() =~= prep.push(
                                        (namespec, params.deep_view()),
                                    ));
                                    match (parse_presets_at(ls, sc.pos(), d), step) {
                                        (
                                            PresetsOut::Done(ps2, e2),
                                            PresetsOut::Done(pss, es),
                                        ) => {
                                            assert(seq![(namespec, params.deep_view())] + ps2
                                                =~= pss);
                                            assert(prep.push((namespec, params.deep_view())) + ps2
                                                =~= prep + pss);
                                        },
                                        _ => {
                                        },
                                    }
                                }
                            },
                        }
                    },
                }
            },
        }
    }
    proof {
        assert(presets.deep_view() + Seq::<(Seq<char>, Seq<(Seq<char>, Seq<char>)>)>::empty()
            =~= presets.deep_view());
    }
    Result::Ok(sc)
}

/// Whether an error value carries the same content as its mathematical
/// form.
pub open spec fn err_matches(pe: ParseError, e: SpecErr) -> bool {
    match (pe, e) {
        (ParseError::Format(f), SpecErr::Format) => true,
        (ParseError::MissingValue { preset, item }, SpecErr::MissingValue(p, it)) => preset@ == p
            && item@ == it,
        _ => false,
    }
}

/// Copy one paragraph: the run of non-empty lines at the cursor goes into
/// the body text, each line terminated, preceded by a blank separator line
/// when body text was already collected.
fn run_para<'a>(it: VecLineIter<'a>, text: &mut String) -> (r: VecLineIter<'a>)
    requires
        it.wf(),
        0 <= it.pos() < it.lines().len(),
        it.lines()[it.pos()].len() > 0,
    ensures
        r.wf(),
        r.lines() == it.lines(),
        r.pos() == para_end(it.lines(), it.pos()),
        final(text)@ == body_cat(old(text)@, para_text(it.lines(), it.pos())),
{
    let ghost norm = it.lines();
    let ghost j = it.pos();
    let ghost t0 = text@;
    let mut it = it;
    proof {
        lemma_para_end(norm, j);
        reveal_strlit("\n");
    }
    let ghost e = para_end(norm, j);
    if !text.as_str().is_empty() {
        text.append("\n");
    }
    let ghost tbase = text@;
    let mut done2: bool = false;
    while !done2
        invariant
            it.wf(),
            it.lines() == norm,
            j <= it.pos() <= e,
            e == para_end(norm, j),
            e <= norm.len(),
            forall|q: int| j <= q < e ==> norm[q].len() > 0,
            e < norm.len() ==> norm[e].len() == 0,
            "\n"@ == seq!['\n'],
            text@ == tbase + join_nl(norm.subrange(j, it.pos())),
            done2 ==> it.pos() == e,
        decreases e - it.pos() + (if done2 {
            0int
        } else {
            1int
        }),
    {
        let ghost pc = it.pos();
        let n2 = it.next_if_unempty();
        match n2 {
            Option::None => {
                done2 = true;
            },
            Option::Some(l) => {
                text.append(l.as_str());
                text.append("\n");
                proof {
                    assert(l@ =~= norm[pc]);
                    assert(norm.subrange(j, pc).push(norm[pc]) =~= norm.subrange(j, pc + 1));
                    lemma_join_nl_push(norm.subrange(j, pc), norm[pc]);
                    assert(text@ =~= tbase + join_nl(norm.subrange(j, pc + 1)));
                }
            },
        }
    }
    proof {
        assert(text@ == tbase + join_nl(norm.subrange(j, e)));
        assert(norm.subrange(j, e).len() >= 1);
        assert(join_nl(norm.subrange(j, e)).len() >= 1);
        let para = para_text(norm, j);
        if t0.len() == 0 {
            assert(tbase =~= Seq::<char>::empty());
            assert(text@ =~= para);
        } else {
            assert(tbase =~= t0 + seq!['\n']);
            assert(text@ =~= t0 + seq!['\n'] + para);
        }
        assert(text@ == body_cat(t0, para));
    }
    it
}

impl DocString {
    /// Parse one documentation block: normalize its lines, then classify
    /// each block as a paragraph, an arguments block or a presets block,
    /// and build the record. Fails exactly when a presets block does, with
    /// the failing preset's content.
    #[verifier::rlimit(100)]
    pub fn new(doc: &str) -> (r: Result<DocString, ParseError>)
        ensures
            ({
                let norm = norm_lines_spec(doc@);
                match r {
                    Result::Ok(ds) => match parse_at(norm, 0) {
                        ParseOut::Done(sd) => ds.doc@ == join_nl(norm) && ds.text@ == trim_spec(
                            sd.body,
                        ) && ds.defaults.deep_view() == sd.defaults && ds.argdocs.deep_view()
                            == sd.argdocs && ds.presets.deep_view() == sd.presets,
                        ParseOut::Failed(e) => false,
                    },
                    Result::Err(pe) => match parse_at(norm, 0) {
                        ParseOut::Done(sd) => false,
                        ParseOut::Failed(e) => err_matches(pe, e),
                    },
                }
            }),
    {
        let lines = split_and_dedent(doc);
        let ghost norm = lines.deep_view();
        proof {
            crate::text::lemma_norm_lines_trimmed(doc@);
            reveal_strlit("\n");
            assert(norm.skip(0) =~= norm);
        }
        let mut joiner = VecLineIter { lines: &lines, index: 0 };
        let full = joiner.join_lines();
        let mut it = VecLineIter { lines: &lines, index: 0 };
        let mut text = String::new();
        let mut defaults: Vec<(String, String)> = Vec::new();
        let mut argdocs: Vec<(String, String)> = Vec::new();
        let mut presets: Vec<(String, Vec<(String, String)>)> = Vec::new();
        let ghost fullp = parse_at(norm, 0);
        proof {
            lemma_combine_empty(fullp);
        }
        let mut done: bool = false;
        while !done
            invariant
                it.wf(),
                it.lines() == norm,
                0 <= it.pos() <= norm.len(),
                fullp == parse_at(norm, 0),
                "\n"@ == seq!['\n'],
                combine(
                    defaults.deep_view(),
                    argdocs.deep_view(),
                    presets.deep_view(),
                    text@,
                    parse_at(norm, it.pos()),
                ) == fullp,
                done ==> next_unempty(norm, it.pos()) >= norm.len(),
            decreases norm.len() - it.pos() + (if done {
                0int
            } else {
                1int
            }),
        {
            let ghost i0 = it.pos();
            let ghost dv0 = defaults.deep_view();
            let ghost av0 = argdocs.deep_view();
            let ghost pv0 = presets.deep_view();
            let ghost t0 = text@;
            let p = it.peek_unempty();
            match p {
                Option::None => {
                    done = true;
                },
                Option::Some(line) => {
                    proof {
                        lemma_next_unempty(norm, i0);
                    }
                    let ghost j = next_unempty(norm, i0);
                    proof {
                        assert(line@ =~= norm[j]);
                    }
                    it.gobble_empty_lines();
                    if str_eq(line.as_str(), ".. arguments::") {
                        let _ = it.next();
                        let sc = it.dedent(3);
                        let ghost dd = scope_indent(norm, j + 1, 0, 3);
                        let ghost jj = next_unempty(norm, j + 1);
                        proof {
                            assert(sc.pos() == jj && sc.depth() == dd && sc.wf());
                        }
                        let sc2 = run_args(sc, &mut defaults, &mut argdocs);
                        it = sc2.finish();
                        proof {
                            lemma_next_unempty(norm, j + 1);
                            lemma_parse_args_end(norm, jj, dd);
                            let a = parse_args_at(norm, jj, dd);
                            assert(it.pos() == a.end && it.wf() && it.lines() == norm);
                            assert(norm[j] == args_marker());
                            assert(parse_at(norm, i0) == combine(
                                a.defaults,
                                a.argdocs,
                                Seq::empty(),
                                Seq::empty(),
                                parse_at(norm, a.end),
                            )) by {
                                match parse_at(norm, a.end) {
                                    ParseOut::Done(rest) => {
                                        assert(Seq::empty() + rest.presets =~= rest.presets);
                                    },
                                    ParseOut::Failed(e) => {
                                    },
                                }
                            }
                            lemma_combine_assoc(
                                dv0,
                                av0,
                                pv0,
                                t0,
                                a.defaults,
                                a.argdocs,
                                Seq::empty(),
                                Seq::empty(),
                                parse_at(norm, a.end),
                            );
                            assert(pv0 + Seq::<
                                (Seq<char>, Seq<(Seq<char>, Seq<char>)>),
                            >::empty() =~= pv0);
                        }
                    } else if str_eq(line.as_str(), ".. presets::") {
                        let _ = it.next();
                        let sc = it.dedent(3);
                        let ghost dd = scope_indent(norm, j + 1, 0, 3);
                        let ghost jj = next_unempty(norm, j + 1);
                        proof {
                            assert(sc.pos() == jj && sc.depth() == dd && sc.wf());
                            assert(norm[j] == presets_marker());
                            assert(norm[j] != args_marker());
                        }
                        match run_presets(sc, &mut presets) {
                            Result::Err(pe) => {
                                proof {
                                    match parse_presets_at(norm, jj, dd) {
                                        PresetsOut::Failed(e) => {
                                            assert(parse_at(norm, i0) == ParseOut::Failed(e));
                                        },
                                        PresetsOut::Done(ps, end) => {
                                            assert(false);
                                        },
                                    }
                                }
                                return Result::Err(pe);
                            },
                            Result::Ok(sc2) => {
                                it = sc2.finish();
                                proof {
                                    lemma_next_unempty(norm, j + 1);
                                    lemma_parse_presets_end(norm, jj, dd);
                                    match parse_presets_at(norm, jj, dd) {
                                        PresetsOut::Done(ps, end) => {
                                            assert(it.pos() == end && it.wf() && it.lines()
                                                == norm);
                                            assert(parse_at(norm, i0) == combine(
                                                Seq::empty(),
                                                Seq::empty(),
                                                ps,
                                                Seq::empty(),
                                                parse_at(norm, end),
                                            )) by {
                                                match parse_at(norm, end) {
                                                    ParseOut::Done(rest) => {
                                                        assert(Seq::empty() + rest.defaults
                                                            =~= rest.defaults);
                                                        assert(Seq::empty() + rest.argdocs
                                                            =~= rest.argdocs);
                                                    },
                                                    ParseOut::Failed(e) => {
                                                    },
                                                }
                                            }
                                            lemma_combine_assoc(
                                                dv0,
                                                av0,
                                                pv0,
                                                t0,
                                                Seq::empty(),
                                                Seq::empty(),
                                                ps,
                                                Seq::empty(),
                                                parse_at(norm, end),
                                            );
                                            assert(dv0 + Seq::<(Seq<char>, Seq<char>)>::empty()
                                                =~= dv0);
                                            assert(av0 + Seq::<(Seq<char>, Seq<char>)>::empty()
                                                =~= av0);
                                        },
                                        PresetsOut::Failed(e) => {
                                            assert(false);
                                        },
                                    }
                                }
                            },
                        }
                    } else {
                        proof {
                            lemma_para_end(norm, j);
                            assert(norm[j] != args_marker() && norm[j] != presets_marker());
                        }
                        let ghost e = para_end(norm, j);
                        it = run_para(it, &mut text);
                        proof {
                            let para = para_text(norm, j);
                            assert(text@ == body_cat(t0, para));
                            assert(parse_at(norm, i0) == combine(
                                Seq::empty(),
                                Seq::empty(),
                                Seq::empty(),
                                para,
                                parse_at(norm, e),
                            )) by {
                                match parse_at(norm, e) {
                                    ParseOut::Done(rest) => {
                                        assert(Seq::empty() + rest.defaults =~= rest.defaults);
                                        assert(Seq::empty() + rest.argdocs =~= rest.argdocs);
                                        assert(Seq::empty() + rest.presets =~= rest.presets);
                                    },
                                    ParseOut::Failed(e2) => {
                                    },
                                }
                            }
                            lemma_combine_assoc(
                                dv0,
                                av0,
                                pv0,
                                t0,
                                Seq::empty(),
                                Seq::empty(),
                                Seq::empty(),
                                para,
                                parse_at(norm, e),
                            );
                            assert(dv0 + Seq::<(Seq<char>, Seq<char>)>::empty() =~= dv0);
                            assert(av0 + Seq::<(Seq<char>, Seq<char>)>::empty() =~= av0);
                            assert(pv0 + Seq::<
                                (Seq<char>, Seq<(Seq<char>, Seq<char>)>),
                            >::empty() =~= pv0);
                        }
                    }
                }
            }
        }
        proof {
            match parse_at(norm, it.pos()) {
                ParseOut::Done(sd) => {
                    assert(sd.defaults =~= Seq::<(Seq<char>, Seq<char>)>::empty());
                    assert(defaults.deep_view() + sd.defaults =~= defaults.deep_view());
                    assert(argdocs.deep_view() + sd.argdocs =~= argdocs.deep_view());
                    assert(presets.deep_view() + sd.presets =~= presets.deep_view());
                },
                ParseOut::Failed(e) => {
                    assert(false);
                },
            }
        }
        let t = trim(text.as_str());
        Result::Ok(DocString { doc: full, text: t.to_owned(), defaults, argdocs, presets })
    }
}

} // verus!
