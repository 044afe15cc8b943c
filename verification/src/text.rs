//! Splitting a documentation block into dedented lines, and cursors for
//! walking those lines with indentation-aware nesting.

use vstd::prelude::*;
use crate::strutil::{
    is_trimmed, line_indent, lemma_indent_lt_len, lemma_line_indent_skip, lemma_trimmed_skip,
    leading_spaces, trim_end, trim_end_spec,
};

verus! {

/// The first position at or after `i` where `c` occurs in `s`.
pub open spec fn find_from(s: Seq<char>, c: char, i: int) -> Option<int>
    decreases s.len() - i,
{
    if i < 0 || i >= s.len() {
        Option::None
    } else if s[i] == c {
        Option::Some(i)
    } else {
        find_from(s, c, i + 1)
    }
}

pub proof fn lemma_find_from(s: Seq<char>, c: char, i: int)
    requires
        0 <= i <= s.len(),
    ensures
        match find_from(s, c, i) {
            Option::Some(k) => i <= k < s.len() && s[k] == c && forall|j: int|
                i <= j < k ==> s[j] != c,
            Option::None => forall|j: int| i <= j < s.len() ==> s[j] != c,
        },
    decreases s.len() - i,
{
    if i < s.len() && s[i] != c {
        lemma_find_from(s, c, i + 1);
    }
}

/// The pieces of `s` from position `i` on, split at every occurrence of a
/// line break. Every piece is kept, so an empty text gives one empty piece.
pub open spec fn split_lines_from(s: Seq<char>, i: int) -> Seq<Seq<char>>
    decreases s.len() - i,
        via split_lines_from_dec
{
    match find_from(s, '\n', i) {
        Option::Some(k) => seq![s.subrange(i, k)] + split_lines_from(s, k + 1),
        Option::None => seq![
            if 0 <= i <= s.len() {
                s.subrange(i, s.len() as int)
            } else {
                Seq::empty()
            },
        ],
    }
}

#[via_fn]
proof fn split_lines_from_dec(s: Seq<char>, i: int) {
    if 0 <= i <= s.len() {
        lemma_find_from(s, '\n', i);
    }
}

/// All the lines of a text.
pub open spec fn split_lines_spec(s: Seq<char>) -> Seq<Seq<char>> {
    split_lines_from(s, 0)
}

/// The first position at or after `i` holding a non-empty line, or the
/// position where the search ran out of lines.
pub open spec fn next_unempty(ls: Seq<Seq<char>>, i: int) -> int
    decreases ls.len() - i,
{
    if 0 <= i < ls.len() && ls[i].len() == 0 {
        next_unempty(ls, i + 1)
    } else {
        i
    }
}

pub proof fn lemma_next_unempty(ls: Seq<Seq<char>>, i: int)
    requires
        0 <= i <= ls.len(),
    ensures
        i <= next_unempty(ls, i) <= ls.len(),
        forall|j: int| i <= j < next_unempty(ls, i) ==> ls[j].len() == 0,
        next_unempty(ls, i) < ls.len() ==> ls[next_unempty(ls, i)].len() > 0,
    decreases ls.len() - i,
{
    if 0 <= i < ls.len() && ls[i].len() == 0 {
        lemma_next_unempty(ls, i + 1);
    }
}

/// Converse characterization: a run of empty lines from `i` up to `n`,
/// ended by a non-empty line or by the end, pins `next_unempty` to `n`.
pub proof fn lemma_next_unempty_is(ls: Seq<Seq<char>>, i: int, n: int)
    requires
        0 <= i <= n <= ls.len(),
        forall|j: int| i <= j < n ==> ls[j].len() == 0,
        n == ls.len() || ls[n].len() > 0,
    ensures
        next_unempty(ls, i) == n,
    decreases n - i,
{
    if i < n {
        lemma_next_unempty_is(ls, i + 1, n);
    }
}

/// The shared indentation candidate: the leading space count of the first
/// non-empty line after the first line, or zero when there is none.
pub open spec fn detect_indent(raw: Seq<Seq<char>>) -> nat {
    let j = next_unempty(raw, 1);
    if 1 <= j < raw.len() {
        line_indent(raw[j])
    } else {
        0nat
    }
}

/// Whether every non-empty line after the first carries at least `n`
/// leading spaces, so that the shared indentation can be stripped.
pub open spec fn dedent_ok(trimmed: Seq<Seq<char>>, n: nat) -> bool {
    forall|i: int|
        1 <= i < trimmed.len() ==> (#[trigger] trimmed[i]).len() == 0 || line_indent(
            trimmed[i],
        ) >= n
}

/// The result of normalizing a documentation block: all lines right-trimmed
/// and, when consistent, the shared indentation stripped from every line but
/// the first. When some line falls short of the detected indentation, the
/// lines are returned merely right-trimmed, split without a trailing empty
/// piece.
pub open spec fn norm_lines_spec(doc: Seq<char>) -> Seq<Seq<char>> {
    let raw = split_lines_spec(doc);
    let trimmed = raw.map_values(|l: Seq<char>| trim_end_spec(l));
    let n = detect_indent(raw);
    if dedent_ok(trimmed, n) {
        Seq::new(
            trimmed.len(),
            |i: int|
                if i == 0 || trimmed[i].len() == 0 {
                    trimmed[i]
                } else {
                    trimmed[i].skip(n as int)
                },
        )
    } else {
        let term = if doc.len() == 0 {
            Seq::<Seq<char>>::empty()
        } else if doc.last() == '\n' {
            raw.drop_last()
        } else {
            raw
        };
        term.map_values(|l: Seq<char>| trim_end_spec(l))
    }
}

/// A run of `n` space characters.
pub open spec fn spaces(n: nat) -> Seq<char> {
    Seq::new(n, |i: int| ' ')
}

/// The normalizer's round trip: when the lines share the detected
/// indentation, re-indenting every normalized line after the first by that
/// amount reproduces the original lines, up to right-trimming.
pub proof fn lemma_dedent_roundtrip(doc: Seq<char>)
    requires
        dedent_ok(
            split_lines_spec(doc).map_values(|l: Seq<char>| trim_end_spec(l)),
            detect_indent(split_lines_spec(doc)),
        ),
    ensures
        ({
            let raw = split_lines_spec(doc);
            let n = detect_indent(raw);
            let norm = norm_lines_spec(doc);
            norm.len() == raw.len() && norm[0] == trim_end_spec(raw[0]) && forall|i: int|
                1 <= i < raw.len() ==> trim_end_spec(#[trigger] raw[i]) == (if norm[i].len()
                    == 0 {
                    Seq::<char>::empty()
                } else {
                    spaces(n) + norm[i]
                })
        }),
{
    let raw = split_lines_spec(doc);
    let trimmed = raw.map_values(|l: Seq<char>| trim_end_spec(l));
    let n = detect_indent(raw);
    let norm = norm_lines_spec(doc);
    assert forall|i: int|
        1 <= i < raw.len() implies trim_end_spec(#[trigger] raw[i]) == (if norm[i].len() == 0 {
        Seq::<char>::empty()
    } else {
        spaces(n) + norm[i]
    }) by {
        assert(trimmed[i] == trim_end_spec(raw[i]));
        if trimmed[i].len() == 0 {
            assert(norm[i].len() == 0);
            assert(trim_end_spec(raw[i]) =~= Seq::<char>::empty());
        } else {
            assert(line_indent(trimmed[i]) >= n);
            crate::strutil::lemma_trim_end_idem(raw[i]);
            crate::strutil::lemma_indent_lt_len(trimmed[i]);
            crate::strutil::lemma_line_indent_bound(trimmed[i]);
            assert(norm[i] == trimmed[i].skip(n as int));
            assert(norm[i].len() == trimmed[i].len() - n);
            assert(norm[i].len() > 0);
            assert(spaces(n) + trimmed[i].skip(n as int) =~= trimmed[i]);
        }
    }
}

/// The normalizer's fallback: when some non-empty line after the first
/// falls short of the detected indentation, normalization is nothing but
/// right-trimming of the lines, split without a trailing empty piece.
pub proof fn lemma_dedent_fallback(doc: Seq<char>)
    requires
        !dedent_ok(
            split_lines_spec(doc).map_values(|l: Seq<char>| trim_end_spec(l)),
            detect_indent(split_lines_spec(doc)),
        ),
    ensures
        norm_lines_spec(doc) == (if doc.len() == 0 {
            Seq::<Seq<char>>::empty()
        } else if doc.last() == '\n' {
            split_lines_spec(doc).drop_last()
        } else {
            split_lines_spec(doc)
        }).map_values(|l: Seq<char>| trim_end_spec(l)),
{
}

/// Split a text into its lines, keeping every piece.
fn split_plain(doc: &str) -> (r: Vec<String>)
    ensures
        r.deep_view() == split_lines_spec(doc@),
        r.len() >= 1,
{
    let len: usize = doc.unicode_len();
    let mut res: Vec<String> = Vec::new();
    let mut pos: usize = 0;
    let mut done: bool = false;
    while !done
        invariant
            len == doc@.len(),
            pos <= len,
            !done ==> split_lines_spec(doc@) == res.deep_view() + split_lines_from(
                doc@,
                pos as int,
            ),
            done ==> split_lines_spec(doc@) == res.deep_view(),
            done ==> res.len() >= 1,
        decreases len - pos + (if done { 0int } else { 1int }),
    {
        let ghost pos0 = pos as int;
        let mut k: usize = pos;
        while k < len && doc.get_char(k) != '\n'
            invariant
                pos <= k <= len,
                len == doc@.len(),
                forall|j: int| pos <= j < k ==> doc@[j] != '\n',
            decreases len - k,
        {
            k = k + 1;
        }
        let piece = doc.substring_char(pos, k);
        res.push(piece.to_owned());
        proof {
            lemma_find_from(doc@, '\n', pos0);
            if k < len {
                assert(find_from(doc@, '\n', pos0) == Option::Some(k as int));
            } else {
                assert(find_from(doc@, '\n', pos0) is None);
            }
        }
        if k < len {
            pos = k + 1;
            proof {
                assert(res.deep_view() =~= res.deep_view().drop_last() + seq![piece@]);
            }
        } else {
            done = true;
            proof {
                assert(res.deep_view() =~= res.deep_view().drop_last() + seq![piece@]);
            }
        }
    }
    res
}

/// Split a documentation block into lines and remove the indentation shared
/// by every line after the first, as witnessed by the first non-empty line
/// after the first. Every line is right-trimmed. When some non-empty line
/// falls short of the shared indentation, no indentation is stripped at all.
pub fn split_and_dedent(doc: &str) -> (r: Vec<String>)
    ensures
        r.deep_view() == norm_lines_spec(doc@),
{
    let raw = split_plain(doc);
    let ghost raws = raw.deep_view();
    let ghost trimmed = raws.map_values(|l: Seq<char>| trim_end_spec(l));
    // Detect the candidate indentation from the first non-empty raw line
    // after the first.
    let mut j: usize = 1;
    while j < raw.len() && raw[j].as_str().is_empty()
        invariant
            1 <= j <= raw.len(),
            raws == raw.deep_view(),
            forall|t: int| 1 <= t < j ==> raws[t].len() == 0,
        decreases raw.len() - j,
    {
        j = j + 1;
    }
    proof {
        lemma_next_unempty_is(raws, 1, j as int);
    }
    let n: usize = if j < raw.len() {
        leading_spaces(raw[j].as_str())
    } else {
        0
    };
    proof {
        assert(n as nat == detect_indent(raws));
    }
    // Try stripping the indentation from every line after the first.
    let mut out: Vec<String> = Vec::new();
    out.push(trim_end(raw[0].as_str()).to_owned());
    let mut i: usize = 1;
    while i < raw.len()
        invariant
            1 <= i <= raw.len(),
            raws == raw.deep_view(),
            trimmed == raws.map_values(|l: Seq<char>| trim_end_spec(l)),
            n as nat == detect_indent(raws),
            out.len() == i,
            forall|t: int|
                1 <= t < i ==> (#[trigger] trimmed[t]).len() == 0 || line_indent(trimmed[t])
                    >= n as nat,
            forall|t: int|
                0 <= t < i ==> out.deep_view()[t] == (if t == 0 || trimmed[t].len() == 0 {
                    trimmed[t]
                } else {
                    trimmed[t].skip(n as int)
                }),
        decreases raw.len() - i,
    {
        let ghost prev = out.deep_view();
        let t = trim_end(raw[i].as_str());
        proof {
            assert(trimmed[i as int] == t@);
        }
        let tlen: usize = t.unicode_len();
        if tlen == 0 {
            out.push(String::new());
            proof {
                assert(out.deep_view() =~= prev.push(Seq::<char>::empty()));
            }
        } else {
            let li = leading_spaces(t);
            if li >= n {
                proof {
                    crate::strutil::lemma_line_indent_bound(t@);
                }
                out.push(t.substring_char(n, tlen).to_owned());
                proof {
                    assert(t@.subrange(n as int, t@.len() as int) =~= t@.skip(n as int));
                    assert(out.deep_view() =~= prev.push(t@.skip(n as int)));
                }
            } else {
                // Some line falls short of the shared indentation: give the
                // lines back merely right-trimmed.
                proof {
                    assert(trimmed[i as int].len() > 0 && line_indent(trimmed[i as int]) < n as nat);
                    assert(!dedent_ok(trimmed, n as nat));
                }
                return fallback_lines(doc, &raw);
            }
        }
        i = i + 1;
    }
    proof {
        assert(dedent_ok(trimmed, n as nat));
        assert(out.deep_view() =~= norm_lines_spec(doc@));
    }
    out
}

/// The lines of `doc` merely right-trimmed, without a trailing empty piece.
fn fallback_lines(doc: &str, raw: &Vec<String>) -> (r: Vec<String>)
    requires
        raw.deep_view() == split_lines_spec(doc@),
        raw.len() >= 1,
        doc@.len() > 0,
    ensures
        r.deep_view() == (if doc@.last() == '\n' {
            split_lines_spec(doc@).drop_last()
        } else {
            split_lines_spec(doc@)
        }).map_values(|l: Seq<char>| trim_end_spec(l)),
{
    let dlen: usize = doc.unicode_len();
    let m: usize = if doc.get_char(dlen - 1) == '\n' {
        raw.len() - 1
    } else {
        raw.len()
    };
    let ghost term = if doc@.last() == '\n' {
        split_lines_spec(doc@).drop_last()
    } else {
        split_lines_spec(doc@)
    };
    proof {
        assert(term.len() == m as int);
    }
    let mut r: Vec<String> = Vec::new();
    let mut i: usize = 0;
    while i < m
        invariant
            i <= m,
            m <= raw.len(),
            raw.deep_view() == split_lines_spec(doc@),
            term.len() == m as int,
            forall|t: int| 0 <= t < m ==> term[t] == raw.deep_view()[t],
            r.len() == i,
            forall|t: int| 0 <= t < i ==> r.deep_view()[t] == trim_end_spec(term[t]),
        decreases m - i,
    {
        let ghost prev = r.deep_view();
        let t = trim_end(raw[i].as_str());
        r.push(t.to_owned());
        proof {
            assert(r.deep_view() =~= prev.push(t@));
        }
        i = i + 1;
    }
    proof {
        assert(r.deep_view() =~= term.map_values(|l: Seq<char>| trim_end_spec(l)));
    }
    r
}

/// Every line is right-trimmed.
pub open spec fn all_trimmed(ls: Seq<Seq<char>>) -> bool {
    forall|i: int| 0 <= i < ls.len() ==> is_trimmed(#[trigger] ls[i])
}

/// Normalized lines are all right-trimmed.
pub proof fn lemma_norm_lines_trimmed(doc: Seq<char>)
    ensures
        all_trimmed(norm_lines_spec(doc)),
{
    let raw = split_lines_spec(doc);
    let trimmed = raw.map_values(|l: Seq<char>| trim_end_spec(l));
    let n = detect_indent(raw);
    let norm = norm_lines_spec(doc);
    if dedent_ok(trimmed, n) {
        assert forall|i: int| 0 <= i < norm.len() implies is_trimmed(#[trigger] norm[i]) by {
            crate::strutil::lemma_trim_end_idem(raw[i]);
            if !(i == 0 || trimmed[i].len() == 0) {
                crate::strutil::lemma_line_indent_bound(trimmed[i]);
                lemma_trimmed_skip(trimmed[i], n as int);
            }
        }
    } else {
        let term = if doc.len() == 0 {
            Seq::<Seq<char>>::empty()
        } else if doc.last() == '\n' {
            raw.drop_last()
        } else {
            raw
        };
        assert forall|i: int| 0 <= i < norm.len() implies is_trimmed(#[trigger] norm[i]) by {
            crate::strutil::lemma_trim_end_idem(term[i]);
        }
    }
}

/// Whether a scope of indentation `d` over `ls`, standing at `i`, can yield
/// one more line: some non-empty line at or after `i` still belongs to the
/// scope.
pub open spec fn scope_can_yield(ls: Seq<Seq<char>>, i: int, d: nat) -> bool {
    let j = next_unempty(ls, i);
    0 <= i && j < ls.len() && line_indent(ls[j]) >= d
}

/// The line a scope of indentation `d` yields at position `i`: an empty line
/// stays empty, any other line loses its first `d` characters.
pub open spec fn yield_line(ls: Seq<Seq<char>>, i: int, d: nat) -> Seq<char> {
    if ls[i].len() == 0 {
        Seq::empty()
    } else {
        ls[i].skip(d as int)
    }
}

/// The lines a scope of indentation `d` standing at `i` still yields, in
/// order, each dedented by `d`.
pub open spec fn scope_rem(ls: Seq<Seq<char>>, i: int, d: nat) -> Seq<Seq<char>>
    decreases ls.len() - i,
        via scope_rem_dec
{
    if scope_can_yield(ls, i, d) {
        seq![yield_line(ls, i, d)] + scope_rem(ls, i + 1, d)
    } else {
        Seq::empty()
    }
}

#[via_fn]
proof fn scope_rem_dec(ls: Seq<Seq<char>>, i: int, d: nat) {
    if scope_can_yield(ls, i, d) {
        if i < ls.len() {
        } else {
            assert(next_unempty(ls, i) == i);
        }
    }
}

pub proof fn lemma_scope_rem_len(ls: Seq<Seq<char>>, i: int, d: nat)
    requires
        0 <= i,
    ensures
        scope_rem(ls, i, d).len() <= ls.len() - i || scope_rem(ls, i, d).len() == 0,
        scope_can_yield(ls, i, d) ==> i < ls.len(),
    decreases ls.len() - i,
{
    if scope_can_yield(ls, i, d) {
        if i >= ls.len() {
            assert(next_unempty(ls, i) == i);
        }
        lemma_scope_rem_len(ls, i + 1, d);
    }
}

/// The position right after the lines a scope standing at `i` still yields.
pub open spec fn scope_end(ls: Seq<Seq<char>>, i: int, d: nat) -> int {
    i + scope_rem(ls, i, d).len()
}

/// The lines joined back into a text, each line followed by a terminator.
pub open spec fn join_nl(ls: Seq<Seq<char>>) -> Seq<char>
    decreases ls.len(),
{
    if ls.len() == 0 {
        Seq::empty()
    } else {
        ls.first() + seq!['\n'] + join_nl(ls.drop_first())
    }
}

/// The indentation a nested scope adopts: the indentation of the parent's
/// next non-empty line when that reaches `min_indent`, one more than it
/// otherwise; zero when the parent has no next non-empty line.
pub open spec fn scope_indent(ls: Seq<Seq<char>>, i: int, d: nat, min_indent: nat) -> nat {
    let j = next_unempty(ls, i);
    if scope_can_yield(ls, i, d) {
        let rel = (line_indent(ls[j]) - d) as nat;
        if rel >= min_indent {
            rel
        } else {
            (rel + 1) as nat
        }
    } else {
        0nat
    }
}

/// A peekable, forward-only cursor over a sequence of lines.
///
/// A cursor stands at position `pos()` in the underlying lines `lines()` and
/// yields each line dedented by `depth()` characters. A cursor yields a line
/// only while a non-empty line indented at least `depth()` lies at or after
/// the current position; empty lines inside that range are yielded as empty
/// lines.
pub trait LineIter: Sized {
    /// The underlying lines this cursor walks.
    spec fn lines(&self) -> Seq<Seq<char>>;

    /// The current position in `lines()`.
    spec fn pos(&self) -> int;

    /// The indentation stripped from every yielded line.
    spec fn depth(&self) -> nat;

    /// Well-formedness: the position is in range and the lines are trimmed.
    spec fn wf(&self) -> bool;

    /// Whether `next` yields one more line.
    spec fn can_yield(&self) -> bool;

    /// The cursor after one successful `next`.
    spec fn advanced(&self) -> Self;

    /// The cursor after `gobble_empty_lines`.
    spec fn gobbled(&self) -> Self;

    /// The lines still to be yielded, dedented.
    spec fn rem(&self) -> Seq<Seq<char>>;

    proof fn lemma_wf(&self)
        requires
            self.wf(),
        ensures
            0 <= self.pos() <= self.lines().len(),
            all_trimmed(self.lines()),
    ;

    proof fn lemma_scope_can_yield(&self)
        requires
            self.wf(),
            scope_can_yield(self.lines(), self.pos(), self.depth()),
        ensures
            self.can_yield(),
    ;

    /// The next line, dedented, without advancing: present exactly when the
    /// current line is indented at least `depth()`.
    fn peek(&self) -> (r: Option<String>)
        requires
            self.wf(),
        ensures
            match r {
                Option::Some(l) => self.pos() < self.lines().len() && line_indent(
                    self.lines()[self.pos()],
                ) >= self.depth() && l@ == self.lines()[self.pos()].skip(self.depth() as int),
                Option::None => !(self.pos() < self.lines().len() && line_indent(
                    self.lines()[self.pos()],
                ) >= self.depth()),
            },
    ;

    /// The next non-empty line, dedented, without advancing: present exactly
    /// when the scope can still yield.
    fn peek_unempty(&self) -> (r: Option<String>)
        requires
            self.wf(),
        ensures
            match r {
                Option::Some(l) => scope_can_yield(self.lines(), self.pos(), self.depth())
                    && l@ == self.lines()[next_unempty(self.lines(), self.pos())].skip(
                    self.depth() as int,
                ),
                Option::None => !scope_can_yield(self.lines(), self.pos(), self.depth()),
            },
    ;

    /// Yield the current line, dedented, and advance by one; nothing once no
    /// non-empty line at or after the position belongs to the scope.
    fn next(&mut self) -> (r: Option<String>)
        requires
            old(self).wf(),
        ensures
            final(self).wf(),
            final(self).lines() == old(self).lines(),
            final(self).depth() == old(self).depth(),
            match r {
                Option::Some(l) => old(self).can_yield() && *final(self) == old(self).advanced()
                    && final(self).pos() == old(self).pos() + 1 && l@ == yield_line(
                    old(self).lines(),
                    old(self).pos(),
                    old(self).depth(),
                ),
                Option::None => !old(self).can_yield() && *final(self) == *old(self),
            },
    ;

    /// As `next`, but only when the current line is non-empty (after
    /// dedenting); otherwise nothing, without advancing.
    fn next_if_unempty(&mut self) -> (r: Option<String>)
        requires
            old(self).wf(),
        ensures
            final(self).wf(),
            final(self).lines() == old(self).lines(),
            final(self).depth() == old(self).depth(),
            ({
                let ls = old(self).lines();
                let i = old(self).pos();
                let d = old(self).depth();
                match r {
                    Option::Some(l) => i < ls.len() && ls[i].len() > 0 && line_indent(ls[i]) >= d
                        && l@ == ls[i].skip(d as int) && *final(self) == old(self).advanced()
                        && final(self).pos() == i + 1,
                    Option::None => !(i < ls.len() && ls[i].len() > 0 && line_indent(ls[i]) >= d)
                        && *final(self) == *old(self),
                }
            }),
    {
        let p = self.peek();
        match p {
            Option::Some(l) => {
                if l.as_str().is_empty() {
                    proof {
                        // The dedented current line is empty only when the
                        // raw line is: stripping happens only below the
                        // line's indentation, which a trimmed non-empty
                        // line keeps below its length.
                        self.lemma_wf();
                        if self.lines()[self.pos()].len() > 0 {
                            lemma_indent_lt_len(self.lines()[self.pos()]);
                        }
                    }
                    Option::None
                } else {
                    proof {
                        self.lemma_wf();
                        self.lemma_scope_can_yield();
                    }
                    self.next()
                }
            },
            Option::None => Option::None,
        }
    }

    /// Advance past the run of empty lines at the current position.
    fn gobble_empty_lines(&mut self)
        requires
            old(self).wf(),
        ensures
            final(self).wf(),
            *final(self) == old(self).gobbled(),
            final(self).lines() == old(self).lines(),
            final(self).depth() == old(self).depth(),
            final(self).pos() == next_unempty(old(self).lines(), old(self).pos()),
    ;

    /// Open a nested scope over the indented block at the current position,
    /// first gobbling empty lines. The scope's indentation is detected from
    /// the next non-empty line, pushed one past it when it falls short of
    /// `min_indent`.
    fn dedent(self, min_indent: usize) -> (r: Dedent<Self>)
        requires
            self.wf(),
        ensures
            r.parent == self.gobbled(),
            r.parent.wf(),
            r.parent.lines() == self.lines(),
            r.parent.pos() == next_unempty(self.lines(), self.pos()),
            r.parent.depth() == self.depth(),
            r.indent as nat == scope_indent(self.lines(), self.pos(), self.depth(), min_indent as nat),
    ;
}


/// An interface for joining the lines a cursor still yields into one text,
/// each line followed by a terminator, consuming the cursor's scope.
pub trait JoinLines: LineIter {
    fn join_lines(&mut self) -> (r: String)
        requires
            old(self).wf(),
        ensures
            final(self).wf(),
            final(self).lines() == old(self).lines(),
            final(self).depth() == old(self).depth(),
            r@ == join_nl(old(self).rem()),
            final(self).pos() == old(self).pos() + old(self).rem().len(),
            final(self).rem() == Seq::<Seq<char>>::empty(),
    ;
}

/// A cursor over a vector of lines, each assumed right-trimmed.
pub struct VecLineIter<'a> {
    pub lines: &'a Vec<String>,
    pub index: usize,
}

impl<'a> LineIter for VecLineIter<'a> {
    open spec fn lines(&self) -> Seq<Seq<char>> {
        self.lines.deep_view()
    }

    open spec fn pos(&self) -> int {
        self.index as int
    }

    open spec fn depth(&self) -> nat {
        0nat
    }

    open spec fn wf(&self) -> bool {
        self.index <= self.lines.deep_view().len() && all_trimmed(self.lines.deep_view())
    }

    open spec fn can_yield(&self) -> bool {
        self.index < self.lines.deep_view().len()
    }

    open spec fn advanced(&self) -> Self {
        VecLineIter { lines: self.lines, index: (self.index + 1) as usize }
    }

    open spec fn gobbled(&self) -> Self {
        VecLineIter {
            lines: self.lines,
            index: next_unempty(self.lines.deep_view(), self.index as int) as usize,
        }
    }

    open spec fn rem(&self) -> Seq<Seq<char>> {
        self.lines.deep_view().skip(self.index as int)
    }

    proof fn lemma_wf(&self) {
    }

    proof fn lemma_scope_can_yield(&self) {
        let ls = self.lines.deep_view();
        let i = self.index as int;
        assert(self.can_yield() == (self.index < self.lines.deep_view().len()));
        assert(scope_can_yield(ls, i, 0nat));
        lemma_next_unempty(ls, i);
        assert(i <= next_unempty(ls, i) < ls.len());
    }

    fn peek(&self) -> (r: Option<String>) {
        if self.index < self.lines.len() {
            let l = self.lines[self.index].clone();
            proof {
                assert(l@.skip(0) =~= l@);
            }
            Option::Some(l)
        } else {
            Option::None
        }
    }

    fn peek_unempty(&self) -> (r: Option<String>) {
        let mut k: usize = self.index;
        while k < self.lines.len() && self.lines[k].as_str().is_empty()
            invariant
                self.index <= k <= self.lines.deep_view().len(),
                forall|t: int| self.index <= t < k ==> self.lines.deep_view()[t].len() == 0,
            decreases self.lines.deep_view().len() - k,
        {
            k = k + 1;
        }
        proof {
            lemma_next_unempty_is(self.lines.deep_view(), self.index as int, k as int);
        }
        if k < self.lines.len() {
            let l = self.lines[k].clone();
            proof {
                assert(l@.skip(0) =~= l@);
            }
            Option::Some(l)
        } else {
            Option::None
        }
    }

    fn next(&mut self) -> (r: Option<String>) {
        if self.index < self.lines.len() {
            let l = self.lines[self.index].clone();
            self.index = self.index + 1;
            proof {
                assert(l@.skip(0) =~= l@);
                if old(self).lines()[old(self).pos()].len() == 0 {
                    assert(l@ =~= Seq::<char>::empty());
                }
            }
            Option::Some(l)
        } else {
            Option::None
        }
    }

    fn gobble_empty_lines(&mut self) {
        while self.index < self.lines.len() && self.lines[self.index].as_str().is_empty()
            invariant
                self.lines == old(self).lines,
                old(self).index <= self.index <= self.lines.deep_view().len(),
                forall|t: int|
                    old(self).index <= t < self.index ==> self.lines.deep_view()[t].len() == 0,
            decreases self.lines.deep_view().len() - self.index,
        {
            self.index = self.index + 1;
        }
        proof {
            lemma_next_unempty_is(
                self.lines.deep_view(),
                old(self).index as int,
                self.index as int,
            );
        }
    }

    fn dedent(self, min_indent: usize) -> (r: Dedent<Self>) {
        let ghost ls = self.lines();
        let ghost i0 = self.pos();
        let ghost d = self.depth();
        let mut parent = self;
        proof {
            parent.lemma_wf();
        }
        parent.gobble_empty_lines();
        proof {
            parent.lemma_wf();
            lemma_next_unempty(ls, i0);
            lemma_next_unempty(ls, parent.pos());
        }
        let chosen: usize = match parent.peek_unempty() {
            Option::Some(l) => {
                let ghost j = next_unempty(ls, i0);
                proof {
                    assert(next_unempty(ls, parent.pos()) == j);
                    lemma_line_indent_skip(ls[j], d as int);
                }
                let li: usize = leading_spaces(l.as_str());
                if li >= min_indent {
                    li
                } else {
                    li + 1
                }
            },
            Option::None => 0,
        };
        Dedent { parent, indent: chosen }
    }
}

/// A cursor that walks the indented sub-block at its parent's position,
/// stripping the block's indentation from every line it yields.
///
/// The scope owns its parent while it is open, so nothing else can advance
/// the parent meanwhile; `finish` closes the scope and gives the parent
/// back, standing right after the lines the scope yielded.
pub struct Dedent<I: LineIter> {
    pub parent: I,
    pub indent: usize,
}

impl<I: LineIter> Dedent<I> {
    /// Strip this scope's indentation from one line: possible exactly when
    /// the line carries at least that many leading spaces.
    pub fn dedent_line<'x>(&self, line: &'x str) -> (r: Option<&'x str>)
        ensures
            match r {
                Option::Some(l) => line_indent(line@) >= self.indent as nat && l@ == line@.skip(
                    self.indent as int,
                ),
                Option::None => line_indent(line@) < self.indent as nat,
            },
    {
        let li: usize = leading_spaces(line);
        if li >= self.indent {
            let len: usize = line.unicode_len();
            proof {
                crate::strutil::lemma_line_indent_bound(line@);
                assert(line@.subrange(self.indent as int, line@.len() as int) =~= line@.skip(
                    self.indent as int,
                ));
            }
            Option::Some(line.substring_char(self.indent, len))
        } else {
            Option::None
        }
    }

    /// Close the scope and give the parent cursor back.
    pub fn finish(self) -> (r: I)
        ensures
            r == self.parent,
    {
        self.parent
    }
}

impl<I: LineIter> LineIter for Dedent<I> {
    open spec fn lines(&self) -> Seq<Seq<char>> {
        self.parent.lines()
    }

    open spec fn pos(&self) -> int {
        self.parent.pos()
    }

    open spec fn depth(&self) -> nat {
        (self.parent.depth() + self.indent) as nat
    }

    open spec fn wf(&self) -> bool {
        self.parent.wf()
    }

    open spec fn can_yield(&self) -> bool {
        scope_can_yield(self.lines(), self.pos(), self.depth())
    }

    open spec fn advanced(&self) -> Self {
        Dedent { parent: self.parent.advanced(), indent: self.indent }
    }

    open spec fn gobbled(&self) -> Self {
        Dedent { parent: self.parent.gobbled(), indent: self.indent }
    }

    open spec fn rem(&self) -> Seq<Seq<char>> {
        scope_rem(self.lines(), self.pos(), self.depth())
    }

    proof fn lemma_wf(&self) {
        self.parent.lemma_wf();
    }

    proof fn lemma_scope_can_yield(&self) {
        assert(self.can_yield() == scope_can_yield(self.lines(), self.pos(), self.depth()));
    }

    fn peek(&self) -> (r: Option<String>) {
        let p = self.parent.peek();
        match p {
            Option::Some(l) => {
                let ghost line = self.lines()[self.pos()];
                proof {
                    crate::strutil::lemma_line_indent_bound(line);
                    lemma_line_indent_skip(line, self.parent.depth() as int);
                }
                match self.dedent_line(l.as_str()) {
                    Option::Some(s) => {
                        proof {
                            vstd::seq_lib::lemma_seq_skip_of_skip(
                                line,
                                self.parent.depth() as int,
                                self.indent as int,
                            );
                        }
                        Option::Some(s.to_owned())
                    },
                    Option::None => Option::None,
                }
            },
            Option::None => Option::None,
        }
    }

    fn peek_unempty(&self) -> (r: Option<String>) {
        let p = self.parent.peek_unempty();
        match p {
            Option::Some(l) => {
                let ghost line = self.lines()[next_unempty(self.lines(), self.pos())];
                proof {
                    crate::strutil::lemma_line_indent_bound(line);
                    lemma_line_indent_skip(line, self.parent.depth() as int);
                }
                match self.dedent_line(l.as_str()) {
                    Option::Some(s) => {
                        proof {
                            vstd::seq_lib::lemma_seq_skip_of_skip(
                                line,
                                self.parent.depth() as int,
                                self.indent as int,
                            );
                        }
                        Option::Some(s.to_owned())
                    },
                    Option::None => Option::None,
                }
            },
            Option::None => Option::None,
        }
    }

    fn next(&mut self) -> (r: Option<String>) {
        let un = self.peek_unempty();
        match un {
            Option::None => Option::None,
            Option::Some(u) => {
                proof {
                    self.lemma_wf();
                    self.parent.lemma_scope_can_yield();
                    lemma_next_unempty(self.lines(), self.pos());
                }
                let l = self.parent.next();
                match l {
                    Option::Some(line) => {
                        proof {
                            if self.lines()[old(self).pos()].len() > 0 {
                                lemma_indent_lt_len(self.lines()[old(self).pos()]);
                            }
                        }
                        if line.as_str().is_empty() {
                            Option::Some(line)
                        } else {
                            Option::Some(u)
                        }
                    },
                    Option::None => {
                        proof {
                            assert(false);
                        }
                        Option::None
                    },
                }
            },
        }
    }

    fn gobble_empty_lines(&mut self) {
        self.parent.gobble_empty_lines();
    }

    fn dedent(self, min_indent: usize) -> (r: Dedent<Self>) {
        let ghost ls = self.lines();
        let ghost i0 = self.pos();
        let ghost d = self.depth();
        let mut parent = self;
        proof {
            parent.lemma_wf();
        }
        parent.gobble_empty_lines();
        proof {
            parent.lemma_wf();
            lemma_next_unempty(ls, i0);
            lemma_next_unempty(ls, parent.pos());
        }
        let chosen: usize = match parent.peek_unempty() {
            Option::Some(l) => {
                let ghost j = next_unempty(ls, i0);
                proof {
                    assert(next_unempty(ls, parent.pos()) == j);
                    lemma_line_indent_skip(ls[j], d as int);
                }
                let li: usize = leading_spaces(l.as_str());
                if li >= min_indent {
                    li
                } else {
                    li + 1
                }
            },
            Option::None => 0,
        };
        Dedent { parent, indent: chosen }
    }
}

/// An interface for creating a line cursor.
pub trait IterLines: Sized {
    type Iter: LineIter;

    /// The lines the created cursor will walk.
    spec fn all_lines(self) -> Seq<Seq<char>>;

    /// A cursor standing at the first of this value's lines.
    fn iter_lines(self) -> (r: Self::Iter)
        ensures
            r.lines() == self.all_lines(),
            r.pos() == 0,
            r.depth() == 0,
    ;
}

impl<'a> IterLines for &'a Vec<String> {
    type Iter = VecLineIter<'a>;

    open spec fn all_lines(self) -> Seq<Seq<char>> {
        self.deep_view()
    }

    fn iter_lines(self) -> (r: VecLineIter<'a>) {
        VecLineIter { lines: self, index: 0 }
    }
}

impl<'a> JoinLines for VecLineIter<'a> {
    fn join_lines(&mut self) -> (r: String) {
        let ghost ls = self.lines.deep_view();
        let ghost i0 = self.index as int;
        let mut out = String::new();
        proof {
            reveal_strlit("\n");
            assert(out@ + join_nl(ls.skip(i0)) =~= join_nl(ls.skip(i0)));
        }
        while self.index < self.lines.len()
            invariant
                self.lines == old(self).lines,
                i0 <= self.index <= ls.len(),
                ls == self.lines.deep_view(),
                out@ + join_nl(ls.skip(self.index as int)) == join_nl(ls.skip(i0)),
                "\n"@ == seq!['\n'],
            decreases ls.len() - self.index,
        {
            let ghost pre = out@;
            let ghost i = self.index as int;
            out.append(self.lines[self.index].as_str());
            out.append("\n");
            proof {
                assert(ls.skip(i).first() == ls[i]);
                assert(ls.skip(i).drop_first() =~= ls.skip(i + 1));
                assert(out@ + join_nl(ls.skip(i + 1)) =~= pre + join_nl(ls.skip(i)));
            }
            self.index = self.index + 1;
        }
        proof {
            assert(ls.skip(ls.len() as int) =~= Seq::<Seq<char>>::empty());
            assert(out@ + join_nl(ls.skip(self.index as int)) =~= out@);
        }
        out
    }
}

/// Join the lines a scope still yields, advancing it to the scope's end.
/// Unlike the trait method, this keeps the scope's own indentation visible
/// to the caller, so the parent can be recovered afterwards.
pub fn join_scope<I: LineIter>(sc: &mut Dedent<I>) -> (r: String)
    requires
        old(sc).wf(),
    ensures
        final(sc).wf(),
        final(sc).lines() == old(sc).lines(),
        final(sc).indent == old(sc).indent,
        final(sc).depth() == old(sc).depth(),
        r@ == join_nl(scope_rem(old(sc).lines(), old(sc).pos(), old(sc).depth())),
        final(sc).pos() == scope_end(old(sc).lines(), old(sc).pos(), old(sc).depth()),
        !scope_can_yield(old(sc).lines(), final(sc).pos(), old(sc).depth()),
{
    let ghost ls = sc.lines();
    let ghost d = sc.depth();
    let ghost p0 = sc.pos();
    let ghost full = scope_rem(ls, p0, d);
    let mut out = String::new();
    proof {
        reveal_strlit("\n");
        sc.lemma_wf();
        assert(out@ + join_nl(full) =~= join_nl(full));
    }
    let mut done: bool = false;
    while !done
        invariant
            sc.wf(),
            sc.lines() == ls,
            sc.depth() == d,
            sc.indent == old(sc).indent,
            p0 <= sc.pos() <= ls.len(),
            out@ + join_nl(scope_rem(ls, sc.pos(), d)) == join_nl(full),
            sc.pos() == p0 + full.len() - scope_rem(ls, sc.pos(), d).len(),
            done ==> !scope_can_yield(ls, sc.pos(), d),
        decreases ls.len() - sc.pos() + (if done {
            0int
        } else {
            1int
        }),
    {
        let ghost i = sc.pos();
        let n = sc.next();
        match n {
            Option::None => {
                done = true;
            },
            Option::Some(l) => {
                let ghost pre = out@;
                out.append(l.as_str());
                out.append("\n");
                proof {
                    lemma_next_unempty(ls, i);
                    let cur = scope_rem(ls, i, d);
                    assert(cur.first() == yield_line(ls, i, d));
                    assert(cur.drop_first() =~= scope_rem(ls, i + 1, d));
                    assert(out@ + join_nl(scope_rem(ls, i + 1, d)) =~= pre + join_nl(cur));
                }
            },
        }
    }
    proof {
        assert(scope_rem(ls, sc.pos(), d) =~= Seq::<Seq<char>>::empty());
        assert(out@ + join_nl(scope_rem(ls, sc.pos(), d)) =~= out@);
    }
    out
}

impl<I: LineIter> JoinLines for Dedent<I> {
    fn join_lines(&mut self) -> (r: String) {
        let ghost ls = self.lines();
        let ghost d = self.depth();
        let ghost p0 = self.pos();
        let ghost full = scope_rem(ls, p0, d);
        let mut out = String::new();
        proof {
            reveal_strlit("\n");
            self.lemma_wf();
            assert(out@ + join_nl(full) =~= join_nl(full));
        }
        let mut done: bool = false;
        while !done
            invariant
                self.wf(),
                self.lines() == ls,
                self.depth() == d,
                self.indent == old(self).indent,
                p0 <= self.pos() <= ls.len(),
                out@ + join_nl(scope_rem(ls, self.pos(), d)) == join_nl(full),
                self.pos() == p0 + full.len() - scope_rem(ls, self.pos(), d).len(),
                done ==> !scope_can_yield(ls, self.pos(), d),
            decreases ls.len() - self.pos() + (if done {
                0int
            } else {
                1int
            }),
        {
            let ghost i = self.pos();
            let n = self.next();
            match n {
                Option::None => {
                    done = true;
                },
                Option::Some(l) => {
                    let ghost pre = out@;
                    out.append(l.as_str());
                    out.append("\n");
                    proof {
                        lemma_next_unempty(ls, i);
                        let cur = scope_rem(ls, i, d);
                        assert(cur.first() == yield_line(ls, i, d));
                        assert(cur.drop_first() =~= scope_rem(ls, i + 1, d));
                        assert(out@ + join_nl(scope_rem(ls, i + 1, d)) =~= pre + join_nl(cur));
                    }
                },
            }
        }
        proof {
            assert(scope_rem(ls, self.pos(), d) =~= Seq::<Seq<char>>::empty());
            assert(out@ + join_nl(scope_rem(ls, self.pos(), d)) =~= out@);
        }
        out
    }
}

} // verus!
