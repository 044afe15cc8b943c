//! Character-level helpers: whitespace trimming, indentation measuring,
//! and searching, each with a mathematical specification over `Seq<char>`.

use vstd::prelude::*;

verus! {

/// ASCII whitespace, as removed from the ends of lines.
pub open spec fn is_space(c: char) -> bool {
    c == ' ' || c == '\t' || c == '\r' || c == '\n'
}

/// `s` with trailing whitespace removed.
pub open spec fn trim_end_spec(s: Seq<char>) -> Seq<char>
    decreases s.len(),
{
    if s.len() > 0 && is_space(s.last()) {
        trim_end_spec(s.drop_last())
    } else {
        s
    }
}

/// `s` with leading whitespace removed.
pub open spec fn trim_start_spec(s: Seq<char>) -> Seq<char>
    decreases s.len(),
{
    if s.len() > 0 && is_space(s.first()) {
        trim_start_spec(s.subrange(1, s.len() as int))
    } else {
        s
    }
}

/// `s` with whitespace removed from both ends.
pub open spec fn trim_spec(s: Seq<char>) -> Seq<char> {
    trim_start_spec(trim_end_spec(s))
}

/// The number of leading space characters of a line. Only the space
/// character counts as indentation; tabs never do.
pub open spec fn line_indent(s: Seq<char>) -> nat
    decreases s.len(),
{
    if s.len() > 0 && s.first() == ' ' {
        (1 + line_indent(s.subrange(1, s.len() as int))) as nat
    } else {
        0nat
    }
}

/// A line is trimmed when removing trailing whitespace changes nothing.
pub open spec fn is_trimmed(s: Seq<char>) -> bool {
    trim_end_spec(s) == s
}

pub proof fn lemma_trim_end_len(s: Seq<char>)
    ensures
        trim_end_spec(s).len() <= s.len(),
    decreases s.len(),
{
    if s.len() > 0 && is_space(s.last()) {
        lemma_trim_end_len(s.drop_last());
    }
}

/// `trim_end_spec(s)` is the prefix of `s` that ends at the last
/// non-whitespace character.
pub proof fn lemma_trim_end_take(s: Seq<char>, n: int)
    requires
        0 <= n <= s.len(),
        forall|j: int| n <= j < s.len() ==> is_space(s[j]),
        n == 0 || !is_space(s[n - 1]),
    ensures
        trim_end_spec(s) == s.take(n),
    decreases s.len(),
{
    if s.len() > n {
        assert(is_space(s.last()));
        assert(s.drop_last() == s.take(s.len() - 1));
        lemma_trim_end_take(s.drop_last(), n);
        assert(s.drop_last().take(n) =~= s.take(n));
    } else {
        if s.len() == 0 {
            assert(trim_end_spec(s) == s);
        } else {
            assert(!is_space(s.last()));
        }
        assert(s.take(n) =~= s);
    }
}

/// `trim_start_spec(s)` is the suffix of `s` that starts at the first
/// non-whitespace character.
pub proof fn lemma_trim_start_skip(s: Seq<char>, n: int)
    requires
        0 <= n <= s.len(),
        forall|j: int| 0 <= j < n ==> is_space(s[j]),
        n == s.len() || !is_space(s[n]),
    ensures
        trim_start_spec(s) == s.skip(n),
    decreases n,
{
    if n == 0 {
        if s.len() > 0 {
            assert(!is_space(s.first()));
        }
        assert(s.skip(0) =~= s);
    } else {
        assert(is_space(s.first()));
        let t = s.subrange(1, s.len() as int);
        lemma_trim_start_skip(t, n - 1);
        assert(t.skip(n - 1) =~= s.skip(n));
    }
}

/// A trimmed sequence stays trimmed: its last character, if any, is not
/// whitespace.
pub proof fn lemma_trimmed_last(s: Seq<char>)
    requires
        is_trimmed(s),
        s.len() > 0,
    ensures
        !is_space(s.last()),
{
    if is_space(s.last()) {
        lemma_trim_end_len(s.drop_last());
        assert(trim_end_spec(s).len() < s.len());
    }
}

/// Removing trailing whitespace leaves a trimmed line.
pub proof fn lemma_trim_end_idem(s: Seq<char>)
    ensures
        is_trimmed(trim_end_spec(s)),
    decreases s.len(),
{
    if s.len() > 0 && is_space(s.last()) {
        lemma_trim_end_idem(s.drop_last());
    }
}

/// Characterization of `line_indent`: the first `line_indent(s)` characters
/// are spaces and the next one, if any, is not.
pub proof fn lemma_line_indent_bound(s: Seq<char>)
    ensures
        line_indent(s) <= s.len(),
        forall|j: int| 0 <= j < line_indent(s) ==> s[j] == ' ',
        line_indent(s) == s.len() || s[line_indent(s) as int] != ' ',
    decreases s.len(),
{
    if s.len() > 0 && s.first() == ' ' {
        let t = s.subrange(1, s.len() as int);
        lemma_line_indent_bound(t);
        assert forall|j: int| 0 <= j < line_indent(s) implies s[j] == ' ' by {
            if j > 0 {
                assert(t[j - 1] == ' ');
            }
        }
    }
}

/// Converse characterization: a run of `n` leading spaces followed by a
/// non-space (or the end) pins `line_indent` to `n`.
pub proof fn lemma_line_indent_is(s: Seq<char>, n: int)
    requires
        0 <= n <= s.len(),
        forall|j: int| 0 <= j < n ==> s[j] == ' ',
        n == s.len() || s[n] != ' ',
    ensures
        line_indent(s) == n,
    decreases n,
{
    if n == 0 {
        if s.len() > 0 && s.first() == ' ' {
            assert(s[0] == ' ');
        }
    } else {
        assert(s.first() == ' ');
        let t = s.subrange(1, s.len() as int);
        lemma_line_indent_is(t, n - 1);
    }
}

/// Removing `d` leading spaces lowers the indentation by exactly `d`.
pub proof fn lemma_line_indent_skip(s: Seq<char>, d: int)
    requires
        0 <= d <= line_indent(s),
    ensures
        line_indent(s.skip(d)) == line_indent(s) - d,
{
    lemma_line_indent_bound(s);
    let t = s.skip(d);
    assert forall|j: int| 0 <= j < line_indent(s) - d implies t[j] == ' ' by {
        assert(s[j + d] == ' ');
    }
    lemma_line_indent_is(t, line_indent(s) - d);
}

/// A non-empty trimmed line is not all spaces, so its indentation is a
/// proper prefix.
pub proof fn lemma_indent_lt_len(s: Seq<char>)
    requires
        is_trimmed(s),
        s.len() > 0,
    ensures
        line_indent(s) < s.len(),
{
    lemma_trimmed_last(s);
    lemma_line_indent_bound(s);
    if line_indent(s) == s.len() {
        assert(s.last() == ' ');
    }
}

/// A suffix of a trimmed line is trimmed.
pub proof fn lemma_trimmed_skip(s: Seq<char>, d: int)
    requires
        is_trimmed(s),
        0 <= d <= s.len(),
    ensures
        is_trimmed(s.skip(d)),
{
    let t = s.skip(d);
    if t.len() > 0 {
        lemma_trimmed_last(s);
        assert(t.last() == s.last());
        assert(trim_end_spec(t) == t);
    } else {
        assert(t =~= Seq::<char>::empty());
        assert(trim_end_spec(t) == t);
    }
}

/// Whether `c` is ASCII whitespace.
pub fn is_space_ch(c: char) -> (r: bool)
    ensures
        r == is_space(c),
{
    c == ' ' || c == '\t' || c == '\r' || c == '\n'
}

/// Remove trailing whitespace from a string slice.
pub fn trim_end(s: &str) -> (r: &str)
    ensures
        r@ == trim_end_spec(s@),
{
    let len: usize = s.unicode_len();
    let mut k: usize = len;
    while k > 0 && is_space_ch(s.get_char(k - 1))
        invariant
            k <= s@.len(),
            forall|j: int| k <= j < s@.len() ==> is_space(s@[j]),
        decreases k,
    {
        k = k - 1;
    }
    proof {
        lemma_trim_end_take(s@, k as int);
        assert(s@.subrange(0, k as int) =~= s@.take(k as int));
    }
    s.substring_char(0, k)
}

/// Remove leading and trailing whitespace from a string slice.
pub fn trim(s: &str) -> (r: &str)
    ensures
        r@ == trim_spec(s@),
{
    let t = trim_end(s);
    let len: usize = t.unicode_len();
    let mut i: usize = 0;
    while i < len && is_space_ch(t.get_char(i))
        invariant
            i <= t@.len(),
            len == t@.len(),
            forall|j: int| 0 <= j < i ==> is_space(t@[j]),
        decreases len - i,
    {
        i = i + 1;
    }
    proof {
        lemma_trim_start_skip(t@, i as int);
        assert(t@.subrange(i as int, t@.len() as int) =~= t@.skip(i as int));
    }
    t.substring_char(i, len)
}

/// Count the leading space characters of a line.
pub fn leading_spaces(s: &str) -> (r: usize)
    ensures
        r as nat == line_indent(s@),
{
    let len: usize = s.unicode_len();
    let mut i: usize = 0;
    while i < len && s.get_char(i) == ' '
        invariant
            i <= s@.len(),
            len == s@.len(),
            forall|j: int| 0 <= j < i ==> s@[j] == ' ',
        decreases len - i,
    {
        i = i + 1;
    }
    proof {
        lemma_line_indent_is(s@, i as int);
    }
    i
}

/// The single character of a one-character string, or nothing when the
/// string holds any other number of characters.
pub fn str_to_char(s: &str) -> (r: Option<char>)
    ensures
        match r {
            Option::Some(c) => s@.len() == 1 && c == s@[0],
            Option::None => s@.len() != 1,
        },
{
    if s.unicode_len() == 1 {
        Option::Some(s.get_char(0))
    } else {
        Option::None
    }
}

/// Whether two string slices hold the same characters.
pub fn str_eq(a: &str, b: &str) -> (r: bool)
    ensures
        r == (a@ == b@),
{
    let alen: usize = a.unicode_len();
    let blen: usize = b.unicode_len();
    if alen != blen {
        proof {
            assert(a@.len() != b@.len());
        }
        return false;
    }
    let mut i: usize = 0;
    while i < alen
        invariant
            i <= alen,
            alen as nat == a@.len(),
            alen as nat == b@.len(),
            forall|j: int| 0 <= j < i ==> a@[j] == b@[j],
        decreases alen - i,
    {
        if a.get_char(i) != b.get_char(i) {
            proof {
                assert(a@[i as int] != b@[i as int]);
            }
            return false;
        }
        i = i + 1;
    }
    proof {
        assert(a@ =~= b@);
    }
    true
}

} // verus!
