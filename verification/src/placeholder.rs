//! The placeholder grammar: a text scalar is a placeholder exactly when its
//! full text starts with `${` and ends with `}`; the variable name is what
//! stands strictly between them, with surrounding whitespace trimmed.

use vstd::prelude::*;

verus! {

/// Whitespace, for the purpose of trimming a variable name.
pub open spec fn is_space(c: char) -> bool {
    c == ' ' || c == '\t' || c == '\n' || c == '\r' || c == '\u{c}'
}

/// A string is a placeholder when it starts with `${` and ends with `}`.
/// The shortest placeholder is `${}`, whose name is empty.
pub open spec fn spec_is_placeholder(s: Seq<char>) -> bool {
    s.len() >= 3 && s[0] == '$' && s[1] == '{' && s[s.len() - 1] == '}'
}

/// The text with its leading whitespace removed.
pub open spec fn trim_start(s: Seq<char>) -> Seq<char>
    decreases s,
{
    if s.len() > 0 && is_space(s[0]) {
        trim_start(s.subrange(1, s.len() as int))
    } else {
        s
    }
}

/// The text with its trailing whitespace removed.
pub open spec fn trim_end(s: Seq<char>) -> Seq<char>
    decreases s,
{
    if s.len() > 0 && is_space(s[s.len() - 1]) {
        trim_end(s.subrange(0, s.len() - 1))
    } else {
        s
    }
}

/// The text with whitespace removed at both ends.
pub open spec fn trim(s: Seq<char>) -> Seq<char> {
    trim_end(trim_start(s))
}

/// The variable name of a placeholder: what stands strictly between `${`
/// and the final `}`, trimmed.
pub open spec fn spec_placeholder_name(s: Seq<char>) -> Seq<char>
    recommends
        spec_is_placeholder(s),
{
    trim(s.subrange(2, s.len() - 1))
}

/// Whether `c` is whitespace for the purpose of trimming a name.
pub fn is_space_char(c: char) -> (r: bool)
    ensures
        r == is_space(c),
{
    c == ' ' || c == '\t' || c == '\n' || c == '\r' || c == '\u{c}'
}

/// Whether the whole of `s` has the placeholder shape `${`...`}`.
pub fn is_placeholder(s: &str) -> (r: bool)
    ensures
        r == spec_is_placeholder(s@),
{
    let n = s.unicode_len();
    n >= 3 && s.get_char(0) == '$' && s.get_char(1) == '{' && s.get_char(n - 1) == '}'
}

/// Trimming is indifferent to where a leading space is cut off.
proof fn lemma_trim_start_step(s: Seq<char>)
    requires
        s.len() > 0,
        is_space(s[0]),
    ensures
        trim_start(s) == trim_start(s.subrange(1, s.len() as int)),
{
}

/// Trimming is indifferent to where a trailing space is cut off.
proof fn lemma_trim_end_step(s: Seq<char>)
    requires
        s.len() > 0,
        is_space(s[s.len() - 1]),
    ensures
        trim_end(s) == trim_end(s.subrange(0, s.len() - 1)),
{
}

/// The variable name of a placeholder `s`, extracted and trimmed.
pub fn placeholder_name(s: &str) -> (r: String)
    requires
        spec_is_placeholder(s@),
    ensures
        r@ == spec_placeholder_name(s@),
{
    let ghost inner = s@.subrange(2, s@.len() - 1);
    let n = s.unicode_len();
    let hi_start: usize = n - 1;
    let mut lo: usize = 2;
    while lo < hi_start && is_space_char(s.get_char(lo))
        invariant
            2 <= lo <= hi_start == s@.len() - 1,
            trim_start(inner) == trim_start(s@.subrange(lo as int, s@.len() - 1)),
        decreases hi_start - lo,
    {
        proof {
            let cur = s@.subrange(lo as int, s@.len() - 1);
            lemma_trim_start_step(cur);
            assert(cur.subrange(1, cur.len() as int) =~= s@.subrange(lo + 1, s@.len() - 1));
        }
        lo = lo + 1;
    }
    let mut hi: usize = hi_start;
    proof {
        assert(trim_start(s@.subrange(lo as int, hi as int)) == s@.subrange(
            lo as int,
            hi as int,
        ));
    }
    while hi > lo && is_space_char(s.get_char(hi - 1))
        invariant
            2 <= lo <= hi <= s@.len() - 1,
            trim(inner) == trim_end(s@.subrange(lo as int, hi as int)),
        decreases hi - lo,
    {
        proof {
            let cur = s@.subrange(lo as int, hi as int);
            lemma_trim_end_step(cur);
            assert(cur.subrange(0, cur.len() - 1) =~= s@.subrange(lo as int, hi - 1));
        }
        hi = hi - 1;
    }
    proof {
        assert(trim_end(s@.subrange(lo as int, hi as int)) == s@.subrange(lo as int, hi as int));
    }
    let name = s.substring_char(lo, hi);
    name.to_owned()
}

} // verus!
