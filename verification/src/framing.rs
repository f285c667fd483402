//! Output framing: each serialized document is written without the leading
//! document-separator marker the serializer may emit, followed by a newline
//! and a fresh separator, so that the output stream keeps the input's
//! separator-delimited convention.

use vstd::prelude::*;

verus! {

/// Whether `s` begins with the three-character document separator `---`.
pub open spec fn starts_with_marker(s: Seq<char>) -> bool {
    s.len() >= 3 && s[0] == '-' && s[1] == '-' && s[2] == '-'
}

/// The text with every leading repetition of the separator removed.
pub open spec fn strip_markers(s: Seq<char>) -> Seq<char>
    decreases s,
{
    if starts_with_marker(s) {
        strip_markers(s.subrange(3, s.len() as int))
    } else {
        s
    }
}

/// A serialized document, framed for the output stream: leading separators
/// stripped, a newline and a separator appended.
pub open spec fn spec_frame_document(s: Seq<char>) -> Seq<char> {
    strip_markers(s) + "\n---"@
}

/// Stripping is indifferent to where a leading separator is cut off.
proof fn lemma_strip_markers_step(s: Seq<char>)
    requires
        starts_with_marker(s),
    ensures
        strip_markers(s) == strip_markers(s.subrange(3, s.len() as int)),
{
}

/// Whether the separator `---` stands at position `start` of `s`.
fn marker_at(s: &str, start: usize, n: usize) -> (r: bool)
    requires
        start <= n == s@.len(),
    ensures
        r == starts_with_marker(s@.subrange(start as int, s@.len() as int)),
{
    n - start >= 3 && s.get_char(start) == '-' && s.get_char(start + 1) == '-' && s.get_char(
        start + 2,
    ) == '-'
}

/// Frames one serialized document for the output stream.
pub fn frame_document(s: &str) -> (r: String)
    ensures
        r@ == spec_frame_document(s@),
{
    let n = s.unicode_len();
    let mut start: usize = 0;
    proof {
        assert(s@.subrange(0, s@.len() as int) =~= s@);
    }
    while marker_at(s, start, n)
        invariant
            start <= s@.len(),
            n == s@.len(),
            strip_markers(s@) == strip_markers(s@.subrange(start as int, s@.len() as int)),
        decreases n - start,
    {
        proof {
            let cur = s@.subrange(start as int, s@.len() as int);
            lemma_strip_markers_step(cur);
            assert(cur.subrange(3, cur.len() as int) =~= s@.subrange(
                start + 3,
                s@.len() as int,
            ));
        }
        start = start + 3;
    }
    proof {
        let cur = s@.subrange(start as int, s@.len() as int);
        assert(!starts_with_marker(cur));
        assert(strip_markers(cur) == cur);
    }
    let mut out = s.substring_char(start, n).to_owned();
    out.append("\n---");
    out
}

} // verus!
