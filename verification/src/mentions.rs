//! The reference classifier for structured mention annotations.
//!
//! A mention annotation carries a UTF-16 code-unit offset and length
//! into its host text.  Classification slices the text by those
//! coordinates, strips every leading `@` sigil, trims surrounding
//! whitespace, case-folds the identifier and wraps it as a mention
//! reference.

use crate::chars::{is_space_char, lower_seq, space_char, to_lower_char};
use crate::links::{LinkType, LinkTypeV};
use crate::utf16::{decode_utf16_range, utf16_seq, utf16_units, utf16_decode};
use vstd::prelude::*;
use vstd::string::*;

verus! {

/// A structured mention annotation: a window into the host text,
/// addressed in UTF-16 code units.
#[derive(Clone, Copy, Debug, PartialEq, Eq, Structural)]
pub struct MentionSpan {
    /// First UTF-16 code unit covered by the annotation.
    pub offset: usize,
    /// Number of UTF-16 code units covered.
    pub length: usize,
}

/// The sequence without its leading `@` sigils.
pub open spec fn strip_ats(s: Seq<char>) -> Seq<char>
    decreases s.len(),
{
    if s.len() > 0 && s[0] == '@' {
        strip_ats(s.drop_first())
    } else {
        s
    }
}

/// The sequence without its leading whitespace.
pub open spec fn strip_leading_space(s: Seq<char>) -> Seq<char>
    decreases s.len(),
{
    if s.len() > 0 && is_space_char(s[0]) {
        strip_leading_space(s.drop_first())
    } else {
        s
    }
}

/// The sequence without its trailing whitespace.
pub open spec fn strip_trailing_space(s: Seq<char>) -> Seq<char>
    decreases s.len(),
{
    if s.len() > 0 && is_space_char(s[s.len() - 1]) {
        strip_trailing_space(s.drop_last())
    } else {
        s
    }
}

/// The identifier of a mention annotation over `t` covering code units
/// `[off, off + len)`: the decoded slice, `@`-stripped, trimmed and
/// case-folded.
pub open spec fn mention_ident(t: Seq<char>, off: int, len: int) -> Seq<char> {
    lower_seq(
        strip_trailing_space(
            strip_leading_space(strip_ats(utf16_decode(utf16_seq(t).subrange(off, off + len)))),
        ),
    )
}

/// Classify one mention annotation over `text`.
///
/// Coordinates outside the encoded text violate the annotation
/// contract and are excluded by precondition.
pub fn classify_mention(text: &str, span: MentionSpan) -> (r: LinkType)
    requires
        span.offset + span.length <= utf16_seq(text@).len(),
    ensures
        r@ == LinkTypeV::Mention(
            mention_ident(text@, span.offset as int, span.length as int),
        ),
{
    let units = utf16_units(text);
    let nu = units.len();
    assert(span.offset + span.length <= nu);
    let to = span.offset + span.length;
    let chars = decode_utf16_range(&units, span.offset, to);
    let ghost c = chars@;
    let n = chars.len();

    let mut start: usize = 0;
    proof {
        assert(c.skip(0) =~= c);
    }
    while start < n && chars[start] == '@'
        invariant
            n == c.len(),
            c == chars@,
            start <= n,
            strip_ats(c) == strip_ats(c.skip(start as int)),
        decreases n - start,
    {
        proof {
            assert(c.skip(start as int)[0] == c[start as int]);
            assert(c.skip(start as int).drop_first() =~= c.skip(start + 1 as int));
        }
        start = start + 1;
    }
    proof {
        assert(strip_ats(c) == c.skip(start as int));
    }
    let ghost s0 = start as int;

    while start < n && space_char(chars[start])
        invariant
            n == c.len(),
            c == chars@,
            start <= n,
            s0 <= start,
            strip_ats(c) == c.skip(s0),
            strip_leading_space(c.skip(s0)) == strip_leading_space(c.skip(start as int)),
        decreases n - start,
    {
        proof {
            assert(c.skip(start as int)[0] == c[start as int]);
            assert(c.skip(start as int).drop_first() =~= c.skip(start + 1 as int));
        }
        start = start + 1;
    }
    proof {
        assert(strip_leading_space(c.skip(s0)) == c.skip(start as int));
    }
    let ghost s1 = start as int;
    let ghost mid = c.skip(s1);

    let mut end: usize = n;
    proof {
        assert(mid.take(n - s1) =~= mid);
    }
    while end > start && space_char(chars[end - 1])
        invariant
            n == c.len(),
            c == chars@,
            s1 == start,
            start <= end <= n,
            mid == c.skip(s1),
            strip_trailing_space(mid) == strip_trailing_space(mid.take(end - s1)),
        decreases end,
    {
        proof {
            let k = end - s1;
            assert(mid.take(k)[k - 1] == c[end - 1 as int]);
            assert(mid.take(k).drop_last() =~= mid.take(k - 1));
        }
        end = end - 1;
    }
    proof {
        if end - s1 > 0 {
            assert(mid.take(end - s1)[end - s1 - 1] == c[end - 1 as int]);
        }
        assert(strip_trailing_space(mid) == mid.take(end - s1));
        assert(mid.take(end - s1) =~= c.subrange(s1, end as int));
    }

    let mut ident = String::new();
    let mut j = start;
    while j < end
        invariant
            n == c.len(),
            c == chars@,
            start <= j <= end <= n,
            ident@ == lower_seq(c.subrange(start as int, j as int)),
        decreases end - j,
    {
        ident.push(to_lower_char(chars[j]));
        proof {
            assert(lower_seq(c.subrange(start as int, j + 1 as int)) =~= lower_seq(
                c.subrange(start as int, j as int),
            ).push(crate::chars::lower_char(c[j as int])));
        }
        j = j + 1;
    }
    LinkType::Mention(ident)
}

} // verus!
