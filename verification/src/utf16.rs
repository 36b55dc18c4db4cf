//! The UTF-16 code-unit view of text.
//!
//! Mention annotations address their host text in UTF-16 code units, so
//! the text is re-indexed into code units before slicing, and the slice
//! is decoded back to characters afterwards.  Decoding is lossy: a code
//! unit that is half of a broken surrogate pair becomes the replacement
//! character.

use vstd::prelude::*;
use vstd::string::*;

verus! {

/// The UTF-16 encoding of one character: scalar values below 0x10000
/// are one code unit, the rest a surrogate pair.
pub open spec fn utf16_char(c: char) -> Seq<u16> {
    if (c as int) < 0x10000 {
        seq![c as u16]
    } else {
        seq![
            (0xD800 + (((c as int) - 0x10000) / 0x400)) as u16,
            (0xDC00 + (((c as int) - 0x10000) % 0x400)) as u16,
        ]
    }
}

/// The UTF-16 encoding of a character sequence.
pub open spec fn utf16_seq(s: Seq<char>) -> Seq<u16>
    decreases s.len(),
{
    if s.len() == 0 {
        Seq::empty()
    } else {
        utf16_char(s[0]) + utf16_seq(s.drop_first())
    }
}

pub proof fn lemma_utf16_seq_push(s: Seq<char>, c: char)
    ensures
        utf16_seq(s.push(c)) == utf16_seq(s) + utf16_char(c),
    decreases s.len(),
{
    if s.len() == 0 {
        assert(s.push(c)[0] == c);
        assert(s.push(c).drop_first() =~= Seq::<char>::empty());
        assert(utf16_seq(s.push(c)) == utf16_char(c) + utf16_seq(Seq::<char>::empty()));
        assert(utf16_seq(Seq::<char>::empty()) == Seq::<u16>::empty());
        assert(utf16_char(c) + Seq::<u16>::empty() =~= utf16_char(c));
        assert(utf16_seq(s) + utf16_char(c) =~= utf16_char(c));
    } else {
        assert(s.push(c).drop_first() =~= s.drop_first().push(c));
        lemma_utf16_seq_push(s.drop_first(), c);
        assert(utf16_seq(s.push(c)) == utf16_char(s[0]) + (utf16_seq(s.drop_first())
            + utf16_char(c)));
        assert(utf16_char(s[0]) + (utf16_seq(s.drop_first()) + utf16_char(c)) =~= utf16_seq(s)
            + utf16_char(c));
    }
}

/// Encode text into its UTF-16 code units.
pub fn utf16_units(s: &str) -> (v: Vec<u16>)
    ensures
        v@ == utf16_seq(s@),
{
    let n = s.unicode_len();
    let mut v: Vec<u16> = Vec::new();
    let mut i: usize = 0;
    while i < n
        invariant
            n == s@.len(),
            i <= n,
            v@ == utf16_seq(s@.take(i as int)),
        decreases n - i,
    {
        let c = s.get_char(i);
        let u = c as u32;
        if u < 0x10000 {
            v.push(u as u16);
        } else {
            v.push((0xD800 + ((u - 0x10000) / 0x400)) as u16);
            v.push((0xDC00 + ((u - 0x10000) % 0x400)) as u16);
        }
        proof {
            lemma_utf16_seq_push(s@.take(i as int), s@[i as int]);
            assert(s@.take(i as int).push(s@[i as int]) =~= s@.take(i + 1 as int));
            assert(v@ =~= utf16_seq(s@.take(i as int)) + utf16_char(s@[i as int]));
        }
        i = i + 1;
    }
    proof {
        assert(s@.take(n as int) =~= s@);
    }
    v
}

/// A code unit in the range reserved for the first half of a pair.
pub open spec fn is_high_surrogate(u: u16) -> bool {
    0xD800 <= u && u <= 0xDBFF
}

/// A code unit in the range reserved for the second half of a pair.
pub open spec fn is_low_surrogate(u: u16) -> bool {
    0xDC00 <= u && u <= 0xDFFF
}

/// The character encoded by a surrogate pair.
pub open spec fn combine_surrogates(hi: u16, lo: u16) -> char {
    (0x10000 + (hi - 0xD800) * 0x400 + (lo - 0xDC00)) as char
}

/// Lossy decoding of UTF-16 code units: a pair combines, an unpaired
/// surrogate becomes U+FFFD, and any other unit is its own character.
pub open spec fn utf16_decode(u: Seq<u16>) -> Seq<char>
    decreases u.len(),
{
    if u.len() == 0 {
        Seq::empty()
    } else if is_high_surrogate(u[0]) && u.len() >= 2 && is_low_surrogate(u[1]) {
        seq![combine_surrogates(u[0], u[1])] + utf16_decode(u.skip(2))
    } else if is_high_surrogate(u[0]) || is_low_surrogate(u[0]) {
        seq!['\u{FFFD}'] + utf16_decode(u.skip(1))
    } else {
        seq![u[0] as char] + utf16_decode(u.skip(1))
    }
}

/// Decode the code units in `v[from..to]`.
pub fn decode_utf16_range(v: &Vec<u16>, from: usize, to: usize) -> (out: Vec<char>)
    requires
        from <= to <= v@.len(),
    ensures
        out@ == utf16_decode(v@.subrange(from as int, to as int)),
{
    let ghost w = v@.subrange(from as int, to as int);
    let mut out: Vec<char> = Vec::new();
    let mut i = from;
    proof {
        assert(w.skip(0) =~= w);
        assert(utf16_decode(w) =~= Seq::<char>::empty() + utf16_decode(w.skip(0)));
    }
    while i < to
        invariant
            from <= i <= to <= v@.len(),
            w == v@.subrange(from as int, to as int),
            utf16_decode(w) == out@ + utf16_decode(w.skip(i - from)),
        decreases to - i,
    {
        let ghost rest = w.skip(i - from);
        proof {
            assert(rest[0] == v@[i as int]);
            assert(rest.len() == to - i);
        }
        let u0 = v[i];
        if 0xD800 <= u0 && u0 <= 0xDBFF {
            if i + 1 < to && 0xDC00 <= v[i + 1] && v[i + 1] <= 0xDFFF {
                let u1 = v[i + 1];
                proof {
                    assert(rest[1] == v@[i + 1 as int]);
                }
                let cp: u32 = 0x10000 + ((u0 as u32) - 0xD800) * 0x400 + ((u1 as u32) - 0xDC00);
                let c = char::from_u32(cp).unwrap();
                out.push(c);
                proof {
                    assert(c == combine_surrogates(u0, u1));
                    assert(utf16_decode(rest) == seq![combine_surrogates(u0, u1)]
                        + utf16_decode(rest.skip(2)));
                    assert(rest.skip(2) =~= w.skip(i + 2 - from));
                    assert(utf16_decode(w) =~= out@ + utf16_decode(w.skip(i + 2 - from)));
                }
                i = i + 2;
            } else {
                out.push('\u{FFFD}');
                proof {
                    if i + 1 < to {
                        assert(rest[1] == v@[i + 1 as int]);
                    }
                    assert(utf16_decode(rest) == seq!['\u{FFFD}'] + utf16_decode(rest.skip(1)));
                    assert(rest.skip(1) =~= w.skip(i + 1 - from));
                    assert(utf16_decode(w) =~= out@ + utf16_decode(w.skip(i + 1 - from)));
                }
                i = i + 1;
            }
        } else if 0xDC00 <= u0 && u0 <= 0xDFFF {
            out.push('\u{FFFD}');
            proof {
                assert(utf16_decode(rest) == seq!['\u{FFFD}'] + utf16_decode(rest.skip(1)));
                assert(rest.skip(1) =~= w.skip(i + 1 - from));
                assert(utf16_decode(w) =~= out@ + utf16_decode(w.skip(i + 1 - from)));
            }
            i = i + 1;
        } else {
            let c = char::from_u32(u0 as u32).unwrap();
            out.push(c);
            proof {
                assert(c == (u0 as char));
                assert(utf16_decode(rest) == seq![(u0 as char)] + utf16_decode(rest.skip(1)));
                assert(rest.skip(1) =~= w.skip(i + 1 - from));
                assert(utf16_decode(w) =~= out@ + utf16_decode(w.skip(i + 1 - from)));
            }
            i = i + 1;
        }
    }
    proof {
        assert(w.skip(to - from) =~= Seq::<u16>::empty());
        assert(out@ =~= utf16_decode(w));
    }
    out
}

} // verus!
