//! Terminal display width of characters and line prefixes.
//!
//! A character occupies 0, 1 or 2 terminal columns. What a given character
//! occupies is decided by the `unicode_width` crate; this module gives that
//! result a name and sums it over a prefix of a line.

use vstd::prelude::*;
use crate::text::char_bytes;
use crate::text::prefix_bytes;
use unicode_width::UnicodeWidthChar;

verus! {

/// Number of terminal columns the glyph of `c` occupies, a function of the
/// character alone. Control characters count 0 columns here.
pub uninterp spec fn char_display_width(c: char) -> nat;

/// Relies on unicode_width's `UnicodeWidthChar::width`: the displayed width
/// of a character is a function of the character alone; it is 1 to 3
/// columns, or `None` for control characters, which count 0 here. Characters
/// below `0x80` take at most one column, characters below `0x800` at most
/// two — so a character never takes more columns than UTF-8 bytes.
#[verifier::external_body]
pub fn char_width(c: char) -> (w: usize)
    ensures
        w == char_display_width(c),
        w <= 3,
        (c as u32) < 0x80 ==> w <= 1,
        (c as u32) < 0x800 ==> w <= 2,
{
    UnicodeWidthChar::width(c).unwrap_or(0)
}

/// Total displayed width of a sequence of characters.
pub open spec fn seq_width(s: Seq<char>) -> nat
    decreases s.len(),
{
    if s.len() == 0 {
        0
    } else {
        seq_width(s.drop_last()) + char_display_width(s.last())
    }
}

/// Displayed width distributes over extending a sequence by one character.
pub proof fn lemma_seq_width_push(s: Seq<char>, c: char)
    ensures
        seq_width(s.push(c)) == seq_width(s) + char_display_width(c),
{
    assert(s.push(c).drop_last() =~= s);
    assert(s.push(c).last() == c);
}

/// Displayed width of the first `k` characters of `line`.
pub fn prefix_width(line: &Vec<char>, k: usize) -> (w: usize)
    requires
        k <= line@.len(),
        prefix_bytes(line@, k as int) <= usize::MAX,
    ensures
        w == seq_width(line@.take(k as int)),
{
    let mut i: usize = 0;
    let mut acc: usize = 0;
    while i < k
        invariant
            i <= k <= line@.len(),
            acc == seq_width(line@.take(i as int)),
            acc <= prefix_bytes(line@, i as int),
            prefix_bytes(line@, k as int) <= usize::MAX,
        decreases k - i,
    {
        proof {
            crate::text::lemma_prefix_bytes_mono(line@, i as int + 1, k as int);
        }
        let w1 = char_width(line[i]);
        proof {
            assert(w1 <= char_bytes(line@[i as int]));
            assert(line@.take(i as int + 1) =~= line@.take(i as int).push(line@[i as int]));
            lemma_seq_width_push(line@.take(i as int), line@[i as int]);
        }
        acc = acc + w1;
        i = i + 1;
    }
    acc
}

} // verus!
