//! Byte-offset arithmetic over lines of text.
//!
//! A line is a sequence of characters; a cursor column is a byte offset into
//! the UTF-8 encoding of the line. This module defines what a character
//! boundary is in terms of per-character encoded lengths, and provides the
//! executable translation between byte offsets and character indices.

use vstd::prelude::*;
use vstd::string::StrSliceExecFns;
use vstd::utf8::char_is_scalar;
use vstd::utf8::encode_scalar;
use vstd::utf8::encode_utf8;

verus! {

/// Number of bytes the UTF-8 encoding of `c` occupies: 1 to 4, by the
/// value of the scalar.
pub open spec fn char_bytes(c: char) -> nat {
    if (c as u32) < 0x80 {
        1
    } else if (c as u32) < 0x800 {
        2
    } else if (c as u32) < 0x10000 {
        3
    } else {
        4
    }
}

/// Byte length of the UTF-8 encoding of the first `k` characters of `s`.
pub open spec fn prefix_bytes(s: Seq<char>, k: int) -> nat
    decreases k,
{
    if k <= 0 {
        0
    } else {
        prefix_bytes(s, k - 1) + char_bytes(s[k - 1])
    }
}

/// Byte length of the UTF-8 encoding of all of `s`.
pub open spec fn byte_len(s: Seq<char>) -> nat {
    prefix_bytes(s, s.len() as int)
}

/// `col` is a character boundary of `s`: the byte length of some character
/// prefix of `s`.
pub open spec fn is_boundary(s: Seq<char>, col: int) -> bool {
    exists|k: int| 0 <= k <= s.len() && #[trigger] prefix_bytes(s, k) == col
}

/// The character index whose prefix occupies exactly `col` bytes.
/// Meaningful only when `is_boundary(s, col)` holds; unique by
/// `lemma_prefix_bytes_injective`.
pub open spec fn char_index_of(s: Seq<char>, col: int) -> int {
    choose|k: int| 0 <= k <= s.len() && #[trigger] prefix_bytes(s, k) == col
}

/// What `char_index_of` returns at a boundary offset: an in-range character
/// index whose prefix occupies exactly that many bytes.
pub proof fn lemma_char_index_props(s: Seq<char>, col: int)
    requires
        is_boundary(s, col),
    ensures
        0 <= char_index_of(s, col) <= s.len(),
        prefix_bytes(s, char_index_of(s, col)) == col,
{
    let k = char_index_of(s, col);
    assert(0 <= k <= s.len() && prefix_bytes(s, k) == col);
}

/// A boundary offset never lies past the end of the line.
pub proof fn lemma_boundary_le(s: Seq<char>, col: int)
    requires
        is_boundary(s, col),
    ensures
        0 <= col <= byte_len(s),
{
    let k = char_index_of(s, col);
    lemma_char_index_props(s, col);
    lemma_prefix_bytes_mono(s, 0, k);
    lemma_prefix_bytes_mono(s, k, s.len() as int);
}

/// `prefix_bytes` only looks at the first `k` characters.
pub proof fn lemma_prefix_bytes_agree(s: Seq<char>, t: Seq<char>, k: int)
    requires
        0 <= k <= s.len(),
        k <= t.len(),
        s.take(k) == t.take(k),
    ensures
        prefix_bytes(s, k) == prefix_bytes(t, k),
    decreases k,
{
    if k > 0 {
        assert(s.take(k)[k - 1] == s[k - 1]);
        assert(t.take(k)[k - 1] == t[k - 1]);
        assert(s.take(k - 1) =~= s.take(k).take(k - 1));
        assert(t.take(k - 1) =~= t.take(k).take(k - 1));
        lemma_prefix_bytes_agree(s, t, k - 1);
    }
}

/// Prefix byte lengths grow strictly with the character index.
pub proof fn lemma_prefix_bytes_mono(s: Seq<char>, k1: int, k2: int)
    requires
        0 <= k1 <= k2,
    ensures
        prefix_bytes(s, k1) + (k2 - k1) <= prefix_bytes(s, k2),
    decreases k2 - k1,
{
    if k1 < k2 {
        lemma_prefix_bytes_mono(s, k1, k2 - 1);
    }
}

/// Two character prefixes of the same byte length are the same prefix.
pub proof fn lemma_prefix_bytes_injective(s: Seq<char>, k1: int, k2: int)
    requires
        0 <= k1,
        0 <= k2,
        prefix_bytes(s, k1) == prefix_bytes(s, k2),
    ensures
        k1 == k2,
{
    if k1 < k2 {
        lemma_prefix_bytes_mono(s, k1, k2);
    } else if k2 < k1 {
        lemma_prefix_bytes_mono(s, k2, k1);
    }
}

/// Byte length distributes over concatenation of character sequences.
pub proof fn lemma_prefix_bytes_concat(s: Seq<char>, t: Seq<char>, k: int)
    requires
        0 <= k <= t.len(),
    ensures
        prefix_bytes(s + t, s.len() + k) == byte_len(s) + prefix_bytes(t, k),
    decreases k,
{
    if k == 0 {
        assert((s + t).take(s.len() as int) =~= s.take(s.len() as int));
        lemma_prefix_bytes_agree(s + t, s, s.len() as int);
    } else {
        lemma_prefix_bytes_concat(s, t, k - 1);
        assert((s + t)[s.len() + k - 1] == t[k - 1]);
    }
}

/// Byte length of a concatenation is the sum of the byte lengths.
pub proof fn lemma_byte_len_concat(s: Seq<char>, t: Seq<char>)
    ensures
        byte_len(s + t) == byte_len(s) + byte_len(t),
{
    lemma_prefix_bytes_concat(s, t, t.len() as int);
}

/// Byte length of a character prefix, seen as a sequence of its own.
pub proof fn lemma_byte_len_take(s: Seq<char>, k: int)
    requires
        0 <= k <= s.len(),
    ensures
        byte_len(s.take(k)) == prefix_bytes(s, k),
{
    assert(s.take(k).take(k) =~= s.take(k));
    lemma_prefix_bytes_agree(s.take(k), s, k);
}

/// Inserting a character adds its encoded length to the line and leaves the
/// bytes before the insertion point in place.
pub proof fn lemma_byte_len_insert(s: Seq<char>, i: int, c: char)
    requires
        0 <= i <= s.len(),
    ensures
        byte_len(s.insert(i, c)) == byte_len(s) + char_bytes(c),
        prefix_bytes(s.insert(i, c), i) == prefix_bytes(s, i),
        prefix_bytes(s.insert(i, c), i + 1) == prefix_bytes(s, i) + char_bytes(c),
{
    let t = s.insert(i, c);
    assert(t =~= s.take(i) + (seq![c] + s.skip(i)));
    assert(s =~= s.take(i) + s.skip(i));
    lemma_byte_len_concat(s.take(i), seq![c] + s.skip(i));
    lemma_byte_len_concat(s.take(i), s.skip(i));
    lemma_byte_len_concat(seq![c], s.skip(i));
    assert(byte_len(seq![c]) == char_bytes(c)) by {
        assert(prefix_bytes(seq![c], 0) == 0);
    }
    lemma_byte_len_take(s, i);
    assert(t.take(i) =~= s.take(i));
    lemma_prefix_bytes_agree(t, s, i);
    lemma_prefix_bytes_concat(s.take(i), seq![c] + s.skip(i), 1);
    assert(prefix_bytes(seq![c] + s.skip(i), 1) == char_bytes(c)) by {
        assert(prefix_bytes(seq![c] + s.skip(i), 0) == 0);
        assert((seq![c] + s.skip(i))[0] == c);
    }
}

/// Removing a character subtracts its encoded length from the line and
/// leaves the bytes before the removal point in place.
pub proof fn lemma_byte_len_remove(s: Seq<char>, i: int)
    requires
        0 <= i < s.len(),
    ensures
        byte_len(s.remove(i)) + char_bytes(s[i]) == byte_len(s),
        prefix_bytes(s.remove(i), i) == prefix_bytes(s, i),
    decreases s.len(),
{
    let t = s.remove(i);
    assert(t =~= s.take(i) + s.skip(i + 1));
    assert(s =~= s.take(i + 1) + s.skip(i + 1));
    lemma_byte_len_concat(s.take(i), s.skip(i + 1));
    lemma_byte_len_concat(s.take(i + 1), s.skip(i + 1));
    lemma_byte_len_take(s, i);
    lemma_byte_len_take(s, i + 1);
    assert(t.take(i) =~= s.take(i));
    lemma_prefix_bytes_agree(t, s, i);
}

/// `char_bytes` agrees with the length of the UTF-8 encoding of a character
/// as vstd defines it.
pub proof fn lemma_char_bytes_encode_scalar(c: char)
    ensures
        char_bytes(c) == encode_scalar(c as u32).len(),
{
    char_is_scalar(c);
}

/// `byte_len` agrees with the length of the UTF-8 encoding of a character
/// sequence as vstd defines it.
pub proof fn lemma_byte_len_encode_utf8(s: Seq<char>)
    ensures
        byte_len(s) == encode_utf8(s).len(),
    decreases s.len(),
{
    if s.len() == 0 {
    } else {
        let hd = s.take(1);
        let tl = s.skip(1);
        assert(s =~= hd + tl);
        lemma_byte_len_concat(hd, tl);
        lemma_byte_len_encode_utf8(tl);
        lemma_char_bytes_encode_scalar(s[0]);
        assert(hd[0] == s[0]);
        assert(prefix_bytes(hd, 0) == 0);
        assert(byte_len(hd) == prefix_bytes(hd, 1));
        assert(byte_len(hd) == char_bytes(s[0]));
        assert(encode_utf8(s) == encode_scalar(s[0] as u32) + encode_utf8(s.drop_first()));
        assert(tl =~= s.drop_first());
    }
}

/// Byte offset of the next character boundary: the smallest boundary
/// strictly after `col`, or the line's byte length when `col` is already at
/// or past the last boundary.
pub open spec fn spec_next_boundary(s: Seq<char>, col: int) -> int {
    if col < byte_len(s) {
        prefix_bytes(s, char_index_of(s, col) + 1) as int
    } else {
        byte_len(s) as int
    }
}

/// Byte offset of the previous character boundary: the largest boundary
/// strictly before `col`, or 0 when `col` is already at the start.
pub open spec fn spec_prev_boundary(s: Seq<char>, col: int) -> int {
    if col > 0 {
        prefix_bytes(s, char_index_of(s, col) - 1) as int
    } else {
        0
    }
}

/// Character index of the last boundary whose byte offset is at most `b`,
/// scanning up from character index `k`.
pub open spec fn floor_from(s: Seq<char>, k: int, b: int) -> int
    decreases s.len() - k,
{
    if k < 0 || k >= s.len() {
        k
    } else if prefix_bytes(s, k + 1) <= b {
        floor_from(s, k + 1, b)
    } else {
        k
    }
}

/// Character index of the last boundary of `s` at or before byte offset `b`.
pub open spec fn floor_char_index(s: Seq<char>, b: int) -> int {
    floor_from(s, 0, b)
}

pub proof fn lemma_floor_from_props(s: Seq<char>, k: int, b: int)
    requires
        0 <= k <= s.len(),
        prefix_bytes(s, k) <= b,
    ensures
        k <= floor_from(s, k, b) <= s.len(),
        prefix_bytes(s, floor_from(s, k, b)) <= b,
        floor_from(s, k, b) < s.len() ==> prefix_bytes(s, floor_from(s, k, b) + 1) > b,
    decreases s.len() - k,
{
    if k < s.len() && prefix_bytes(s, k + 1) <= b {
        lemma_floor_from_props(s, k + 1, b);
    }
}

/// At a boundary offset, the floor boundary is the offset itself.
pub proof fn lemma_floor_exact(s: Seq<char>, b: int)
    requires
        is_boundary(s, b),
    ensures
        prefix_bytes(s, floor_char_index(s, b)) == b,
{
    let kstar = char_index_of(s, b);
    let j = floor_char_index(s, b);
    lemma_floor_from_props(s, 0, b);
    if kstar <= j {
        lemma_prefix_bytes_mono(s, kstar, j);
    } else {
        lemma_prefix_bytes_mono(s, j + 1, kstar);
    }
}

/// Past the end of the line, the floor boundary is the end of the line.
pub proof fn lemma_floor_clamp(s: Seq<char>, b: int)
    requires
        b >= byte_len(s),
    ensures
        floor_char_index(s, b) == s.len(),
        prefix_bytes(s, floor_char_index(s, b)) == byte_len(s),
{
    lemma_floor_from_props(s, 0, b);
    let j = floor_char_index(s, b);
    if j < s.len() {
        lemma_prefix_bytes_mono(s, j + 1, s.len() as int);
    }
}

/// Number of bytes `c` occupies when encoded in UTF-8.
pub fn char_len(c: char) -> (n: usize)
    ensures
        n == char_bytes(c),
{
    let u = c as u32;
    if u < 0x80 {
        1
    } else if u < 0x800 {
        2
    } else if u < 0x10000 {
        3
    } else {
        4
    }
}

/// Translates a boundary byte offset into the index of the first character
/// after the boundary.
pub fn find_char_index(line: &Vec<char>, col: usize) -> (k: usize)
    requires
        is_boundary(line@, col as int),
    ensures
        k <= line@.len(),
        prefix_bytes(line@, k as int) == col,
{
    let ghost kw = char_index_of(line@, col as int);
    let n = line.len();
    let mut k: usize = 0;
    let mut acc: usize = 0;
    while acc < col
        invariant
            0 <= kw <= line@.len(),
            line@.len() == n,
            prefix_bytes(line@, kw) == col,
            k <= kw,
            acc == prefix_bytes(line@, k as int),
            acc <= col,
        decreases col - acc,
    {
        proof {
            lemma_prefix_bytes_mono(line@, k as int, kw);
            if k as int == kw {
                assert(acc == col);
            }
            lemma_prefix_bytes_mono(line@, k as int + 1, kw);
        }
        acc = acc + char_len(line[k]);
        k = k + 1;
    }
    proof {
        lemma_prefix_bytes_injective(line@, k as int, kw);
    }
    k
}

/// Moves a boundary byte offset one character forward; never splits a
/// multi-byte character.
pub fn next_boundary(line: &Vec<char>, col: usize) -> (r: usize)
    requires
        is_boundary(line@, col as int),
        byte_len(line@) <= usize::MAX,
    ensures
        r as int == spec_next_boundary(line@, col as int),
        is_boundary(line@, r as int),
{
    let k = find_char_index(line, col);
    proof {
        lemma_char_index_props(line@, col as int);
        lemma_prefix_bytes_injective(line@, k as int, char_index_of(line@, col as int));
        if (k as int) < line@.len() {
            lemma_prefix_bytes_mono(line@, k as int + 1, line@.len() as int);
        }
    }
    if k < line.len() {
        col + char_len(line[k])
    } else {
        col
    }
}

/// Moves a boundary byte offset one character back; never splits a
/// multi-byte character.
pub fn prev_boundary(line: &Vec<char>, col: usize) -> (r: usize)
    requires
        is_boundary(line@, col as int),
    ensures
        r as int == spec_prev_boundary(line@, col as int),
        is_boundary(line@, r as int),
{
    if col == 0 {
        proof {
            assert(prefix_bytes(line@, 0) == 0);
        }
        return 0;
    }
    let k = find_char_index(line, col);
    proof {
        lemma_char_index_props(line@, col as int);
        lemma_prefix_bytes_injective(line@, k as int, char_index_of(line@, col as int));
        assert(k >= 1) by {
            assert(prefix_bytes(line@, 0) == 0);
        }
        assert(prefix_bytes(line@, k as int) == prefix_bytes(line@, k as int - 1) + char_bytes(
            line@[k as int - 1],
        ));
    }
    col - char_len(line[k - 1])
}

/// Relies on String::push: appends the given character to the end of the
/// string.
#[verifier::external_body]
fn push_char(s: &mut String, c: char)
    ensures
        final(s)@ == old(s)@.push(c),
{
    s.push(c);
}

/// Builds the string holding exactly the characters of `line`.
pub fn chars_to_string(line: &Vec<char>) -> (r: String)
    ensures
        r@ == line@,
{
    let mut r = String::new();
    let mut i: usize = 0;
    while i < line.len()
        invariant
            i <= line@.len(),
            r@ == line@.take(i as int),
        decreases line@.len() - i,
    {
        push_char(&mut r, line[i]);
        proof {
            assert(line@.take(i as int + 1) =~= line@.take(i as int).push(line@[i as int]));
        }
        i = i + 1;
    }
    proof {
        assert(line@.take(line@.len() as int) =~= line@);
    }
    r
}

/// Reads the characters of `s` out into a vector. The byte length of the
/// characters fits in a `usize` because it is the byte length of `s`.
pub fn str_to_chars(s: &str) -> (r: Vec<char>)
    ensures
        r@ == s@,
        byte_len(r@) <= usize::MAX,
{
    let n = s.unicode_len();
    let mut r: Vec<char> = Vec::new();
    let mut i: usize = 0;
    while i < n
        invariant
            i <= n,
            n == s@.len(),
            r@ == s@.take(i as int),
        decreases n - i,
    {
        r.push(s.get_char(i));
        proof {
            assert(s@.take(i as int + 1) =~= s@.take(i as int).push(s@[i as int]));
        }
        i = i + 1;
    }
    let b = s.as_bytes();
    let bn = b.len();
    proof {
        assert(s@.take(s@.len() as int) =~= s@);
        lemma_byte_len_encode_utf8(s@);
        broadcast use vstd::slice::axiom_spec_len;

        assert(bn == b@.len());
    }
    r
}

/// Byte length of a whole line.
pub fn line_byte_len(line: &Vec<char>) -> (n: usize)
    requires
        byte_len(line@) <= usize::MAX,
    ensures
        n == byte_len(line@),
{
    let mut k: usize = 0;
    let mut acc: usize = 0;
    while k < line.len()
        invariant
            k <= line@.len(),
            acc == prefix_bytes(line@, k as int),
            byte_len(line@) <= usize::MAX,
        decreases line@.len() - k,
    {
        proof {
            lemma_prefix_bytes_mono(line@, k as int + 1, line@.len() as int);
        }
        acc = acc + char_len(line[k]);
        k = k + 1;
    }
    acc
}

} // verus!
