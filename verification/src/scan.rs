//! Lines and their two fields, found in a region of bytes.
//!
//! A line ends at the first newline, or at the end of the region where no
//! newline is left. A line that starts with `#` is a comment. Any other line
//! is a record: the key, a `;`, the value.

use vstd::prelude::*;
use crate::error::FormatError;

verus! {

/// The byte that ends a line.
pub const NEWLINE: u8 = 0x0a;

/// The byte `;`, which parts the key from the value.
pub const SEPARATOR: u8 = 0x3b;

/// The byte `#`, which starts a comment.
pub const COMMENT: u8 = 0x23;

/// `i` is the index of the first `b` in `s`, or the length of `s` where `s`
/// holds no `b`.
pub open spec fn is_first_at(s: Seq<u8>, b: u8, i: int) -> bool {
    &&& 0 <= i <= s.len()
    &&& forall|j: int| 0 <= j < i ==> s[j] != b
    &&& i < s.len() ==> s[i] == b
}

/// The index of the first `b` in `s`, or the length of `s` where `s` holds no
/// `b`.
pub open spec fn position(s: Seq<u8>, b: u8) -> int {
    choose|i: int| is_first_at(s, b, i)
}

proof fn lemma_first_from(s: Seq<u8>, b: u8, k: int)
    requires
        0 <= k <= s.len(),
        forall|j: int| 0 <= j < k ==> s[j] != b,
    ensures
        exists|i: int| is_first_at(s, b, i),
    decreases s.len() - k,
{
    if k < s.len() && s[k] != b {
        lemma_first_from(s, b, k + 1);
    } else {
        assert(is_first_at(s, b, k));
    }
}

/// [`position`] is what its description says.
pub proof fn lemma_position(s: Seq<u8>, b: u8)
    ensures
        is_first_at(s, b, position(s, b)),
{
    lemma_first_from(s, b, 0);
}

/// There is one first occurrence only.
pub proof fn lemma_position_is(s: Seq<u8>, b: u8, i: int)
    requires
        is_first_at(s, b, i),
    ensures
        position(s, b) == i,
{
    lemma_position(s, b);
    let p = position(s, b);
    if p < i {
        assert(s[p] != b);
    } else if i < p {
        assert(s[i] != b);
    }
}

/// The first line of `buf`, without the newline that ends it.
pub open spec fn first_line(buf: Seq<u8>) -> Seq<u8> {
    buf.take(position(buf, NEWLINE))
}

/// What follows the first line of `buf` and its newline.
pub open spec fn after_first_line(buf: Seq<u8>) -> Seq<u8> {
    let n = position(buf, NEWLINE);
    if 0 <= n < buf.len() {
        buf.skip(n + 1)
    } else {
        Seq::empty()
    }
}

/// `line` is a comment: it starts with `#`.
pub open spec fn is_comment(line: Seq<u8>) -> bool {
    line.len() > 0 && line[0] == COMMENT
}

/// `line` holds a `;`.
pub open spec fn has_separator(line: Seq<u8>) -> bool {
    0 <= position(line, SEPARATOR) < line.len()
}

/// What stands before the first `;` of `line`.
pub open spec fn key_part(line: Seq<u8>) -> Seq<u8> {
    line.take(position(line, SEPARATOR))
}

/// What stands after the first `;` of `line`.
pub open spec fn value_part(line: Seq<u8>) -> Seq<u8> {
    line.skip(position(line, SEPARATOR) + 1)
}

/// What follows the first line is shorter than a region that holds anything.
pub proof fn lemma_after_first_line_shorter(buf: Seq<u8>)
    ensures
        after_first_line(buf).len() <= buf.len(),
        buf.len() > 0 ==> after_first_line(buf).len() < buf.len(),
        first_line(buf).len() + after_first_line(buf).len() <= buf.len(),
{
    lemma_position(buf, NEWLINE);
}

/// The index of the first `byte` at or after `start`, or the length of `buf`.
pub fn find_byte_from(buf: &[u8], start: usize, byte: u8) -> (i: usize)
    requires
        start <= buf@.len(),
    ensures
        start <= i <= buf@.len(),
        forall|j: int| start <= j < i ==> buf@[j] != byte,
        i < buf@.len() ==> buf@[i as int] == byte,
{
    let n = buf.len();
    let mut i: usize = start;
    while i < n && buf[i] != byte
        invariant
            n == buf@.len(),
            start <= i <= n,
            forall|j: int| start <= j < i ==> buf@[j] != byte,
        decreases n - i,
    {
        i = i + 1;
    }
    i
}

/// What follows the first line of `buf`: the scan moves past the line and its
/// newline, whatever the line holds.
pub fn skip_line(buf: &[u8]) -> (rest: &[u8])
    ensures
        rest@ == after_first_line(buf@),
        buf@.len() > 0 ==> rest@.len() < buf@.len(),
{
    let end = find_byte_from(buf, 0, NEWLINE);
    proof {
        lemma_after_first_line_shorter(buf@);
    }
    skip_from(buf, end)
}

/// Parts the first line of `buf` at its first `;` and gives the key, the
/// value and what follows the line.
///
/// The line ends at the first newline, or at the end of `buf` where there is
/// none. A line without `;` is rejected: a `;` after the newline belongs to a
/// later line.
pub fn split_line(buf: &[u8]) -> (result: Result<(&[u8], &[u8], &[u8]), FormatError>)
    ensures
        match result {
            Ok((key, value, rest)) => {
                &&& has_separator(first_line(buf@))
                &&& key@ == key_part(first_line(buf@))
                &&& value@ == value_part(first_line(buf@))
                &&& rest@ == after_first_line(buf@)
                &&& rest@.len() < buf@.len()
            },
            Err(e) => !has_separator(first_line(buf@)) && e == FormatError::MissingSeparator,
        },
{
    let n = buf.len();
    let mut sep: usize = 0;
    while sep < n && buf[sep] != SEPARATOR && buf[sep] != NEWLINE
        invariant
            n == buf@.len(),
            sep <= n,
            forall|j: int| 0 <= j < sep ==> buf@[j] != SEPARATOR && buf@[j] != NEWLINE,
        decreases n - sep,
    {
        sep = sep + 1;
    }
    if sep == n || buf[sep] == NEWLINE {
        proof {
            lemma_position_is(buf@, NEWLINE, sep as int);
            lemma_position_is(first_line(buf@), SEPARATOR, sep as int);
        }
        return Err(FormatError::MissingSeparator);
    }
    let end = find_byte_from(buf, sep + 1, NEWLINE);
    proof {
        lemma_position_is(buf@, NEWLINE, end as int);
        lemma_position_is(first_line(buf@), SEPARATOR, sep as int);
    }
    proof {
        lemma_after_first_line_shorter(buf@);
    }
    let key = &buf[0..sep];
    let value = &buf[sep + 1..end];
    let rest = skip_from(buf, end);
    assert(key@ =~= key_part(first_line(buf@)));
    assert(value@ =~= value_part(first_line(buf@)));
    Ok((key, value, rest))
}

/// What follows the line that ends at index `end` of `buf`.
fn skip_from(buf: &[u8], end: usize) -> (rest: &[u8])
    requires
        is_first_at(buf@, NEWLINE, end as int),
    ensures
        rest@ == after_first_line(buf@),
{
    let n = buf.len();
    proof {
        lemma_position_is(buf@, NEWLINE, end as int);
    }
    if end < n {
        let rest = &buf[end + 1..n];
        assert(rest@ =~= buf@.skip(end + 1));
        rest
    } else {
        let rest = &buf[n..n];
        assert(rest@ =~= Seq::<u8>::empty());
        rest
    }
}

} // verus!
