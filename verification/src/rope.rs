//! Trusted boundary around `ropey::Rope`, the text container.
//!
//! The rope's contents are named by the uninterpreted function [`rope_text`];
//! every wrapper states what the wrapped `ropey` call does in terms of that
//! name and the line model of [`crate::textspec`].  The crate is built with
//! `ropey`'s default features off, so the only line break is `'\n'`, matching
//! the model.  All indices are character offsets, never bytes.

use vstd::prelude::*;

use crate::textspec::{line_idx, line_start, newlines};

verus! {

#[verifier::external_type_specification]
#[verifier::external_body]
pub struct ExRope(ropey::Rope);

/// The characters a rope holds, in order.
pub uninterp spec fn rope_text(r: ropey::Rope) -> Seq<char>;

/// Relies on ropey's `Rope::new`: an empty rope.
#[verifier::external_body]
pub(crate) fn rope_new() -> (r: ropey::Rope)
    ensures
        rope_text(r) == Seq::<char>::empty(),
{
    ropey::Rope::new()
}

/// Relies on ropey's `Rope::from_str`: a rope holding the characters of `s`.
#[verifier::external_body]
pub(crate) fn rope_from_str(s: &str) -> (r: ropey::Rope)
    ensures
        rope_text(r) == s@,
{
    ropey::Rope::from_str(s)
}

/// Relies on ropey's `Rope::len_chars`: the total number of characters.
#[verifier::external_body]
pub(crate) fn rope_len_chars(r: &ropey::Rope) -> (n: usize)
    ensures
        n == rope_text(*r).len(),
{
    r.len_chars()
}

/// Relies on ropey's `Rope::len_lines`: one more than the number of line
/// breaks.
#[verifier::external_body]
pub(crate) fn rope_len_lines(r: &ropey::Rope) -> (n: usize)
    ensures
        n == newlines(rope_text(*r)) + 1,
{
    r.len_lines()
}

/// Relies on ropey's `Rope::insert_char`: splices one character in at a
/// character index.
#[verifier::external_body]
pub(crate) fn rope_insert_char(r: &mut ropey::Rope, at: usize, ch: char)
    requires
        at <= rope_text(*old(r)).len(),
    ensures
        rope_text(*final(r)) == rope_text(*old(r)).insert(at as int, ch),
{
    r.insert_char(at, ch);
}

/// Relies on ropey's `Rope::insert`: splices the characters of `s` in at a
/// character index.
#[verifier::external_body]
pub(crate) fn rope_insert_str(r: &mut ropey::Rope, at: usize, s: &str)
    requires
        at <= rope_text(*old(r)).len(),
    ensures
        rope_text(*final(r)) == rope_text(*old(r)).take(at as int) + s@ + rope_text(
            *old(r),
        ).skip(at as int),
{
    r.insert(at, s);
}

/// Relies on ropey's `Rope::remove`: removes the character range
/// `[from, to)`.
#[verifier::external_body]
pub(crate) fn rope_remove(r: &mut ropey::Rope, from: usize, to: usize)
    requires
        from <= to <= rope_text(*old(r)).len(),
    ensures
        rope_text(*final(r)) == rope_text(*old(r)).take(from as int) + rope_text(*old(r)).skip(
            to as int,
        ),
{
    r.remove(from..to);
}

/// Relies on ropey's `Rope::char_to_line`: the index of the line containing
/// the given character offset, where the one-past-the-end offset lies on the
/// last line.
#[verifier::external_body]
pub(crate) fn rope_char_to_line(r: &ropey::Rope, c: usize) -> (l: usize)
    requires
        c <= rope_text(*r).len(),
    ensures
        l == line_idx(rope_text(*r), c as int),
{
    r.char_to_line(c)
}

/// Relies on ropey's `Rope::line_to_char`: the character offset of the first
/// character of the given line, where the one-past-the-end line index maps to
/// the end of the text.
#[verifier::external_body]
pub(crate) fn rope_line_to_char(r: &ropey::Rope, l: usize) -> (c: usize)
    requires
        l <= newlines(rope_text(*r)) + 1,
    ensures
        c == line_start(rope_text(*r), l as int),
{
    r.line_to_char(l)
}

/// Relies on ropey's `Rope::line`: the number of characters of the given
/// line, including its trailing line break if it has one.
#[verifier::external_body]
pub(crate) fn rope_line_len(r: &ropey::Rope, l: usize) -> (n: usize)
    requires
        l <= newlines(rope_text(*r)),
    ensures
        n == line_start(rope_text(*r), l as int + 1) - line_start(rope_text(*r), l as int),
{
    r.line(l).len_chars()
}

/// Relies on ropey's `Rope::line`: the characters of the given line,
/// including its trailing line break if it has one.
#[verifier::external_body]
pub(crate) fn rope_line_chars(r: &ropey::Rope, l: usize) -> (out: Vec<char>)
    requires
        l <= newlines(rope_text(*r)),
    ensures
        out@ == rope_text(*r).subrange(
            line_start(rope_text(*r), l as int) as int,
            line_start(rope_text(*r), l as int + 1) as int,
        ),
{
    r.line(l).chars().collect()
}

/// Relies on `String::from(&Rope)`: the rope's contents as one string.
#[verifier::external_body]
pub(crate) fn rope_to_string(r: &ropey::Rope) -> (out: String)
    ensures
        out@ == rope_text(*r),
{
    String::from(r)
}

/// Relies on `String`'s `FromIterator<char>`: collects the characters in
/// order.
#[verifier::external_body]
pub(crate) fn string_from_chars(cs: &Vec<char>) -> (s: String)
    ensures
        s@ == cs@,
{
    cs.iter().collect()
}

} // verus!
