//! Mathematical model of line structure in a text.
//!
//! A text is a sequence of characters; a line break is a `'\n'` character.
//! A text with `n` line breaks has `n + 1` lines, so a text that ends with
//! `'\n'` has a final empty line and the empty text has exactly one line.
//! The `'\n'` that ends a line belongs to that line.

use vstd::prelude::*;

verus! {

/// Number of line-break characters in `s`.
pub open spec fn newlines(s: Seq<char>) -> nat
    decreases s.len(),
{
    if s.len() == 0 {
        0
    } else {
        (if s[0] == '\n' {
            1nat
        } else {
            0nat
        }) + newlines(s.skip(1))
    }
}

/// Number of lines in `s`: one more than the number of line breaks.
pub open spec fn line_count(s: Seq<char>) -> nat {
    newlines(s) + 1
}

/// Index of the line containing character offset `c`; the offset one past the
/// end of the text lies on the last line.  Saturates at the last line for
/// offsets beyond the end.
pub open spec fn line_idx(s: Seq<char>, c: int) -> nat
    decreases s.len(),
{
    if c <= 0 || s.len() == 0 {
        0
    } else {
        (if s[0] == '\n' {
            1nat
        } else {
            0nat
        }) + line_idx(s.skip(1), c - 1)
    }
}

/// Character offset of the first character of line `l`; for `l` past the last
/// line this saturates at the length of the text, so the line spanning
/// `[line_start(s, l), line_start(s, l + 1))` includes its trailing line
/// break, if any.
pub open spec fn line_start(s: Seq<char>, l: int) -> nat
    decreases s.len(),
{
    if l <= 0 || s.len() == 0 {
        0
    } else if s[0] == '\n' {
        1 + line_start(s.skip(1), l - 1)
    } else {
        1 + line_start(s.skip(1), l)
    }
}

/// Length of line `l` including its trailing line break, if any.
pub open spec fn line_len_incl(s: Seq<char>, l: int) -> int {
    line_start(s, l + 1) - line_start(s, l)
}

/// Offset just past the last character of line `l`, excluding the line break
/// that ends every line but the last.
pub open spec fn line_end(s: Seq<char>, l: int) -> int {
    if l < newlines(s) {
        line_start(s, l + 1) - 1
    } else {
        s.len() as int
    }
}

/// Column of offset `c` within its line.
pub open spec fn col_of(s: Seq<char>, c: int) -> int {
    c - line_start(s, line_idx(s, c) as int)
}

/// Column `col` clamped to the last valid column of line `l`: at most
/// `line length - 1`, and 0 on an empty line.
pub open spec fn clamped_col(s: Seq<char>, l: int, col: int) -> int {
    let maxc = if line_len_incl(s, l) == 0 {
        0
    } else {
        line_len_incl(s, l) - 1
    };
    if col <= maxc {
        col
    } else {
        maxc
    }
}

/// Offset of the clamped position `(l, col)`.
pub open spec fn cursor_at(s: Seq<char>, l: int, col: int) -> int {
    line_start(s, l) + clamped_col(s, l, col)
}

/// The characters line `l` shows: its span without the line break that ends
/// every line but the last.
pub open spec fn line_display(s: Seq<char>, l: int) -> Seq<char> {
    s.subrange(line_start(s, l) as int, line_end(s, l))
}

/// One character offset to the left, when there is room.
pub open spec fn move_left_offset(c: int) -> Option<int> {
    if c > 0 {
        Some(c - 1)
    } else {
        None
    }
}

/// One character offset to the right, when there is room.
pub open spec fn move_right_offset(len: int, c: int) -> Option<int> {
    if c < len {
        Some(c + 1)
    } else {
        None
    }
}

/// The offset one line up from `c`, in the same column clamped to the target
/// line; no movement from the first line.
pub open spec fn move_up_offset(s: Seq<char>, c: int) -> Option<int> {
    let l = line_idx(s, c) as int;
    if l == 0 {
        None
    } else {
        Some(cursor_at(s, l - 1, col_of(s, c)))
    }
}

/// The offset one line down from `c`, in the same column clamped to the
/// target line; no movement from the last line.
pub open spec fn move_down_offset(s: Seq<char>, c: int) -> Option<int> {
    let l = line_idx(s, c) as int;
    if l < newlines(s) {
        Some(cursor_at(s, l + 1, col_of(s, c)))
    } else {
        None
    }
}

/// The text after splicing `t` in at offset `c`.
pub open spec fn insert_text(s: Seq<char>, c: int, t: Seq<char>) -> Seq<char> {
    s.take(c) + t + s.skip(c)
}

/// The text and cursor after inserting each string of `ts` in turn at the
/// running cursor.
pub open spec fn insert_seq(s: Seq<char>, c: int, ts: Seq<Seq<char>>) -> (Seq<char>, int)
    decreases ts.len(),
{
    if ts.len() == 0 {
        (s, c)
    } else {
        insert_seq(insert_text(s, c, ts[0]), c + ts[0].len(), ts.skip(1))
    }
}

/// The total number of characters in a sequence of strings.
pub open spec fn total_len(ts: Seq<Seq<char>>) -> nat
    decreases ts.len(),
{
    if ts.len() == 0 {
        0
    } else {
        ts[0].len() + total_len(ts.skip(1))
    }
}

/// The text and cursor after `k` backspaces, each removing the character
/// before the cursor when there is one.
pub open spec fn backspace_n(s: Seq<char>, c: int, k: nat) -> (Seq<char>, int)
    decreases k,
{
    if k == 0 {
        (s, c)
    } else {
        let prev = backspace_n(s, c, (k - 1) as nat);
        if prev.1 > 0 {
            (prev.0.remove(prev.1 - 1), prev.1 - 1)
        } else {
            prev
        }
    }
}

pub proof fn lemma_line_start_le_len(s: Seq<char>, l: int)
    ensures
        line_start(s, l) <= s.len(),
    decreases s.len(),
{
    if l <= 0 || s.len() == 0 {
    } else if s[0] == '\n' {
        lemma_line_start_le_len(s.skip(1), l - 1);
    } else {
        lemma_line_start_le_len(s.skip(1), l);
    }
}

pub proof fn lemma_line_start_full(s: Seq<char>, l: int)
    requires
        l > newlines(s),
    ensures
        line_start(s, l) == s.len(),
    decreases s.len(),
{
    if s.len() == 0 {
    } else if s[0] == '\n' {
        lemma_line_start_full(s.skip(1), l - 1);
    } else {
        lemma_line_start_full(s.skip(1), l);
    }
}

pub proof fn lemma_line_start_monotonic(s: Seq<char>, l1: int, l2: int)
    requires
        l1 <= l2,
    ensures
        line_start(s, l1) <= line_start(s, l2),
    decreases s.len(),
{
    if l1 <= 0 || s.len() == 0 {
    } else if s[0] == '\n' {
        lemma_line_start_monotonic(s.skip(1), l1 - 1, l2 - 1);
    } else {
        lemma_line_start_monotonic(s.skip(1), l1, l2);
    }
}

pub proof fn lemma_line_idx_le_newlines(s: Seq<char>, c: int)
    ensures
        line_idx(s, c) <= newlines(s),
        c >= s.len() ==> line_idx(s, c) == newlines(s),
    decreases s.len(),
{
    if c <= 0 || s.len() == 0 {
    } else {
        lemma_line_idx_le_newlines(s.skip(1), c - 1);
    }
}

/// The start of the line containing offset `c` is no later than `c`.
pub proof fn lemma_line_start_of_idx(s: Seq<char>, c: int)
    requires
        0 <= c,
    ensures
        line_start(s, line_idx(s, c) as int) <= c,
    decreases s.len(),
{
    if c == 0 || s.len() == 0 {
    } else {
        lemma_line_start_of_idx(s.skip(1), c - 1);
    }
}

/// An offset strictly inside the text lies strictly before the start of the
/// next line.
pub proof fn lemma_lt_next_line_start(s: Seq<char>, c: int)
    requires
        0 <= c < s.len(),
    ensures
        c < line_start(s, line_idx(s, c) as int + 1),
    decreases s.len(),
{
    if c == 0 {
        if s[0] == '\n' {
        } else {
            lemma_line_start_pos(s, line_idx(s, c) as int + 1);
        }
    } else {
        lemma_lt_next_line_start(s.skip(1), c - 1);
    }
}

/// `line_start(s, l)` is at least 1 when `l >= 1` and the text is non-empty.
proof fn lemma_line_start_pos(s: Seq<char>, l: int)
    requires
        l >= 1,
        s.len() > 0,
    ensures
        line_start(s, l) >= 1,
{
}

/// Every line before the last ends with a line break: the character just
/// before the start of line `l + 1` is `'\n'`.
pub proof fn lemma_break_before_line_start(s: Seq<char>, l: int)
    requires
        0 <= l < newlines(s),
    ensures
        line_start(s, l + 1) >= 1,
        line_start(s, l + 1) <= s.len(),
        s[line_start(s, l + 1) - 1] == '\n',
    decreases s.len(),
{
    lemma_line_start_le_len(s, l + 1);
    if s.len() == 0 {
    } else if l == 0 {
        if s[0] == '\n' {
        } else {
            lemma_break_before_line_start(s.skip(1), 0);
        }
    } else {
        if s[0] == '\n' {
            lemma_break_before_line_start(s.skip(1), l - 1);
        } else {
            lemma_break_before_line_start(s.skip(1), l);
        }
    }
}

/// Lines before the last are non-empty: they hold at least their line break.
pub proof fn lemma_line_start_strict(s: Seq<char>, l: int)
    requires
        0 <= l < newlines(s),
    ensures
        line_start(s, l) < line_start(s, l + 1),
    decreases s.len(),
{
    if s.len() == 0 {
    } else if l == 0 {
        lemma_line_start_pos(s, 1);
    } else if s[0] == '\n' {
        lemma_line_start_strict(s.skip(1), l - 1);
    } else {
        lemma_line_start_strict(s.skip(1), l);
    }
}

} // verus!
