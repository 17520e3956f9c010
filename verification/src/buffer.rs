//! A text buffer: rope-backed content plus an optional file path, an
//! optional display name, and a modified flag.
//!
//! Every operation addresses the text by character offset, never by byte.
//! The buffer holds no cursor; cursors belong to views, so several views can
//! look into one buffer independently.

use vstd::prelude::*;

use crate::position::Position;
use crate::rope::{
    rope_char_to_line, rope_from_str, rope_insert_char, rope_insert_str, rope_len_chars,
    rope_len_lines, rope_line_chars, rope_line_len, rope_line_to_char, rope_new, rope_remove,
    rope_text, rope_to_string, string_from_chars,
};
use crate::textspec::{
    backspace_n, col_of, cursor_at, insert_seq, insert_text, lemma_break_before_line_start,
    lemma_line_idx_le_newlines, lemma_line_start_full, lemma_line_start_le_len,
    lemma_line_start_monotonic, lemma_line_start_of_idx, lemma_line_start_strict,
    lemma_lt_next_line_start, line_count, line_display, line_end, line_idx, line_start,
    move_down_offset, move_left_offset, move_right_offset, move_up_offset, newlines,
    total_len,
};

verus! {

/// Failure modes of buffer persistence.
#[derive(Debug, Clone)]
pub enum BufferError {
    /// A file read or write failed; the payload carries the detail.
    IoFailure(String),
    /// A save was requested while no path is associated with the buffer.
    NoPathSet,
}

impl BufferError {
    /// The human-readable description of the failure.
    pub fn message(&self) -> (m: String)
        ensures
            self matches BufferError::IoFailure(d) ==> m@ == d@,
            self is NoPathSet ==> m@ == "No buffer path set"@,
    {
        match self {
            BufferError::IoFailure(d) => d.clone(),
            BufferError::NoPathSet => "No buffer path set".to_owned(),
        }
    }
}

/// A text buffer using a rope as its text container.
#[derive(Debug)]
pub struct Buffer {
    pub(crate) rope: ropey::Rope,
    pub(crate) filepath: Option<String>,
    pub(crate) name: Option<String>,
    pub(crate) modified: bool,
}

impl Buffer {
    /// The characters the buffer holds.
    pub closed spec fn text(&self) -> Seq<char> {
        rope_text(self.rope)
    }

    /// The associated file path, if any.
    pub closed spec fn path_spec(&self) -> Option<Seq<char>> {
        self.filepath.deep_view()
    }

    /// The display name, if any.
    pub closed spec fn name_spec(&self) -> Option<Seq<char>> {
        self.name.deep_view()
    }

    /// Whether the content changed since the last completed save.
    pub closed spec fn modified_spec(&self) -> bool {
        self.modified
    }

    /// The path and name of `self` agree with those of `other`.
    pub open spec fn same_identity(&self, other: &Buffer) -> bool {
        self.path_spec() == other.path_spec() && self.name_spec() == other.name_spec()
    }

    /// Create a new empty buffer.
    pub fn new() -> (b: Buffer)
        ensures
            b.text() == Seq::<char>::empty(),
            b.path_spec() is None,
            b.name_spec() is None,
            !b.modified_spec(),
    {
        Buffer { rope: rope_new(), filepath: None, name: None, modified: false }
    }

    /// Create a buffer holding `content`, as read from `path`; a freshly
    /// loaded buffer is not modified.
    pub fn from_content(path: Option<String>, name: Option<String>, content: &str) -> (b: Buffer)
        ensures
            b.text() == content@,
            b.path_spec() == path.deep_view(),
            b.name_spec() == name.deep_view(),
            !b.modified_spec(),
    {
        Buffer { rope: rope_from_str(content), filepath: path, name, modified: false }
    }

    /// Insert one character at `cursor`; the new cursor sits just after it.
    pub fn insert_char(&mut self, cursor: usize, ch: char) -> (nc: usize)
        requires
            cursor <= old(self).text().len(),
            old(self).text().len() < usize::MAX,
        ensures
            final(self).text() == old(self).text().insert(cursor as int, ch),
            nc == cursor + 1,
            final(self).modified_spec(),
            final(self).same_identity(old(self)),
    {
        rope_insert_char(&mut self.rope, cursor, ch);
        self.modified = true;
        cursor + 1
    }

    /// Insert a string at `cursor`; the new cursor advances by the number of
    /// characters inserted.
    pub fn insert_string(&mut self, cursor: usize, s: &str) -> (nc: usize)
        requires
            cursor <= old(self).text().len(),
            old(self).text().len() + s@.len() <= usize::MAX,
        ensures
            final(self).text() == insert_text(old(self).text(), cursor as int, s@),
            nc == cursor + s@.len(),
            final(self).modified_spec(),
            final(self).same_identity(old(self)),
    {
        let old_len = rope_len_chars(&self.rope);
        rope_insert_str(&mut self.rope, cursor, s);
        self.modified = true;
        let new_len = rope_len_chars(&self.rope);
        cursor + (new_len - old_len)
    }

    /// Delete the character at `cursor` if there is one; the cursor does not
    /// move.  Reports whether a character was removed.
    pub fn delete_char(&mut self, cursor: usize) -> (r: (bool, usize))
        ensures
            cursor < old(self).text().len() ==> {
                &&& r == (true, cursor)
                &&& final(self).text() == old(self).text().remove(cursor as int)
                &&& final(self).modified_spec()
                &&& final(self).same_identity(old(self))
            },
            cursor >= old(self).text().len() ==> r == (false, cursor) && *final(self) == *old(
                self,
            ),
    {
        let len = rope_len_chars(&self.rope);
        if cursor < len {
            rope_remove(&mut self.rope, cursor, cursor + 1);
            self.modified = true;
            proof {
                assert(old(self).text().take(cursor as int) + old(self).text().skip(
                    cursor as int + 1,
                ) =~= old(self).text().remove(cursor as int));
            }
            (true, cursor)
        } else {
            (false, cursor)
        }
    }

    /// Delete the character just before `cursor` if there is one; on success
    /// the cursor moves one to the left.
    pub fn backspace(&mut self, cursor: usize) -> (r: (bool, usize))
        requires
            cursor <= old(self).text().len(),
        ensures
            cursor > 0 ==> {
                &&& r == (true, (cursor - 1) as usize)
                &&& final(self).text() == old(self).text().remove(cursor - 1)
                &&& final(self).modified_spec()
                &&& final(self).same_identity(old(self))
            },
            cursor == 0 ==> r == (false, cursor) && *final(self) == *old(self),
    {
        if cursor > 0 {
            rope_remove(&mut self.rope, cursor - 1, cursor);
            self.modified = true;
            proof {
                assert(old(self).text().take(cursor - 1) + old(self).text().skip(cursor as int)
                    =~= old(self).text().remove(cursor - 1));
            }
            (true, cursor - 1)
        } else {
            (false, cursor)
        }
    }

    /// The offset one to the left of `cursor`, or nothing at the start.
    pub fn move_left(&self, cursor: usize) -> (r: Option<usize>)
        ensures
            cursor > 0 ==> r == Some((cursor - 1) as usize),
            cursor == 0 ==> r is None,
            match r {
                Some(nc) => move_left_offset(cursor as int) == Some(nc as int),
                None => move_left_offset(cursor as int) is None,
            },
    {
        if cursor > 0 {
            Some(cursor - 1)
        } else {
            None
        }
    }

    /// The offset one to the right of `cursor`, or nothing at the end.
    pub fn move_right(&self, cursor: usize) -> (r: Option<usize>)
        ensures
            cursor < self.text().len() ==> r == Some((cursor + 1) as usize),
            cursor >= self.text().len() ==> r is None,
            match r {
                Some(nc) => move_right_offset(self.text().len() as int, cursor as int) == Some(
                    nc as int,
                ),
                None => move_right_offset(self.text().len() as int, cursor as int) is None,
            },
    {
        if cursor < rope_len_chars(&self.rope) {
            Some(cursor + 1)
        } else {
            None
        }
    }

    /// The offset one line up from `cursor`, in the same column clamped to
    /// the target line; nothing on the first line.
    pub fn move_up(&self, cursor: usize) -> (r: Option<usize>)
        requires
            cursor <= self.text().len(),
        ensures
            match r {
                Some(nc) => move_up_offset(self.text(), cursor as int) == Some(nc as int) && nc
                    <= self.text().len(),
                None => move_up_offset(self.text(), cursor as int) is None,
            },
    {
        let pos = self.cursor_to_position(cursor);
        if pos.line > 0 {
            proof {
                lemma_line_idx_le_newlines(self.text(), cursor as int);
            }
            Some(self.position_to_cursor(Position::new(pos.line - 1, pos.column)))
        } else {
            None
        }
    }

    /// The offset one line down from `cursor`, in the same column clamped to
    /// the target line; nothing on the last line.
    pub fn move_down(&self, cursor: usize) -> (r: Option<usize>)
        requires
            cursor <= self.text().len(),
        ensures
            match r {
                Some(nc) => move_down_offset(self.text(), cursor as int) == Some(nc as int) && nc
                    <= self.text().len(),
                None => move_down_offset(self.text(), cursor as int) is None,
            },
    {
        let pos = self.cursor_to_position(cursor);
        let last_line = rope_len_lines(&self.rope) - 1;
        proof {
            lemma_line_idx_le_newlines(self.text(), cursor as int);
        }
        if pos.line < last_line {
            Some(self.position_to_cursor(Position::new(pos.line + 1, pos.column)))
        } else {
            None
        }
    }

    /// The offset of the first character of the line containing `cursor`.
    pub fn move_to_line_start(&self, cursor: usize) -> (r: usize)
        requires
            cursor <= self.text().len(),
        ensures
            r == line_start(self.text(), line_idx(self.text(), cursor as int) as int),
            r <= cursor,
    {
        let line = rope_char_to_line(&self.rope, cursor);
        proof {
            lemma_line_idx_le_newlines(self.text(), cursor as int);
            lemma_line_start_of_idx(self.text(), cursor as int);
        }
        rope_line_to_char(&self.rope, line)
    }

    /// The offset just past the last character of the line containing
    /// `cursor`, excluding the line break that ends every line but the last.
    pub fn move_to_line_end(&self, cursor: usize) -> (r: usize)
        requires
            cursor <= self.text().len(),
        ensures
            r == line_end(self.text(), line_idx(self.text(), cursor as int) as int),
            r <= self.text().len(),
    {
        let line = rope_char_to_line(&self.rope, cursor);
        let len_lines = rope_len_lines(&self.rope);
        proof {
            lemma_line_idx_le_newlines(self.text(), cursor as int);
        }
        if line + 1 < len_lines {
            proof {
                lemma_break_before_line_start(self.text(), line as int);
            }
            rope_line_to_char(&self.rope, line + 1) - 1
        } else {
            rope_len_chars(&self.rope)
        }
    }

    /// The offset of the start of the text.
    pub fn move_to_start(&self) -> (r: usize)
        ensures
            r == 0,
    {
        0
    }

    /// The offset one past the last character of the text.
    pub fn move_to_end(&self) -> (r: usize)
        ensures
            r == self.text().len(),
    {
        rope_len_chars(&self.rope)
    }

    /// The (line, column) position of a character offset.
    pub fn cursor_to_position(&self, cursor: usize) -> (p: Position)
        requires
            cursor <= self.text().len(),
        ensures
            p.line == line_idx(self.text(), cursor as int),
            p.column == col_of(self.text(), cursor as int),
    {
        let line = rope_char_to_line(&self.rope, cursor);
        proof {
            lemma_line_idx_le_newlines(self.text(), cursor as int);
            lemma_line_start_of_idx(self.text(), cursor as int);
        }
        let line_start_c = rope_line_to_char(&self.rope, line);
        Position::new(line, cursor - line_start_c)
    }

    /// The character offset of a position; a column past the end of its line
    /// is clamped to the last valid column of that line.
    pub fn position_to_cursor(&self, pos: Position) -> (r: usize)
        requires
            pos.line < line_count(self.text()),
        ensures
            r == cursor_at(self.text(), pos.line as int, pos.column as int),
            r <= self.text().len(),
    {
        let _total: usize = rope_len_chars(&self.rope);
        let line_start_c = rope_line_to_char(&self.rope, pos.line);
        let line_len = rope_line_len(&self.rope, pos.line);
        proof {
            lemma_line_start_monotonic(self.text(), pos.line as int, pos.line as int + 1);
            lemma_line_start_le_len(self.text(), pos.line as int + 1);
        }
        let max_col = if line_len == 0 {
            0
        } else {
            line_len - 1
        };
        let col = if pos.column < max_col {
            pos.column
        } else {
            max_col
        };
        line_start_c + col
    }

    /// Up to `count` display lines starting at line `start_line`, each
    /// stripped of its trailing line break; fewer if the text ends first.
    pub fn get_lines(&self, start_line: usize, count: usize) -> (lines: Vec<String>)
        requires
            start_line + count <= usize::MAX,
        ensures
            lines@.len() == if start_line < line_count(self.text()) {
                (if start_line + count <= line_count(self.text()) {
                    count as int
                } else {
                    line_count(self.text()) - start_line
                })
            } else {
                0
            },
            forall|i: int|
                0 <= i < lines@.len() ==> lines@[i]@ == line_display(
                    self.text(),
                    start_line + i,
                ),
    {
        let mut lines: Vec<String> = Vec::new();
        let len_lines = rope_len_lines(&self.rope);
        let end_line = if start_line + count < len_lines {
            start_line + count
        } else {
            len_lines
        };
        let mut i = start_line;
        while i < end_line
            invariant
                start_line <= i,
                i <= end_line || i == start_line,
                len_lines == line_count(self.text()),
                end_line <= line_count(self.text()),
                end_line == if start_line + count < line_count(self.text()) {
                    start_line + count
                } else {
                    line_count(self.text()) as int
                },
                lines@.len() == i - start_line,
                forall|j: int|
                    0 <= j < lines@.len() ==> lines@[j]@ == line_display(
                        self.text(),
                        start_line + j,
                    ),
            decreases end_line - i,
        {
            let ghost s = self.text();
            let ghost lo = line_start(s, i as int) as int;
            let ghost hi = line_start(s, i as int + 1) as int;
            proof {
                lemma_line_start_monotonic(s, i as int, i as int + 1);
                lemma_line_start_le_len(s, i as int + 1);
            }
            let mut chars = rope_line_chars(&self.rope, i);
            if i + 1 < len_lines {
                proof {
                    lemma_line_start_strict(s, i as int);
                    assert(chars@ == s.subrange(lo, hi));
                }
                chars.pop();
                proof {
                    assert(line_end(s, i as int) == hi - 1);
                    assert(chars@ =~= s.subrange(lo, hi - 1));
                    assert(chars@ =~= line_display(s, i as int));
                }
            } else {
                proof {
                    lemma_line_start_full(s, i as int + 1);
                    assert(line_end(s, i as int) == s.len());
                    assert(chars@ =~= line_display(s, i as int));
                }
            }
            let line_str = string_from_chars(&chars);
            lines.push(line_str);
            i = i + 1;
        }
        lines
    }

    /// The number of lines and the number of characters in the buffer.
    pub fn stats(&self) -> (r: (usize, usize))
        ensures
            r.0 == line_count(self.text()),
            r.1 == self.text().len(),
    {
        (rope_len_lines(&self.rope), rope_len_chars(&self.rope))
    }

    /// Whether the content changed since the last completed save.
    pub fn is_modified(&self) -> (r: bool)
        ensures
            r == self.modified_spec(),
    {
        self.modified
    }

    /// Mark the buffer as saved: content, path and name stay as they are.
    pub fn mark_clean(&mut self)
        ensures
            !final(self).modified_spec(),
            final(self).text() == old(self).text(),
            final(self).same_identity(old(self)),
    {
        self.modified = false;
    }

    /// The associated file path, if any.
    pub fn filepath(&self) -> (r: Option<&String>)
        ensures
            match r {
                Some(p) => self.path_spec() == Some(p@),
                None => self.path_spec() is None,
            },
    {
        self.filepath.as_ref()
    }

    /// Associate a new file path with the buffer.
    pub fn set_filepath(&mut self, path: String)
        ensures
            final(self).path_spec() == Some(path@),
            final(self).text() == old(self).text(),
            final(self).name_spec() == old(self).name_spec(),
            final(self).modified_spec() == old(self).modified_spec(),
    {
        self.filepath = Some(path);
    }

    /// The display name, if any.
    pub fn name(&self) -> (r: Option<&str>)
        ensures
            match r {
                Some(n) => self.name_spec() == Some(n@),
                None => self.name_spec() is None,
            },
    {
        match &self.name {
            Some(n) => Some(n.as_str()),
            None => None,
        }
    }

    /// Set the display name.
    pub fn set_name(&mut self, name: String)
        ensures
            final(self).name_spec() == Some(name@),
            final(self).text() == old(self).text(),
            final(self).path_spec() == old(self).path_spec(),
            final(self).modified_spec() == old(self).modified_spec(),
    {
        self.name = Some(name);
    }

    /// The entire content as one string.
    pub fn to_string(&self) -> (r: String)
        ensures
            r@ == self.text(),
    {
        rope_to_string(&self.rope)
    }
}

/// Mapping an offset to its (line, column) position and back returns the
/// same offset, for every offset strictly inside the text, and for the
/// end-of-text offset when the last line is empty.  At the end of a text
/// whose last line is non-empty, the column clamp instead maps the end
/// offset onto the last character of that line.
pub proof fn lemma_position_round_trip(s: Seq<char>, c: int)
    requires
        0 <= c <= s.len(),
        c < s.len() || line_start(s, newlines(s) as int) == s.len(),
    ensures
        cursor_at(s, line_idx(s, c) as int, col_of(s, c)) == c,
{
    let l = line_idx(s, c) as int;
    lemma_line_start_of_idx(s, c);
    lemma_line_idx_le_newlines(s, c);
    if c < s.len() {
        lemma_lt_next_line_start(s, c);
        assert(line_start(s, l) <= c < line_start(s, l + 1));
    } else {
        assert(l == newlines(s));
        assert(line_start(s, l) == s.len());
        lemma_line_start_full(s, l + 1);
        assert(col_of(s, c) == 0);
    }
}

/// From any offset with a character to its left, moving left then moving
/// right restores the offset; at the start of the text moving left reports
/// no movement, and at the end moving right reports no movement.
pub proof fn lemma_move_left_right(len: int, c: int)
    requires
        0 < c <= len,
    ensures
        ({
            let m = move_left_offset(c);
            m matches Some(c2) && move_right_offset(len, c2) == Some(c)
        }),
        move_left_offset(0) is None,
        move_right_offset(len, len) is None,
{
}

/// Backspaces compose: `k1 + k2` backspaces are `k1` backspaces followed by
/// `k2` more from the state they leave.
proof fn lemma_backspace_split(s: Seq<char>, c: int, k1: nat, k2: nat)
    ensures
        backspace_n(s, c, k1 + k2) == backspace_n(
            backspace_n(s, c, k1).0,
            backspace_n(s, c, k1).1,
            k2,
        ),
    decreases k2,
{
    if k2 > 0 {
        lemma_backspace_split(s, c, k1, (k2 - 1) as nat);
    }
}

/// One backspace undoes the last character of an insertion still to the left
/// of the cursor.
proof fn lemma_insert_undo_steps(s: Seq<char>, c: int, t: Seq<char>, k: nat)
    requires
        0 <= c <= s.len(),
        k <= t.len(),
    ensures
        backspace_n(insert_text(s, c, t), c + t.len(), k) == (
            insert_text(s, c, t.take(t.len() - k)),
            c + t.len() - k,
        ),
    decreases k,
{
    if k == 0 {
        assert(t.take(t.len() as int) =~= t);
    } else {
        lemma_insert_undo_steps(s, c, t, (k - 1) as nat);
        let t1 = t.take(t.len() - (k - 1));
        let prev_text = insert_text(s, c, t1);
        let prev_cur = c + t.len() - (k - 1);
        assert(prev_cur == c + t1.len());
        assert(prev_cur > 0);
        assert(prev_text.remove(prev_cur - 1) =~= insert_text(s, c, t.take(t.len() - k)));
    }
}

/// Inserting a string and then pressing backspace once per inserted
/// character restores the original text and cursor.
proof fn lemma_insert_one_round_trip(s: Seq<char>, c: int, t: Seq<char>)
    requires
        0 <= c <= s.len(),
    ensures
        backspace_n(insert_text(s, c, t), c + t.len(), t.len()) == (s, c),
{
    lemma_insert_undo_steps(s, c, t, t.len());
    assert(t.take(0) =~= Seq::<char>::empty());
    assert(insert_text(s, c, t.take(0)) =~= s);
}

/// Inserting any sequence of strings at the running cursor and then
/// pressing backspace once for every character inserted restores the
/// original text and the original cursor.
pub proof fn lemma_insert_backspace_round_trip(s: Seq<char>, c: int, ts: Seq<Seq<char>>)
    requires
        0 <= c <= s.len(),
    ensures
        backspace_n(insert_seq(s, c, ts).0, insert_seq(s, c, ts).1, total_len(ts)) == (s, c),
    decreases ts.len(),
{
    if ts.len() == 0 {
    } else {
        let t0 = ts[0];
        let s1 = insert_text(s, c, t0);
        let c1 = c + t0.len();
        assert(s1.len() == s.len() + t0.len());
        lemma_insert_backspace_round_trip(s1, c1, ts.skip(1));
        let fin = insert_seq(s1, c1, ts.skip(1));
        lemma_backspace_split(fin.0, fin.1, total_len(ts.skip(1)), t0.len());
        lemma_insert_one_round_trip(s, c, t0);
        assert(total_len(ts) == total_len(ts.skip(1)) + t0.len());
    }
}

} // verus!
