//! A view into a buffer: cursor and viewport state kept apart from the
//! buffer's content, so several clients can look into one buffer with
//! independent cursors and scroll positions.

use vstd::prelude::*;

verus! {

/// Stable identifier for views.
#[derive(Debug, Clone, Copy, PartialEq, Eq, Hash, Structural)]
pub struct ViewId(pub(crate) usize);

impl ViewId {
    /// The number behind the identifier.
    pub closed spec fn id_spec(&self) -> usize {
        self.0
    }

    /// The number behind the identifier.
    pub fn id(&self) -> (r: usize)
        ensures
            r == self.id_spec(),
    {
        self.0
    }

    pub(crate) fn new(id: usize) -> (v: ViewId)
        ensures
            v.id_spec() == id,
    {
        ViewId(id)
    }
}

/// Stable identifier for buffers.
#[derive(Debug, Clone, Copy, PartialEq, Eq, Hash, Structural)]
pub struct BufferId(pub(crate) usize);

impl BufferId {
    /// The number behind the identifier.
    pub closed spec fn id_spec(&self) -> usize {
        self.0
    }

    /// The number behind the identifier.
    pub fn id(&self) -> (r: usize)
        ensures
            r == self.id_spec(),
    {
        self.0
    }

    pub(crate) fn new(id: usize) -> (b: BufferId)
        ensures
            b.id_spec() == id,
    {
        BufferId(id)
    }
}

/// A view into a buffer with its own cursor position and viewport state.
#[derive(Debug, Clone, Copy, PartialEq, Eq)]
pub struct View {
    /// The buffer this view is displaying.
    buffer_id: BufferId,
    /// Cursor position in characters, not bytes.
    cursor: usize,
    /// Index of the top line visible in the viewport.
    scroll_line: usize,
    /// Index of the leftmost column visible in the viewport.
    scroll_column: usize,
    /// The column vertical movement tries to stay in, when one is remembered.
    desired_column: Option<usize>,
}

impl View {
    pub closed spec fn buffer_id_spec(&self) -> BufferId {
        self.buffer_id
    }

    pub closed spec fn cursor_spec(&self) -> usize {
        self.cursor
    }

    pub closed spec fn scroll_line_spec(&self) -> usize {
        self.scroll_line
    }

    pub closed spec fn scroll_column_spec(&self) -> usize {
        self.scroll_column
    }

    pub closed spec fn desired_column_spec(&self) -> Option<usize> {
        self.desired_column
    }

    /// The scroll state of `self` agrees with that of `other`.
    pub open spec fn same_scroll(&self, other: &View) -> bool {
        self.scroll_line_spec() == other.scroll_line_spec() && self.scroll_column_spec()
            == other.scroll_column_spec()
    }

    /// Create a new view of a buffer with the cursor at the start.
    pub fn new(buffer_id: BufferId) -> (v: View)
        ensures
            v.buffer_id_spec() == buffer_id,
            v.cursor_spec() == 0,
            v.scroll_line_spec() == 0,
            v.scroll_column_spec() == 0,
            v.desired_column_spec() is None,
    {
        View { buffer_id, cursor: 0, scroll_line: 0, scroll_column: 0, desired_column: None }
    }

    /// Create a view with a specific cursor position.
    pub fn with_cursor(buffer_id: BufferId, cursor: usize) -> (v: View)
        ensures
            v.buffer_id_spec() == buffer_id,
            v.cursor_spec() == cursor,
            v.scroll_line_spec() == 0,
            v.scroll_column_spec() == 0,
            v.desired_column_spec() is None,
    {
        View { buffer_id, cursor, scroll_line: 0, scroll_column: 0, desired_column: None }
    }

    /// The buffer this view is displaying.
    pub fn buffer_id(&self) -> (b: BufferId)
        ensures
            b == self.buffer_id_spec(),
    {
        self.buffer_id
    }

    /// The current cursor position.
    pub fn cursor(&self) -> (c: usize)
        ensures
            c == self.cursor_spec(),
    {
        self.cursor
    }

    /// Place the cursor; an explicit placement forgets the remembered
    /// column.
    pub fn set_cursor(&mut self, cursor: usize)
        ensures
            final(self).cursor_spec() == cursor,
            final(self).desired_column_spec() is None,
            final(self).buffer_id_spec() == old(self).buffer_id_spec(),
            final(self).same_scroll(old(self)),
    {
        self.cursor = cursor;
        self.desired_column = None;
    }

    /// Move the cursor while keeping the remembered column; used by vertical
    /// movement.
    pub fn update_cursor(&mut self, cursor: usize)
        ensures
            final(self).cursor_spec() == cursor,
            final(self).desired_column_spec() == old(self).desired_column_spec(),
            final(self).buffer_id_spec() == old(self).buffer_id_spec(),
            final(self).same_scroll(old(self)),
    {
        self.cursor = cursor;
    }

    /// The top line visible in the viewport.
    pub fn scroll_line(&self) -> (l: usize)
        ensures
            l == self.scroll_line_spec(),
    {
        self.scroll_line
    }

    /// Set the top visible line.
    pub fn set_scroll_line(&mut self, line: usize)
        ensures
            final(self).scroll_line_spec() == line,
            final(self).scroll_column_spec() == old(self).scroll_column_spec(),
            final(self).cursor_spec() == old(self).cursor_spec(),
            final(self).buffer_id_spec() == old(self).buffer_id_spec(),
            final(self).desired_column_spec() == old(self).desired_column_spec(),
    {
        self.scroll_line = line;
    }

    /// The leftmost column visible in the viewport.
    pub fn scroll_column(&self) -> (c: usize)
        ensures
            c == self.scroll_column_spec(),
    {
        self.scroll_column
    }

    /// Set the leftmost visible column.
    pub fn set_scroll_column(&mut self, column: usize)
        ensures
            final(self).scroll_column_spec() == column,
            final(self).scroll_line_spec() == old(self).scroll_line_spec(),
            final(self).cursor_spec() == old(self).cursor_spec(),
            final(self).buffer_id_spec() == old(self).buffer_id_spec(),
            final(self).desired_column_spec() == old(self).desired_column_spec(),
    {
        self.scroll_column = column;
    }

    /// The column vertical movement tries to stay in, if one is remembered.
    pub fn desired_column(&self) -> (c: Option<usize>)
        ensures
            c == self.desired_column_spec(),
    {
        self.desired_column
    }

    /// Remember a column for vertical movement.
    pub fn set_desired_column(&mut self, column: usize)
        ensures
            final(self).desired_column_spec() == Some(column),
            final(self).cursor_spec() == old(self).cursor_spec(),
            final(self).buffer_id_spec() == old(self).buffer_id_spec(),
            final(self).same_scroll(old(self)),
    {
        self.desired_column = Some(column);
    }

    /// Forget the remembered column.
    pub fn clear_desired_column(&mut self)
        ensures
            final(self).desired_column_spec() is None,
            final(self).cursor_spec() == old(self).cursor_spec(),
            final(self).buffer_id_spec() == old(self).buffer_id_spec(),
            final(self).same_scroll(old(self)),
    {
        self.desired_column = None;
    }
}

} // verus!
