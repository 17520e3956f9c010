//! The editor: every buffer and view under a stable identifier, the active
//! view, command execution, and the read-only snapshots a front-end renders.
//!
//! Commands that need the file system do not perform it: executing them
//! yields an [`IoRequest`], and the caller reports what happened through
//! [`Editor::finish_read`] or [`Editor::finish_write`], which turn the
//! outcome into events.  Everything else happens here.

use vstd::prelude::*;

use vstd::string::StrSliceExecFns;
use vstd::view::View as _;

use crate::buffer::Buffer;
use crate::input::{EditorKey, KeyCode};
use crate::position::{Position, Range};
use crate::textspec::{
    col_of, insert_text, line_count, line_display, line_idx, move_down_offset, move_up_offset,
};
use crate::view::{BufferId, View, ViewId};

verus! {

/// A command the editor can execute, independent of any host key
/// representation.
#[derive(Debug)]
pub enum EditorInput {
    InsertChar(char),
    InsertString(String),
    InsertNewLine,
    DeleteChar,
    /// Unsupported: surfaces a "not supported" error.
    DeleteRange(Range),
    Backspace,
    /// Unsupported: surfaces a "not supported" error.
    Undo,
    /// Unsupported: surfaces a "not supported" error.
    Redo,
    Save,
    SaveAs(String),
    OpenFile(String),
    MoveUp(usize),
    MoveDown(usize),
    MoveLeft(usize),
    MoveRight(usize),
    NewBuffer,
    DeleteBuffer,
    NextBuffer,
    PreviousBuffer,
}

/// An event the editor hands to the front-end.
#[derive(Debug, Clone)]
pub enum EditorEvent {
    /// Request the front-end to shut down.
    Shutdown,
    /// Request the front-end to redraw.
    Redraw,
    /// Display an error message to the user.
    Error(String),
    /// Display an informational message to the user.
    Info(String),
}

/// File-system work a command asks its caller to perform.
#[derive(Debug)]
pub enum IoRequest {
    /// Read the whole file at `path`; report through
    /// [`Editor::finish_read`].
    ReadFile { path: String },
    /// Write `content` to `path`; report through [`Editor::finish_write`]
    /// with the same `set_path`.
    WriteFile { path: String, content: String, set_path: bool },
}

/// What executing a command produced: events for the front-end, and at most
/// one file-system request still to perform.
#[derive(Debug)]
pub struct CommandOutcome {
    pub events: Vec<EditorEvent>,
    pub io: Option<IoRequest>,
}

/// The abstract value of a command: its text payloads as character
/// sequences.
pub ghost enum CmdModel {
    InsertChar(char),
    InsertString(Seq<char>),
    InsertNewLine,
    DeleteChar,
    DeleteRange,
    Backspace,
    Undo,
    Redo,
    Save,
    SaveAs(Seq<char>),
    OpenFile(Seq<char>),
    MoveUp(nat),
    MoveDown(nat),
    MoveLeft(nat),
    MoveRight(nat),
    NewBuffer,
    DeleteBuffer,
    NextBuffer,
    PreviousBuffer,
}

/// The abstract value of an [`EditorInput`].
pub open spec fn cmd_model(c: EditorInput) -> CmdModel {
    match c {
        EditorInput::InsertChar(ch) => CmdModel::InsertChar(ch),
        EditorInput::InsertString(s) => CmdModel::InsertString(s@),
        EditorInput::InsertNewLine => CmdModel::InsertNewLine,
        EditorInput::DeleteChar => CmdModel::DeleteChar,
        EditorInput::DeleteRange(_) => CmdModel::DeleteRange,
        EditorInput::Backspace => CmdModel::Backspace,
        EditorInput::Undo => CmdModel::Undo,
        EditorInput::Redo => CmdModel::Redo,
        EditorInput::Save => CmdModel::Save,
        EditorInput::SaveAs(p) => CmdModel::SaveAs(p@),
        EditorInput::OpenFile(p) => CmdModel::OpenFile(p@),
        EditorInput::MoveUp(n) => CmdModel::MoveUp(n as nat),
        EditorInput::MoveDown(n) => CmdModel::MoveDown(n as nat),
        EditorInput::MoveLeft(n) => CmdModel::MoveLeft(n as nat),
        EditorInput::MoveRight(n) => CmdModel::MoveRight(n as nat),
        EditorInput::NewBuffer => CmdModel::NewBuffer,
        EditorInput::DeleteBuffer => CmdModel::DeleteBuffer,
        EditorInput::NextBuffer => CmdModel::NextBuffer,
        EditorInput::PreviousBuffer => CmdModel::PreviousBuffer,
    }
}

/// No two entries of an association list carry the same key.
pub open spec fn unique_keys<T>(s: Seq<(usize, T)>) -> bool {
    forall|i: int, j: int| 0 <= i < j < s.len() ==> s[i].0 != s[j].0
}

/// Index of the entry with key `id`, or -1 if there is none.
pub open spec fn find_key<T>(s: Seq<(usize, T)>, id: usize) -> int
    decreases s.len(),
{
    if s.len() == 0 {
        -1
    } else if s[0].0 == id {
        0
    } else {
        let r = find_key(s.skip(1), id);
        if r < 0 {
            -1
        } else {
            r + 1
        }
    }
}

pub proof fn lemma_find_key<T>(s: Seq<(usize, T)>, id: usize)
    ensures
        find_key(s, id) >= 0 ==> find_key(s, id) < s.len() && s[find_key(s, id)].0 == id,
        find_key(s, id) >= 0 || find_key(s, id) == -1,
        (exists|i: int| 0 <= i < s.len() && s[i].0 == id) ==> find_key(s, id) >= 0,
        find_key(s, id) == -1 ==> forall|i: int| 0 <= i < s.len() ==> s[i].0 != id,
    decreases s.len(),
{
    if s.len() > 0 {
        lemma_find_key(s.skip(1), id);
        if s[0].0 != id {
            if exists|i: int| 0 <= i < s.len() && s[i].0 == id {
                let i = choose|i: int| 0 <= i < s.len() && s[i].0 == id;
                assert(s.skip(1)[i - 1] == s[i]);
            }
            assert(forall|i: int| 1 <= i < s.len() ==> s[i] == s.skip(1)[i - 1]);
        }
    }
}

/// Under unique keys, the entry that carries `id` is where `find_key` says.
pub proof fn lemma_find_key_unique<T>(s: Seq<(usize, T)>, id: usize, i: int)
    requires
        unique_keys(s),
        0 <= i < s.len(),
        s[i].0 == id,
    ensures
        find_key(s, id) == i,
{
    lemma_find_key(s, id);
    let f = find_key(s, id);
    if f != i {
        assert(s[f].0 == id);
    }
}

/// Replace one element of a vector.
fn vec_set<T>(v: &mut Vec<T>, i: usize, x: T)
    requires
        i < old(v)@.len(),
    ensures
        final(v)@ == old(v)@.update(i as int, x),
{
    let _removed = v.remove(i);
    v.insert(i, x);
    proof {
        assert(v@ =~= old(v)@.update(i as int, x));
    }
}

/// Find the entry with key `id` in an association list.
fn find_in<T>(v: &Vec<(usize, T)>, id: usize) -> (r: Option<usize>)
    ensures
        match r {
            Some(i) => i < v@.len() && v@[i as int].0 == id && find_key(v@, id) == i,
            None => find_key(v@, id) == -1,
        },
{
    let n = v.len();
    let mut i: usize = 0;
    while i < n
        invariant
            0 <= i <= n,
            n == v@.len(),
            forall|j: int| 0 <= j < i ==> v@[j].0 != id,
        decreases n - i,
    {
        if v[i].0 == id {
            proof {
                lemma_find_key_prefix(v@, id, i as int);
            }
            return Some(i);
        }
        i = i + 1;
    }
    proof {
        lemma_find_key(v@, id);
        if find_key(v@, id) >= 0 {
            assert(v@[find_key(v@, id)].0 == id);
        }
    }
    None
}

/// If no entry before `i` carries `id` and entry `i` does, `find_key` is
/// `i`.
proof fn lemma_find_key_prefix<T>(s: Seq<(usize, T)>, id: usize, i: int)
    requires
        0 <= i < s.len(),
        forall|j: int| 0 <= j < i ==> s[j].0 != id,
        s[i].0 == id,
    ensures
        find_key(s, id) == i,
    decreases s.len(),
{
    if i == 0 {
    } else {
        assert(forall|j: int| 0 <= j < i - 1 ==> s.skip(1)[j] == s[j + 1]);
        assert(s.skip(1)[i - 1] == s[i]);
        lemma_find_key_prefix(s.skip(1), id, i - 1);
    }
}

/// The editor: buffers and views under stable monotonically allocated
/// identifiers, the active view, and the view cycling order, which is the
/// order the views were created in.
#[derive(Debug)]
pub struct Editor {
    /// The buffers, keyed by their identifiers; keys are unique.
    buffers: Vec<(usize, Buffer)>,
    /// The views in cycle order, keyed by their identifiers; keys are
    /// unique.
    views: Vec<(usize, View)>,
    /// Index of the active view in `views`.
    current: usize,
    /// The next buffer identifier to allocate; never reused.
    next_buffer_id: usize,
    /// The next view identifier to allocate; never reused.
    next_view_id: usize,
}

impl Editor {
    pub closed spec fn buffers_seq(&self) -> Seq<(usize, Buffer)> {
        self.buffers@
    }

    pub closed spec fn views_seq(&self) -> Seq<(usize, View)> {
        self.views@
    }

    pub closed spec fn current_spec(&self) -> int {
        self.current as int
    }

    pub closed spec fn next_buffer_id_spec(&self) -> usize {
        self.next_buffer_id
    }

    pub closed spec fn next_view_id_spec(&self) -> usize {
        self.next_view_id
    }

    /// A buffer with identifier `id` exists.
    pub open spec fn has_buffer(&self, id: usize) -> bool {
        exists|i: int| 0 <= i < self.buffers_seq().len() && self.buffers_seq()[i].0 == id
    }

    /// Some view displays the buffer with identifier `id`.
    pub open spec fn buffer_referenced(&self, id: usize) -> bool {
        exists|i: int|
            0 <= i < self.views_seq().len() && self.views_seq()[i].1.buffer_id_spec().id_spec()
                == id
    }

    /// The editor's invariant: at least one view, the active index valid,
    /// identifiers unique and below their allocators, every view showing an
    /// existing buffer, and no buffer left without a view.
    pub open spec fn wf(&self) -> bool {
        &&& self.views_seq().len() >= 1
        &&& 0 <= self.current_spec() < self.views_seq().len()
        &&& unique_keys(self.views_seq())
        &&& unique_keys(self.buffers_seq())
        &&& forall|i: int|
            0 <= i < self.views_seq().len() ==> self.has_buffer(
                #[trigger] self.views_seq()[i].1.buffer_id_spec().id_spec(),
            )
        &&& forall|i: int|
            0 <= i < self.buffers_seq().len() ==> self.buffer_referenced(
                #[trigger] self.buffers_seq()[i].0,
            )
        &&& forall|i: int|
            0 <= i < self.views_seq().len() ==> #[trigger] self.views_seq()[i].0
                < self.next_view_id_spec()
        &&& forall|i: int|
            0 <= i < self.buffers_seq().len() ==> #[trigger] self.buffers_seq()[i].0
                < self.next_buffer_id_spec()
    }

    /// The active view.
    pub open spec fn cur_view(&self) -> View {
        self.views_seq()[self.current_spec()].1
    }

    /// Identifier of the buffer the active view displays.
    pub open spec fn cur_buf_id(&self) -> usize {
        self.cur_view().buffer_id_spec().id_spec()
    }

    /// Index of that buffer in the buffer list.
    pub open spec fn cur_buf_idx(&self) -> int {
        find_key(self.buffers_seq(), self.cur_buf_id())
    }

    /// The buffer the active view displays.
    pub open spec fn cur_buf(&self) -> Buffer {
        self.buffers_seq()[self.cur_buf_idx()].1
    }

    /// The active view's cursor, clamped to its buffer: a cursor left past
    /// the end of a buffer another view has shrunk counts as the end.
    pub open spec fn clamped_cursor(&self) -> int {
        if self.cur_view().cursor_spec() <= self.cur_buf().text().len() {
            self.cur_view().cursor_spec() as int
        } else {
            self.cur_buf().text().len() as int
        }
    }

    /// Create an editor with one empty buffer and one view of it.
    pub fn new() -> (e: Editor)
        ensures
            e.wf(),
            e.buffers_seq().len() == 1,
            e.views_seq().len() == 1,
            e.current_spec() == 0,
            e.cur_buf().text() == Seq::<char>::empty(),
            e.cur_buf().path_spec() is None,
            e.cur_buf().name_spec() is None,
            !e.cur_buf().modified_spec(),
            e.cur_view().cursor_spec() == 0,
            e.next_buffer_id_spec() == 1,
            e.next_view_id_spec() == 1,
    {
        let mut buffers: Vec<(usize, Buffer)> = Vec::new();
        buffers.push((0, Buffer::new()));
        let mut views: Vec<(usize, View)> = Vec::new();
        views.push((0, View::new(BufferId::new(0))));
        let e = Editor { buffers, views, current: 0, next_buffer_id: 1, next_view_id: 1 };
        proof {
            assert(e.buffers_seq()[0].0 == 0);
            assert(e.views_seq()[0].1.buffer_id_spec().id_spec() == 0);
            assert(e.has_buffer(0));
            assert(e.buffer_referenced(0));
            assert(find_key(e.buffers_seq(), 0) == 0);
        }
        e
    }

    /// Create an editor showing the contents of a file already read from
    /// `path`; the buffer's name is the path's last `/`-separated piece, or
    /// a placeholder when that is empty.
    pub fn with_file(path: String, content: &str) -> (e: Editor)
        ensures
            e.wf(),
            e.buffers_seq().len() == 1,
            e.views_seq().len() == 1,
            e.current_spec() == 0,
            e.cur_buf().text() == content@,
            e.cur_buf().path_spec() == Some(path@),
            e.cur_buf().name_spec() == Some(display_name(path@)),
            !e.cur_buf().modified_spec(),
            e.cur_view().cursor_spec() == 0,
            e.next_buffer_id_spec() == 1,
            e.next_view_id_spec() == 1,
    {
        let name = base_name(path.as_str());
        let buffer = Buffer::from_content(Some(path), Some(name), content);
        let mut buffers: Vec<(usize, Buffer)> = Vec::new();
        buffers.push((0, buffer));
        let mut views: Vec<(usize, View)> = Vec::new();
        views.push((0, View::new(BufferId::new(0))));
        let e = Editor { buffers, views, current: 0, next_buffer_id: 1, next_view_id: 1 };
        proof {
            assert(e.buffers_seq()[0].0 == 0);
            assert(e.views_seq()[0].1.buffer_id_spec().id_spec() == 0);
            assert(e.has_buffer(0));
            assert(e.buffer_referenced(0));
            assert(find_key(e.buffers_seq(), 0) == 0);
        }
        e
    }

    /// The active view, when the editor is well formed.
    pub fn get_current_view(&self) -> (r: Option<&View>)
        ensures
            self.wf() ==> (r matches Some(v) && *v == self.cur_view()),
            self.current_spec() < self.views_seq().len() ==> r is Some,
            r matches Some(v) ==> *v == self.cur_view(),
    {
        if self.current < self.views.len() {
            Some(&self.views[self.current].1)
        } else {
            None
        }
    }

    /// The buffer the active view displays, when the editor is well formed.
    pub fn get_current_buffer(&self) -> (r: Option<&Buffer>)
        ensures
            self.wf() ==> (r matches Some(b) && *b == self.cur_buf()),
    {
        if self.current >= self.views.len() {
            return None;
        }
        let bid = self.views[self.current].1.buffer_id();
        match find_in(&self.buffers, bid.id()) {
            Some(i) => Some(&self.buffers[i].1),
            None => {
                proof {
                    if self.wf() {
                        lemma_find_key(self.buffers_seq(), bid.id_spec());
                    }
                }
                None
            },
        }
    }

    /// How many buffers the editor holds.
    pub fn buffer_count(&self) -> (n: usize)
        ensures
            n == self.buffers_seq().len(),
    {
        self.buffers.len()
    }

    /// How many views the editor holds.
    pub fn view_count(&self) -> (n: usize)
        ensures
            n == self.views_seq().len(),
    {
        self.views.len()
    }
}

/// Exactly one event, a redraw.
pub open spec fn is_redraw_only(es: Seq<EditorEvent>) -> bool {
    es.len() == 1 && es[0] is Redraw
}

/// Exactly one event, an error with message `m`.
pub open spec fn is_error_msg(es: Seq<EditorEvent>, m: Seq<char>) -> bool {
    es.len() == 1 && (es[0] matches EditorEvent::Error(t) && t@ == m)
}

/// Exactly one event, an informational message `m`.
pub open spec fn is_info_msg(es: Seq<EditorEvent>, m: Seq<char>) -> bool {
    es.len() == 1 && (es[0] matches EditorEvent::Info(t) && t@ == m)
}

/// The views of `post` are those of `pre` with the active view's cursor
/// rewritten to `nc`: buffer, key and scroll kept, the remembered column
/// kept only by sticky (vertical) movement.
pub open spec fn views_written(pre: Editor, post: Editor, nc: int, sticky: bool) -> bool {
    &&& post.views_seq() == pre.views_seq().update(
        pre.current_spec(),
        (pre.views_seq()[pre.current_spec()].0, post.cur_view()),
    )
    &&& post.cur_view().cursor_spec() == nc
    &&& post.cur_view().buffer_id_spec() == pre.cur_view().buffer_id_spec()
    &&& post.cur_view().same_scroll(&pre.cur_view())
    &&& (if sticky {
        post.cur_view().desired_column_spec() == pre.cur_view().desired_column_spec()
    } else {
        post.cur_view().desired_column_spec() is None
    })
    &&& post.current_spec() == pre.current_spec()
}

/// The identifier allocators are untouched.
pub open spec fn same_allocators(pre: Editor, post: Editor) -> bool {
    post.next_buffer_id_spec() == pre.next_buffer_id_spec() && post.next_view_id_spec()
        == pre.next_view_id_spec()
}

/// Only the active view's cursor moved.
pub open spec fn cursor_moved(pre: Editor, post: Editor, nc: int, sticky: bool) -> bool {
    &&& views_written(pre, post, nc, sticky)
    &&& post.buffers_seq() == pre.buffers_seq()
    &&& same_allocators(pre, post)
}

/// The active buffer's text became `new_text` and is marked modified, and
/// the active view's cursor was rewritten to `nc`; nothing else changed.
pub open spec fn edit_applied(pre: Editor, post: Editor, new_text: Seq<char>, nc: int) -> bool {
    let bidx = pre.cur_buf_idx();
    &&& post.buffers_seq() == pre.buffers_seq().update(
        bidx,
        (pre.buffers_seq()[bidx].0, post.buffers_seq()[bidx].1),
    )
    &&& post.buffers_seq()[bidx].1.text() == new_text
    &&& post.buffers_seq()[bidx].1.modified_spec()
    &&& post.buffers_seq()[bidx].1.same_identity(&pre.buffers_seq()[bidx].1)
    &&& views_written(pre, post, nc, false)
    &&& same_allocators(pre, post)
}

/// Inserting `t` at the clamped cursor: the splice and the advanced cursor,
/// with one redraw; a buffer already at the machine's size limit ignores
/// the insertion.
pub open spec fn insert_step(
    pre: Editor,
    post: Editor,
    t: Seq<char>,
    events: Seq<EditorEvent>,
    io: Option<IoRequest>,
) -> bool {
    let c0 = pre.clamped_cursor();
    let txt = pre.cur_buf().text();
    &&& io is None
    &&& if txt.len() + t.len() <= usize::MAX {
        edit_applied(pre, post, insert_text(txt, c0, t), c0 + t.len()) && is_redraw_only(events)
    } else {
        post == pre && events.len() == 0
    }
}

/// An operation the editor does not support: an error event, nothing else.
pub open spec fn unsupported_step(
    pre: Editor,
    post: Editor,
    events: Seq<EditorEvent>,
    io: Option<IoRequest>,
    m: Seq<char>,
) -> bool {
    post == pre && io is None && is_error_msg(events, m)
}

/// A buffer `b` freshly added under the next identifier, together with a
/// fresh view of it at the start of the text, which becomes active.
pub open spec fn buffer_view_added(pre: Editor, post: Editor, b: Buffer) -> bool {
    &&& post.buffers_seq() == pre.buffers_seq().push((pre.next_buffer_id_spec(), b))
    &&& post.views_seq() == pre.views_seq().push(
        (pre.next_view_id_spec(), post.views_seq().last().1),
    )
    &&& post.views_seq().last().1.buffer_id_spec().id_spec() == pre.next_buffer_id_spec()
    &&& post.views_seq().last().1.cursor_spec() == 0
    &&& post.views_seq().last().1.scroll_line_spec() == 0
    &&& post.views_seq().last().1.scroll_column_spec() == 0
    &&& post.views_seq().last().1.desired_column_spec() is None
    &&& post.current_spec() == post.views_seq().len() - 1
    &&& post.next_buffer_id_spec() == pre.next_buffer_id_spec() + 1
    &&& post.next_view_id_spec() == pre.next_view_id_spec() + 1
}

/// A fresh empty buffer with a fresh view of it, which becomes active; a
/// full identifier allocator ignores the command.
pub open spec fn new_buffer_step(
    pre: Editor,
    post: Editor,
    events: Seq<EditorEvent>,
    io: Option<IoRequest>,
) -> bool {
    &&& io is None
    &&& if pre.next_buffer_id_spec() < usize::MAX && pre.next_view_id_spec() < usize::MAX {
        &&& buffer_view_added(pre, post, post.buffers_seq().last().1)
        &&& post.buffers_seq().last().1.text() == Seq::<char>::empty()
        &&& post.buffers_seq().last().1.path_spec() is None
        &&& post.buffers_seq().last().1.name_spec() is None
        &&& !post.buffers_seq().last().1.modified_spec()
        &&& is_redraw_only(events)
    } else {
        post == pre && events.len() == 0
    }
}

/// Deleting the active view: refused as a no-op when it is the only view;
/// otherwise the view leaves the cycle, its buffer leaves too if no other
/// view shows it, and the last view in the cycle becomes active.
pub open spec fn delete_view_step(
    pre: Editor,
    post: Editor,
    events: Seq<EditorEvent>,
    io: Option<IoRequest>,
) -> bool {
    &&& io is None
    &&& if pre.views_seq().len() <= 1 {
        post == pre && events.len() == 0
    } else {
        let vidx = pre.current_spec();
        let still = exists|i: int|
            0 <= i < pre.views_seq().len() && i != vidx
                && pre.views_seq()[i].1.buffer_id_spec().id_spec() == pre.cur_buf_id();
        &&& post.views_seq() == pre.views_seq().remove(vidx)
        &&& post.buffers_seq() == if still {
            pre.buffers_seq()
        } else {
            pre.buffers_seq().remove(pre.cur_buf_idx())
        }
        &&& post.current_spec() == post.views_seq().len() - 1
        &&& same_allocators(pre, post)
        &&& is_redraw_only(events)
    }
}

/// The active buffer after a completed write: content and name kept,
/// modified cleared, and the path replaced when the write was a save-as.
pub open spec fn saved_applied(pre: Editor, post: Editor, path: Seq<char>, set_path: bool) -> bool {
    let bidx = pre.cur_buf_idx();
    &&& post.buffers_seq() == pre.buffers_seq().update(
        bidx,
        (pre.buffers_seq()[bidx].0, post.buffers_seq()[bidx].1),
    )
    &&& post.buffers_seq()[bidx].1.text() == pre.cur_buf().text()
    &&& !post.buffers_seq()[bidx].1.modified_spec()
    &&& post.buffers_seq()[bidx].1.path_spec() == (if set_path {
        Some(path)
    } else {
        pre.cur_buf().path_spec()
    })
    &&& post.buffers_seq()[bidx].1.name_spec() == pre.cur_buf().name_spec()
    &&& post.views_seq() == pre.views_seq()
    &&& post.current_spec() == pre.current_spec()
    &&& same_allocators(pre, post)
}

/// What reporting a finished write does: on success the active buffer is
/// marked saved and an informational event comes back; on failure nothing
/// changes and an error event carries the detail.
pub open spec fn finish_write_spec(
    pre: Editor,
    path: Seq<char>,
    set_path: bool,
    res: Result<(), String>,
    post: Editor,
    events: Seq<EditorEvent>,
) -> bool {
    match res {
        Ok(_) => {
            &&& saved_applied(pre, post, path, set_path)
            &&& (if set_path {
                is_info_msg(events, "Saved as "@ + path)
            } else {
                is_info_msg(events, "Saved"@)
            })
        },
        Err(e) => {
            &&& post == pre
            &&& is_error_msg(
                events,
                if set_path {
                    "Save as "@ + path + " failed: "@ + e@
                } else {
                    "Save failed: "@ + e@
                },
            )
        },
    }
}

/// What reporting a finished read does: on success a fresh buffer shows the
/// contents, as new-buffer does, under the file's path and display name,
/// with an informational event and a redraw; on failure nothing changes and
/// an error event carries the detail.  A full identifier allocator ignores
/// the contents.
pub open spec fn finish_read_spec(
    pre: Editor,
    path: Seq<char>,
    res: Result<String, String>,
    post: Editor,
    events: Seq<EditorEvent>,
) -> bool {
    match res {
        Ok(content) => {
            if pre.next_buffer_id_spec() < usize::MAX && pre.next_view_id_spec() < usize::MAX {
                &&& buffer_view_added(pre, post, post.buffers_seq().last().1)
                &&& post.buffers_seq().last().1.text() == content@
                &&& post.buffers_seq().last().1.path_spec() == Some(path)
                &&& post.buffers_seq().last().1.name_spec() == Some(display_name(path))
                &&& !post.buffers_seq().last().1.modified_spec()
                &&& events.len() == 2
                &&& (events[0] matches EditorEvent::Info(m) && m@ == "Opened "@ + path)
                &&& events[1] is Redraw
            } else {
                post == pre && events.len() == 0
            }
        },
        Err(e) => {
            &&& post == pre
            &&& is_error_msg(events, "Failed to open "@ + path + ": "@ + e@)
        },
    }
}

/// A second view of the active buffer, with its own cursor starting where
/// the active view's cursor stands, which becomes active; a full identifier
/// allocator ignores the request.
pub open spec fn share_spec(pre: Editor, post: Editor) -> bool {
    if pre.next_view_id_spec() < usize::MAX {
        &&& post.buffers_seq() == pre.buffers_seq()
        &&& post.views_seq() == pre.views_seq().push(
            (pre.next_view_id_spec(), post.views_seq().last().1),
        )
        &&& post.views_seq().last().1.buffer_id_spec() == pre.cur_view().buffer_id_spec()
        &&& post.views_seq().last().1.cursor_spec() == pre.cur_view().cursor_spec()
        &&& post.views_seq().last().1.scroll_line_spec() == 0
        &&& post.views_seq().last().1.scroll_column_spec() == 0
        &&& post.views_seq().last().1.desired_column_spec() is None
        &&& post.current_spec() == post.views_seq().len() - 1
        &&& post.next_view_id_spec() == pre.next_view_id_spec() + 1
        &&& post.next_buffer_id_spec() == pre.next_buffer_id_spec()
    } else {
        post == pre
    }
}

/// One scroll offset brought back over the cursor: reveal upward to the
/// cursor's position, or scroll minimally downward so the cursor sits on
/// the last visible row or column.
pub open spec fn scroll_adjust(scroll: int, pos: int, size: int) -> int {
    if pos < scroll {
        pos
    } else if pos >= scroll + size {
        let k = if size == 0 {
            0
        } else {
            size - 1
        };
        if pos - k >= 0 {
            pos - k
        } else {
            0
        }
    } else {
        scroll
    }
}

/// Both scroll offsets of the active view adjusted to keep the cursor
/// visible in a viewport of the given size; nothing else changes.
pub open spec fn scroll_applied(pre: Editor, post: Editor, w: int, h: int) -> bool {
    let txt = pre.cur_buf().text();
    let line = line_idx(txt, pre.clamped_cursor()) as int;
    let col = col_of(txt, pre.clamped_cursor());
    &&& post.buffers_seq() == pre.buffers_seq()
    &&& post.views_seq() == pre.views_seq().update(
        pre.current_spec(),
        (pre.views_seq()[pre.current_spec()].0, post.cur_view()),
    )
    &&& post.cur_view().scroll_line_spec() == scroll_adjust(
        pre.cur_view().scroll_line_spec() as int,
        line,
        h,
    )
    &&& post.cur_view().scroll_column_spec() == scroll_adjust(
        pre.cur_view().scroll_column_spec() as int,
        col,
        w,
    )
    &&& post.cur_view().cursor_spec() == pre.cur_view().cursor_spec()
    &&& post.cur_view().buffer_id_spec() == pre.cur_view().buffer_id_spec()
    &&& post.cur_view().desired_column_spec() == pre.cur_view().desired_column_spec()
    &&& post.current_spec() == pre.current_spec()
    &&& same_allocators(pre, post)
}

/// The whole editor step relation: what executing each command does to the
/// editor, which events come back, and which file-system request is left
/// for the caller.
pub open spec fn step_spec(
    pre: Editor,
    cm: CmdModel,
    post: Editor,
    events: Seq<EditorEvent>,
    io: Option<IoRequest>,
) -> bool {
    match cm {
        CmdModel::InsertChar(ch) => insert_step(pre, post, seq![ch], events, io),
        CmdModel::InsertString(t) => insert_step(pre, post, t, events, io),
        CmdModel::InsertNewLine => insert_step(pre, post, seq!['\n'], events, io),
        CmdModel::DeleteChar => {
            let c0 = pre.clamped_cursor();
            let txt = pre.cur_buf().text();
            &&& io is None
            &&& is_redraw_only(events)
            &&& if c0 < txt.len() {
                edit_applied(pre, post, txt.remove(c0), c0)
            } else {
                cursor_moved(pre, post, c0, false)
            }
        },
        CmdModel::Backspace => {
            let c0 = pre.clamped_cursor();
            let txt = pre.cur_buf().text();
            &&& io is None
            &&& is_redraw_only(events)
            &&& if c0 > 0 {
                edit_applied(pre, post, txt.remove(c0 - 1), c0 - 1)
            } else {
                cursor_moved(pre, post, c0, false)
            }
        },
        CmdModel::DeleteRange => unsupported_step(
            pre,
            post,
            events,
            io,
            "delete-range is not supported"@,
        ),
        CmdModel::Undo => unsupported_step(pre, post, events, io, "undo is not supported"@),
        CmdModel::Redo => unsupported_step(pre, post, events, io, "redo is not supported"@),
        CmdModel::Save => {
            &&& post == pre
            &&& match pre.cur_buf().path_spec() {
                Some(p) => {
                    &&& events.len() == 0
                    &&& (io matches Some(IoRequest::WriteFile { path, content, set_path })
                        && path@ == p && content@ == pre.cur_buf().text() && set_path == false)
                },
                None => io is None && is_error_msg(events, "Save failed: No buffer path set"@),
            }
        },
        CmdModel::SaveAs(p) => {
            &&& post == pre
            &&& events.len() == 0
            &&& (io matches Some(IoRequest::WriteFile { path, content, set_path }) && path@ == p
                && content@ == pre.cur_buf().text() && set_path == true)
        },
        CmdModel::OpenFile(p) => {
            &&& post == pre
            &&& events.len() == 0
            &&& (io matches Some(IoRequest::ReadFile { path }) && path@ == p)
        },
        CmdModel::MoveLeft(n) => {
            let c0 = pre.clamped_cursor();
            &&& io is None
            &&& is_redraw_only(events)
            &&& cursor_moved(
                pre,
                post,
                if c0 >= n {
                    c0 - n
                } else {
                    0
                },
                false,
            )
        },
        CmdModel::MoveRight(n) => {
            let c0 = pre.clamped_cursor();
            let len = pre.cur_buf().text().len() as int;
            &&& io is None
            &&& is_redraw_only(events)
            &&& cursor_moved(
                pre,
                post,
                if c0 + n <= len {
                    c0 + n
                } else {
                    len
                },
                false,
            )
        },
        CmdModel::MoveUp(n) => {
            &&& io is None
            &&& is_redraw_only(events)
            &&& cursor_moved(
                pre,
                post,
                move_vert_n(pre.cur_buf().text(), pre.clamped_cursor(), n, true),
                true,
            )
        },
        CmdModel::MoveDown(n) => {
            &&& io is None
            &&& is_redraw_only(events)
            &&& cursor_moved(
                pre,
                post,
                move_vert_n(pre.cur_buf().text(), pre.clamped_cursor(), n, false),
                true,
            )
        },
        CmdModel::NewBuffer => new_buffer_step(pre, post, events, io),
        CmdModel::DeleteBuffer => delete_view_step(pre, post, events, io),
        CmdModel::NextBuffer => {
            &&& io is None
            &&& is_redraw_only(events)
            &&& post.buffers_seq() == pre.buffers_seq()
            &&& post.views_seq() == pre.views_seq()
            &&& same_allocators(pre, post)
            &&& post.current_spec() == (pre.current_spec() + 1) % pre.views_seq().len() as int
        },
        CmdModel::PreviousBuffer => {
            &&& io is None
            &&& is_redraw_only(events)
            &&& post.buffers_seq() == pre.buffers_seq()
            &&& post.views_seq() == pre.views_seq()
            &&& same_allocators(pre, post)
            &&& post.current_spec() == if pre.current_spec() == 0 {
                pre.views_seq().len() - 1
            } else {
                pre.current_spec() - 1
            }
        },
    }
}

/// The cursor after `n` one-line movements, each clamping its column to the
/// target line and stopping at the first or last line.
pub open spec fn move_vert_n(s: Seq<char>, c: int, n: nat, up: bool) -> int
    decreases n,
{
    if n == 0 {
        c
    } else {
        let prev = move_vert_n(s, c, (n - 1) as nat, up);
        let step = if up {
            move_up_offset(s, prev)
        } else {
            move_down_offset(s, prev)
        };
        match step {
            Some(nc) => nc,
            None => prev,
        }
    }
}

/// Once a vertical movement reports no room, further movements stay put.
proof fn lemma_move_vert_stall(s: Seq<char>, c: int, k: nat, n: nat, up: bool)
    requires
        k <= n,
        (if up {
            move_up_offset(s, move_vert_n(s, c, k, up))
        } else {
            move_down_offset(s, move_vert_n(s, c, k, up))
        }) is None,
    ensures
        move_vert_n(s, c, n, up) == move_vert_n(s, c, k, up),
    decreases n,
{
    if n > k {
        lemma_move_vert_stall(s, c, k, (n - 1) as nat, up);
    }
}

/// Well-formedness survives any change that keeps every key, every view's
/// buffer, the counts, a valid active index and the allocators.
proof fn lemma_wf_preserved(pre: Editor, post: Editor)
    requires
        pre.wf(),
        post.views_seq().len() == pre.views_seq().len(),
        forall|i: int|
            0 <= i < pre.views_seq().len() ==> #[trigger] post.views_seq()[i].0
                == pre.views_seq()[i].0,
        forall|i: int|
            0 <= i < pre.views_seq().len() ==> #[trigger] post.views_seq()[i].1.buffer_id_spec()
                == pre.views_seq()[i].1.buffer_id_spec(),
        post.buffers_seq().len() == pre.buffers_seq().len(),
        forall|i: int|
            0 <= i < pre.buffers_seq().len() ==> #[trigger] post.buffers_seq()[i].0
                == pre.buffers_seq()[i].0,
        0 <= post.current_spec() < post.views_seq().len(),
        post.next_view_id_spec() == pre.next_view_id_spec(),
        post.next_buffer_id_spec() == pre.next_buffer_id_spec(),
    ensures
        post.wf(),
{
    assert forall|i: int| 0 <= i < post.views_seq().len() implies post.has_buffer(
        #[trigger] post.views_seq()[i].1.buffer_id_spec().id_spec(),
    ) by {
        let id = post.views_seq()[i].1.buffer_id_spec().id_spec();
        assert(pre.views_seq()[i].1.buffer_id_spec().id_spec() == id);
        assert(pre.has_buffer(id));
        let j = choose|j: int|
            0 <= j < pre.buffers_seq().len() && pre.buffers_seq()[j].0 == id;
        assert(post.buffers_seq()[j].0 == id);
    }
    assert forall|i: int| 0 <= i < post.buffers_seq().len() implies post.buffer_referenced(
        #[trigger] post.buffers_seq()[i].0,
    ) by {
        let id = post.buffers_seq()[i].0;
        assert(pre.buffers_seq()[i].0 == id);
        assert(pre.buffer_referenced(id));
        let j = choose|j: int|
            0 <= j < pre.views_seq().len() && pre.views_seq()[j].1.buffer_id_spec().id_spec()
                == id;
        assert(post.views_seq()[j].1.buffer_id_spec().id_spec() == id);
    }
}

/// No events.
fn events0() -> (v: Vec<EditorEvent>)
    ensures
        v@ == Seq::<EditorEvent>::empty(),
{
    let v: Vec<EditorEvent> = Vec::new();
    proof {
        assert(v@ =~= Seq::<EditorEvent>::empty());
    }
    v
}

/// One event.
fn events1(e: EditorEvent) -> (v: Vec<EditorEvent>)
    ensures
        v@ == seq![e],
{
    let mut v: Vec<EditorEvent> = Vec::new();
    v.push(e);
    proof {
        assert(v@ =~= seq![e]);
    }
    v
}

/// Two events.
fn events2(a: EditorEvent, b: EditorEvent) -> (v: Vec<EditorEvent>)
    ensures
        v@ == seq![a, b],
{
    let mut v: Vec<EditorEvent> = Vec::new();
    v.push(a);
    v.push(b);
    proof {
        assert(v@ =~= seq![a, b]);
    }
    v
}

impl Editor {
    /// Index of the active view's buffer in the buffer list.
    fn cur_buf_index(&self) -> (i: usize)
        requires
            self.wf(),
        ensures
            i == self.cur_buf_idx(),
            i < self.buffers_seq().len(),
            self.buffers_seq()[i as int].0 == self.cur_buf_id(),
            self.buffers_seq()[i as int].1 == self.cur_buf(),
    {
        let bid = self.views[self.current].1.buffer_id();
        match find_in(&self.buffers, bid.id()) {
            Some(i) => i,
            None => {
                proof {
                    lemma_find_key(self.buffers_seq(), bid.id_spec());
                    assert(false);
                }
                0
            },
        }
    }

    /// The active view's cursor clamped to its buffer's length.
    fn clamped_cursor_exec(&self) -> (c: usize)
        requires
            self.wf(),
        ensures
            c == self.clamped_cursor(),
            c <= self.cur_buf().text().len(),
    {
        let bi = self.cur_buf_index();
        let len = self.buffers[bi].1.move_to_end();
        let cur = self.views[self.current].1.cursor();
        if cur <= len {
            cur
        } else {
            len
        }
    }

    /// Rewrite the active view's cursor, keeping the remembered column only
    /// for sticky (vertical) movement.
    fn set_cur_cursor(&mut self, nc: usize, sticky: bool)
        requires
            old(self).wf(),
        ensures
            final(self).wf(),
            views_written(*old(self), *final(self), nc as int, sticky),
            final(self).buffers_seq() == old(self).buffers_seq(),
            same_allocators(*old(self), *final(self)),
    {
        let vi = self.current;
        let mut pair = self.views[vi];
        if sticky {
            pair.1.update_cursor(nc);
        } else {
            pair.1.set_cursor(nc);
        }
        vec_set(&mut self.views, vi, pair);
        proof {
            lemma_wf_preserved(*old(self), *self);
        }
    }
}

impl Editor {
    /// Splice `t` into the active buffer at the clamped cursor.
    fn do_insert_str(&mut self, t: &str) -> (out: CommandOutcome)
        requires
            old(self).wf(),
        ensures
            final(self).wf(),
            insert_step(*old(self), *final(self), t@, out.events@, out.io),
    {
        let c0 = self.clamped_cursor_exec();
        let bi = self.cur_buf_index();
        let len = self.buffers[bi].1.move_to_end();
        let slen = t.unicode_len();
        if slen <= usize::MAX - len {
            let mut pair = self.buffers.remove(bi);
            let nc = pair.1.insert_string(c0, t);
            self.buffers.insert(bi, pair);
            proof {
                assert(self.buffers@ =~= old(self).buffers_seq().update(
                    bi as int,
                    (old(self).buffers_seq()[bi as int].0, self.buffers_seq()[bi as int].1),
                ));
                lemma_wf_preserved(*old(self), *self);
            }
            self.set_cur_cursor(nc, false);
            CommandOutcome { events: events1(EditorEvent::Redraw), io: None }
        } else {
            CommandOutcome { events: events0(), io: None }
        }
    }

    /// Splice one character into the active buffer at the clamped cursor.
    fn do_insert_char(&mut self, ch: char) -> (out: CommandOutcome)
        requires
            old(self).wf(),
        ensures
            final(self).wf(),
            insert_step(*old(self), *final(self), seq![ch], out.events@, out.io),
    {
        let c0 = self.clamped_cursor_exec();
        let bi = self.cur_buf_index();
        let len = self.buffers[bi].1.move_to_end();
        if len < usize::MAX {
            let mut pair = self.buffers.remove(bi);
            let nc = pair.1.insert_char(c0, ch);
            self.buffers.insert(bi, pair);
            proof {
                assert(self.buffers@ =~= old(self).buffers_seq().update(
                    bi as int,
                    (old(self).buffers_seq()[bi as int].0, self.buffers_seq()[bi as int].1),
                ));
                assert(old(self).cur_buf().text().insert(c0 as int, ch) =~= insert_text(
                    old(self).cur_buf().text(),
                    c0 as int,
                    seq![ch],
                ));
                lemma_wf_preserved(*old(self), *self);
            }
            self.set_cur_cursor(nc, false);
            CommandOutcome { events: events1(EditorEvent::Redraw), io: None }
        } else {
            CommandOutcome { events: events0(), io: None }
        }
    }

    /// Remove the character at the clamped cursor, if there is one; the
    /// cursor stays.
    fn do_delete_char(&mut self) -> (out: CommandOutcome)
        requires
            old(self).wf(),
        ensures
            final(self).wf(),
            step_spec(*old(self), CmdModel::DeleteChar, *final(self), out.events@, out.io),
    {
        let c0 = self.clamped_cursor_exec();
        let bi = self.cur_buf_index();
        let mut pair = self.buffers.remove(bi);
        let r = pair.1.delete_char(c0);
        self.buffers.insert(bi, pair);
        proof {
            if c0 < old(self).cur_buf().text().len() {
                assert(self.buffers@ =~= old(self).buffers_seq().update(
                    bi as int,
                    (old(self).buffers_seq()[bi as int].0, self.buffers_seq()[bi as int].1),
                ));
            } else {
                assert(self.buffers@ =~= old(self).buffers_seq());
            }
            lemma_wf_preserved(*old(self), *self);
        }
        self.set_cur_cursor(r.1, false);
        CommandOutcome { events: events1(EditorEvent::Redraw), io: None }
    }

    /// Remove the character before the clamped cursor, if there is one; on
    /// success the cursor moves one to the left.
    fn do_backspace(&mut self) -> (out: CommandOutcome)
        requires
            old(self).wf(),
        ensures
            final(self).wf(),
            step_spec(*old(self), CmdModel::Backspace, *final(self), out.events@, out.io),
    {
        let c0 = self.clamped_cursor_exec();
        let bi = self.cur_buf_index();
        let mut pair = self.buffers.remove(bi);
        let r = pair.1.backspace(c0);
        self.buffers.insert(bi, pair);
        proof {
            if c0 > 0 {
                assert(self.buffers@ =~= old(self).buffers_seq().update(
                    bi as int,
                    (old(self).buffers_seq()[bi as int].0, self.buffers_seq()[bi as int].1),
                ));
            } else {
                assert(self.buffers@ =~= old(self).buffers_seq());
            }
            lemma_wf_preserved(*old(self), *self);
        }
        self.set_cur_cursor(r.1, false);
        CommandOutcome { events: events1(EditorEvent::Redraw), io: None }
    }

    /// Move the cursor `count` columns left or right, clamped to the
    /// buffer.
    fn do_move_horiz(&mut self, count: usize, left: bool) -> (out: CommandOutcome)
        requires
            old(self).wf(),
        ensures
            final(self).wf(),
            out.io is None,
            is_redraw_only(out.events@),
            cursor_moved(
                *old(self),
                *final(self),
                ({
                    let c0 = old(self).clamped_cursor();
                    let len = old(self).cur_buf().text().len() as int;
                    if left {
                        if c0 >= count {
                            c0 - count
                        } else {
                            0
                        }
                    } else {
                        if c0 + count <= len {
                            c0 + count
                        } else {
                            len
                        }
                    }
                }),
                false,
            ),
    {
        let c0 = self.clamped_cursor_exec();
        let bi = self.cur_buf_index();
        let len = self.buffers[bi].1.move_to_end();
        let nc = if left {
            if c0 >= count {
                c0 - count
            } else {
                0
            }
        } else {
            if count <= len - c0 {
                c0 + count
            } else {
                len
            }
        };
        self.set_cur_cursor(nc, false);
        CommandOutcome { events: events1(EditorEvent::Redraw), io: None }
    }

    /// Move the cursor `count` lines up or down, clamping the column each
    /// step and stopping at the first or last line; vertical movement keeps
    /// the remembered column.
    fn do_move_vert(&mut self, count: usize, up: bool) -> (out: CommandOutcome)
        requires
            old(self).wf(),
        ensures
            final(self).wf(),
            out.io is None,
            is_redraw_only(out.events@),
            cursor_moved(
                *old(self),
                *final(self),
                move_vert_n(
                    old(self).cur_buf().text(),
                    old(self).clamped_cursor(),
                    count as nat,
                    up,
                ),
                true,
            ),
    {
        let c0 = self.clamped_cursor_exec();
        let bi = self.cur_buf_index();
        let ghost s = self.cur_buf().text();
        let buf = &self.buffers[bi].1;
        let mut c = c0;
        let mut i: usize = 0;
        while i < count
            invariant
                0 <= i <= count,
                buf.text() == s,
                c <= s.len(),
                c == move_vert_n(s, c0 as int, i as nat, up),
            decreases count - i,
        {
            let step = if up {
                buf.move_up(c)
            } else {
                buf.move_down(c)
            };
            match step {
                Some(nc) => {
                    c = nc;
                },
                None => {},
            }
            i = i + 1;
        }
        self.set_cur_cursor(c, true);
        CommandOutcome { events: events1(EditorEvent::Redraw), io: None }
    }

    /// Add `buffer` under a fresh identifier together with a fresh view of
    /// it, and switch to that view.
    fn create_buffer_with_view(&mut self, buffer: Buffer)
        requires
            old(self).wf(),
            old(self).next_buffer_id_spec() < usize::MAX,
            old(self).next_view_id_spec() < usize::MAX,
        ensures
            final(self).wf(),
            buffer_view_added(*old(self), *final(self), buffer),
    {
        {
            let nb = self.next_buffer_id;
            let nv = self.next_view_id;
            self.next_buffer_id = nb + 1;
            self.next_view_id = nv + 1;
            self.buffers.push((nb, buffer));
            self.views.push((nv, View::new(BufferId::new(nb))));
            self.current = self.views.len() - 1;
            proof {
                let pre = *old(self);
                let post = *self;
                assert forall|i: int, j: int|
                    0 <= i < j < post.views_seq().len() implies post.views_seq()[i].0
                    != post.views_seq()[j].0 by {
                    if j < pre.views_seq().len() {
                    } else {
                        assert(post.views_seq()[j].0 == nv);
                        assert(post.views_seq()[i].0 == pre.views_seq()[i].0);
                    }
                }
                assert forall|i: int, j: int|
                    0 <= i < j < post.buffers_seq().len() implies post.buffers_seq()[i].0
                    != post.buffers_seq()[j].0 by {
                    if j < pre.buffers_seq().len() {
                    } else {
                        assert(post.buffers_seq()[j].0 == nb);
                        assert(post.buffers_seq()[i].0 == pre.buffers_seq()[i].0);
                    }
                }
                assert forall|i: int| 0 <= i < post.views_seq().len() implies post.has_buffer(
                    #[trigger] post.views_seq()[i].1.buffer_id_spec().id_spec(),
                ) by {
                    if i < pre.views_seq().len() {
                        assert(pre.has_buffer(pre.views_seq()[i].1.buffer_id_spec().id_spec()));
                        let j = choose|j: int|
                            0 <= j < pre.buffers_seq().len() && pre.buffers_seq()[j].0
                                == pre.views_seq()[i].1.buffer_id_spec().id_spec();
                        assert(post.buffers_seq()[j].0 == pre.buffers_seq()[j].0);
                    } else {
                        assert(post.views_seq()[i].1.buffer_id_spec().id_spec() == nb);
                        assert(post.buffers_seq()[post.buffers_seq().len() - 1].0 == nb);
                    }
                }
                assert forall|i: int|
                    0 <= i < post.buffers_seq().len() implies post.buffer_referenced(
                    #[trigger] post.buffers_seq()[i].0,
                ) by {
                    if i < pre.buffers_seq().len() {
                        assert(pre.buffer_referenced(pre.buffers_seq()[i].0));
                        let j = choose|j: int|
                            0 <= j < pre.views_seq().len()
                                && pre.views_seq()[j].1.buffer_id_spec().id_spec()
                                == pre.buffers_seq()[i].0;
                        assert(post.views_seq()[j].1.buffer_id_spec().id_spec()
                            == post.buffers_seq()[i].0);
                    } else {
                        assert(post.views_seq()[post.views_seq().len()
                            - 1].1.buffer_id_spec().id_spec() == nb);
                    }
                }
            }
        }
    }

    /// Allocate a fresh empty buffer with a fresh view of it and switch to
    /// it.
    fn do_new_buffer(&mut self) -> (out: CommandOutcome)
        requires
            old(self).wf(),
        ensures
            final(self).wf(),
            new_buffer_step(*old(self), *final(self), out.events@, out.io),
    {
        if self.next_buffer_id < usize::MAX && self.next_view_id < usize::MAX {
            self.create_buffer_with_view(Buffer::new());
            CommandOutcome { events: events1(EditorEvent::Redraw), io: None }
        } else {
            CommandOutcome { events: events0(), io: None }
        }
    }

    /// Switch to the next or previous view in the cycle, wrapping at the
    /// ends.
    fn do_cycle(&mut self, forward: bool) -> (out: CommandOutcome)
        requires
            old(self).wf(),
        ensures
            final(self).wf(),
            out.io is None,
            is_redraw_only(out.events@),
            final(self).buffers_seq() == old(self).buffers_seq(),
            final(self).views_seq() == old(self).views_seq(),
            same_allocators(*old(self), *final(self)),
            final(self).current_spec() == if forward {
                (old(self).current_spec() + 1) % (old(self).views_seq().len() as int)
            } else {
                (if old(self).current_spec() == 0 {
                    old(self).views_seq().len() - 1
                } else {
                    old(self).current_spec() - 1
                })
            },
    {
        let n = self.views.len();
        if forward {
            self.current = (self.current + 1) % n;
        } else {
            self.current = if self.current == 0 {
                n - 1
            } else {
                self.current - 1
            };
        }
        proof {
            lemma_wf_preserved(*old(self), *self);
        }
        CommandOutcome { events: events1(EditorEvent::Redraw), io: None }
    }

    /// Delete the active view, unless it is the only one; its buffer goes
    /// with it when no other view shows it, and the last view in the cycle
    /// becomes active.
    fn do_delete_view(&mut self) -> (out: CommandOutcome)
        requires
            old(self).wf(),
        ensures
            final(self).wf(),
            delete_view_step(*old(self), *final(self), out.events@, out.io),
    {
        if self.views.len() <= 1 {
            return CommandOutcome { events: events0(), io: None };
        }
        let vidx = self.current;
        let bid = self.views[vidx].1.buffer_id();
        let bi = self.cur_buf_index();
        let _removed_view = self.views.remove(vidx);
        let still = any_view_references(&self.views, bid.id());
        let ghost pre = *old(self);
        let ghost spec_still = exists|i: int|
            0 <= i < pre.views_seq().len() && i != pre.current_spec()
                && pre.views_seq()[i].1.buffer_id_spec().id_spec() == pre.cur_buf_id();
        proof {
            // the exec check over the remaining views matches the spec's
            // quantifier over the original views minus the active one
            if still {
                let i = choose|i: int|
                    0 <= i < self.views_seq().len()
                        && self.views_seq()[i].1.buffer_id_spec().id_spec() == bid.id_spec();
                if i < vidx {
                    assert(pre.views_seq()[i] == self.views_seq()[i]);
                } else {
                    assert(pre.views_seq()[i + 1] == self.views_seq()[i]);
                }
            }
            if spec_still {
                let i = choose|i: int|
                    0 <= i < pre.views_seq().len() && i != pre.current_spec()
                        && pre.views_seq()[i].1.buffer_id_spec().id_spec() == pre.cur_buf_id();
                if i < vidx {
                    assert(self.views_seq()[i] == pre.views_seq()[i]);
                } else {
                    assert(self.views_seq()[i - 1] == pre.views_seq()[i]);
                }
            }
            assert(still == spec_still);
        }
        if !still {
            let _removed_buf = self.buffers.remove(bi);
        }
        self.current = self.views.len() - 1;
        proof {
            let post = *self;
            assert forall|i: int, j: int|
                0 <= i < j < post.views_seq().len() implies post.views_seq()[i].0
                != post.views_seq()[j].0 by {
                let pi = if i < vidx {
                    i
                } else {
                    i + 1
                };
                let pj = if j < vidx {
                    j
                } else {
                    j + 1
                };
                assert(post.views_seq()[i] == pre.views_seq()[pi]);
                assert(post.views_seq()[j] == pre.views_seq()[pj]);
            }
            assert forall|i: int, j: int|
                0 <= i < j < post.buffers_seq().len() implies post.buffers_seq()[i].0
                != post.buffers_seq()[j].0 by {
                if !spec_still {
                    let pi = if i < bi {
                        i
                    } else {
                        i + 1
                    };
                    let pj = if j < bi {
                        j
                    } else {
                        j + 1
                    };
                    assert(post.buffers_seq()[i] == pre.buffers_seq()[pi]);
                    assert(post.buffers_seq()[j] == pre.buffers_seq()[pj]);
                }
            }
            assert forall|i: int| 0 <= i < post.views_seq().len() implies post.has_buffer(
                #[trigger] post.views_seq()[i].1.buffer_id_spec().id_spec(),
            ) by {
                let pi = if i < vidx {
                    i
                } else {
                    i + 1
                };
                assert(post.views_seq()[i] == pre.views_seq()[pi]);
                let id = pre.views_seq()[pi].1.buffer_id_spec().id_spec();
                assert(pre.has_buffer(id));
                let k = choose|k: int|
                    0 <= k < pre.buffers_seq().len() && pre.buffers_seq()[k].0 == id;
                if spec_still {
                    assert(post.buffers_seq()[k].0 == id);
                } else {
                    if id == pre.cur_buf_id() {
                        // a remaining view showing the deleted buffer would
                        // have witnessed `still`
                        assert(pi != pre.current_spec());
                        assert(spec_still);
                        assert(false);
                    } else {
                        lemma_find_key_unique(pre.buffers_seq(), pre.cur_buf_id(), bi as int);
                        assert(k != bi);
                        if k < bi {
                            assert(post.buffers_seq()[k].0 == id);
                        } else {
                            assert(post.buffers_seq()[k - 1] == pre.buffers_seq()[k]);
                        }
                    }
                }
            }
            assert forall|i: int| 0 <= i < post.buffers_seq().len() implies post.buffer_referenced(
                #[trigger] post.buffers_seq()[i].0,
            ) by {
                let pi = if spec_still || i < bi {
                    i
                } else {
                    i + 1
                };
                assert(post.buffers_seq()[i] == pre.buffers_seq()[pi]);
                let id = pre.buffers_seq()[pi].0;
                assert(pre.buffer_referenced(id));
                if id == pre.cur_buf_id() {
                    // present only when another view still shows it
                    if !spec_still {
                        lemma_find_key_unique(pre.buffers_seq(), pre.cur_buf_id(), bi as int);
                        assert(pre.buffers_seq()[pi].0 != id);
                        assert(false);
                    }
                    let j = choose|j: int|
                        0 <= j < pre.views_seq().len() && j != pre.current_spec()
                            && pre.views_seq()[j].1.buffer_id_spec().id_spec()
                            == pre.cur_buf_id();
                    if j < vidx {
                        assert(post.views_seq()[j] == pre.views_seq()[j]);
                    } else {
                        assert(post.views_seq()[j - 1] == pre.views_seq()[j]);
                    }
                } else {
                    let j = choose|j: int|
                        0 <= j < pre.views_seq().len()
                            && pre.views_seq()[j].1.buffer_id_spec().id_spec() == id;
                    assert(j != pre.current_spec());
                    if j < vidx {
                        assert(post.views_seq()[j] == pre.views_seq()[j]);
                    } else {
                        assert(post.views_seq()[j - 1] == pre.views_seq()[j]);
                    }
                }
            }
            assert forall|i: int|
                0 <= i < post.views_seq().len() implies #[trigger] post.views_seq()[i].0
                < post.next_view_id_spec() by {
                let pi = if i < vidx {
                    i
                } else {
                    i + 1
                };
                assert(post.views_seq()[i] == pre.views_seq()[pi]);
            }
            assert forall|i: int|
                0 <= i < post.buffers_seq().len() implies #[trigger] post.buffers_seq()[i].0
                < post.next_buffer_id_spec() by {
                let pi = if spec_still || i < bi {
                    i
                } else {
                    i + 1
                };
                assert(post.buffers_seq()[i] == pre.buffers_seq()[pi]);
            }
        }
        CommandOutcome { events: events1(EditorEvent::Redraw), io: None }
    }
}

impl Editor {
    /// Execute one command: mutate the editor, emit events for the
    /// front-end, and hand any file-system work back to the caller as an
    /// [`IoRequest`].
    pub fn execute_command(&mut self, cmd: EditorInput) -> (out: CommandOutcome)
        requires
            old(self).wf(),
        ensures
            final(self).wf(),
            step_spec(*old(self), cmd_model(cmd), *final(self), out.events@, out.io),
    {
        match cmd {
            EditorInput::InsertChar(ch) => self.do_insert_char(ch),
            EditorInput::InsertString(s) => self.do_insert_str(s.as_str()),
            EditorInput::InsertNewLine => self.do_insert_char('\n'),
            EditorInput::DeleteChar => self.do_delete_char(),
            EditorInput::DeleteRange(_) => CommandOutcome {
                events: events1(EditorEvent::Error("delete-range is not supported".to_owned())),
                io: None,
            },
            EditorInput::Backspace => self.do_backspace(),
            EditorInput::Undo => CommandOutcome {
                events: events1(EditorEvent::Error("undo is not supported".to_owned())),
                io: None,
            },
            EditorInput::Redo => CommandOutcome {
                events: events1(EditorEvent::Error("redo is not supported".to_owned())),
                io: None,
            },
            EditorInput::Save => {
                let bi = self.cur_buf_index();
                let path_opt = match self.buffers[bi].1.filepath() {
                    Some(p) => Some(p.clone()),
                    None => None,
                };
                match path_opt {
                    Some(path) => {
                        let content = self.buffers[bi].1.to_string();
                        CommandOutcome {
                            events: events0(),
                            io: Some(IoRequest::WriteFile { path, content, set_path: false }),
                        }
                    },
                    None => CommandOutcome {
                        events: events1(
                            EditorEvent::Error("Save failed: No buffer path set".to_owned()),
                        ),
                        io: None,
                    },
                }
            },
            EditorInput::SaveAs(path) => {
                let bi = self.cur_buf_index();
                let content = self.buffers[bi].1.to_string();
                CommandOutcome {
                    events: events0(),
                    io: Some(IoRequest::WriteFile { path, content, set_path: true }),
                }
            },
            EditorInput::OpenFile(path) => CommandOutcome {
                events: events0(),
                io: Some(IoRequest::ReadFile { path }),
            },
            EditorInput::MoveUp(n) => self.do_move_vert(n, true),
            EditorInput::MoveDown(n) => self.do_move_vert(n, false),
            EditorInput::MoveLeft(n) => self.do_move_horiz(n, true),
            EditorInput::MoveRight(n) => self.do_move_horiz(n, false),
            EditorInput::NewBuffer => self.do_new_buffer(),
            EditorInput::DeleteBuffer => self.do_delete_view(),
            EditorInput::NextBuffer => self.do_cycle(true),
            EditorInput::PreviousBuffer => self.do_cycle(false),
        }
    }
}

/// A snapshot of the visible part of the active buffer, prepared for
/// display.
#[derive(Debug)]
pub struct RenderData {
    /// The visible lines, each without its trailing line break.
    pub lines: Vec<String>,
    /// The cursor as a (line, column) position.
    pub cursor: Position,
    /// The top line of the viewport.
    pub viewport_start: usize,
    /// The height of the viewport in lines.
    pub viewport_height: usize,
}

/// Metadata about the active buffer for a status display.
#[derive(Debug)]
pub struct EditorInfo {
    pub cursor: Position,
    pub filepath: Option<String>,
    pub name: Option<String>,
    pub modified: bool,
    pub line_count: usize,
    pub char_count: usize,
}

impl Editor {
    /// Report the outcome of a write requested by a save command: on
    /// success the active buffer counts as saved; on failure the state is
    /// untouched and the error comes back as an event.
    pub fn finish_write(&mut self, path: String, set_path: bool, result: Result<
        (),
        String,
    >) -> (events: Vec<EditorEvent>)
        requires
            old(self).wf(),
        ensures
            final(self).wf(),
            finish_write_spec(
                *old(self),
                path@,
                set_path,
                result,
                *final(self),
                events@,
            ),
    {
        match result {
            Ok(_) => {
                let bi = self.cur_buf_index();
                let msg = if set_path {
                    let mut m = "Saved as ".to_owned();
                    m.append(path.as_str());
                    m
                } else {
                    "Saved".to_owned()
                };
                let mut pair = self.buffers.remove(bi);
                if set_path {
                    pair.1.set_filepath(path);
                }
                pair.1.mark_clean();
                self.buffers.insert(bi, pair);
                proof {
                    assert(self.buffers@ =~= old(self).buffers_seq().update(
                        bi as int,
                        (old(self).buffers_seq()[bi as int].0, self.buffers_seq()[bi as int].1),
                    ));
                    lemma_wf_preserved(*old(self), *self);
                }
                events1(EditorEvent::Info(msg))
            },
            Err(e) => {
                let msg = if set_path {
                    let mut m = "Save as ".to_owned();
                    m.append(path.as_str());
                    m.append(" failed: ");
                    m.append(e.as_str());
                    m
                } else {
                    let mut m = "Save failed: ".to_owned();
                    m.append(e.as_str());
                    m
                };
                events1(EditorEvent::Error(msg))
            },
        }
    }

    /// Report the outcome of a read requested by open-file: on success a
    /// fresh buffer shows the contents and becomes active; on failure the
    /// state is untouched and the error comes back as an event.
    pub fn finish_read(&mut self, path: String, result: Result<String, String>) -> (events: Vec<
        EditorEvent,
    >)
        requires
            old(self).wf(),
        ensures
            final(self).wf(),
            finish_read_spec(*old(self), path@, result, *final(self), events@),
    {
        match result {
            Ok(content) => {
                if self.next_buffer_id < usize::MAX && self.next_view_id < usize::MAX {
                    let mut msg = "Opened ".to_owned();
                    msg.append(path.as_str());
                    let name = base_name(path.as_str());
                    let buffer = Buffer::from_content(Some(path), Some(name), content.as_str());
                    self.create_buffer_with_view(buffer);
                    events2(EditorEvent::Info(msg), EditorEvent::Redraw)
                } else {
                    events0()
                }
            },
            Err(e) => {
                let mut msg = "Failed to open ".to_owned();
                msg.append(path.as_str());
                msg.append(": ");
                msg.append(e.as_str());
                events1(EditorEvent::Error(msg))
            },
        }
    }

    /// Create a second view of the buffer the active view shows, with its
    /// own cursor starting where the active view's cursor stands, and
    /// switch to it.
    pub fn share_view(&mut self)
        requires
            old(self).wf(),
        ensures
            final(self).wf(),
            share_spec(*old(self), *final(self)),
    {
        if self.next_view_id < usize::MAX {
            let nv = self.next_view_id;
            self.next_view_id = nv + 1;
            let cur = self.views[self.current].1;
            self.views.push((nv, View::with_cursor(cur.buffer_id(), cur.cursor())));
            self.current = self.views.len() - 1;
            proof {
                let pre = *old(self);
                let post = *self;
                assert forall|i: int, j: int|
                    0 <= i < j < post.views_seq().len() implies post.views_seq()[i].0
                    != post.views_seq()[j].0 by {
                    if j < pre.views_seq().len() {
                    } else {
                        assert(post.views_seq()[j].0 == nv);
                        assert(post.views_seq()[i].0 == pre.views_seq()[i].0);
                    }
                }
                assert forall|i: int| 0 <= i < post.views_seq().len() implies post.has_buffer(
                    #[trigger] post.views_seq()[i].1.buffer_id_spec().id_spec(),
                ) by {
                    let id = post.views_seq()[i].1.buffer_id_spec().id_spec();
                    if i < pre.views_seq().len() {
                        assert(pre.has_buffer(id));
                    } else {
                        assert(id == pre.cur_buf_id());
                        assert(pre.has_buffer(id));
                    }
                    let j = choose|j: int|
                        0 <= j < pre.buffers_seq().len() && pre.buffers_seq()[j].0 == id;
                    assert(post.buffers_seq()[j].0 == id);
                }
                assert forall|i: int|
                    0 <= i < post.buffers_seq().len() implies post.buffer_referenced(
                    #[trigger] post.buffers_seq()[i].0,
                ) by {
                    assert(pre.buffer_referenced(pre.buffers_seq()[i].0));
                    let j = choose|j: int|
                        0 <= j < pre.views_seq().len()
                            && pre.views_seq()[j].1.buffer_id_spec().id_spec()
                            == pre.buffers_seq()[i].0;
                    assert(post.views_seq()[j].1.buffer_id_spec().id_spec()
                        == post.buffers_seq()[i].0);
                }
            }
        }
    }

    /// Bring the active view's scroll offsets back over the cursor for a
    /// viewport of the given size.  The adjustment is a pure function of
    /// the state and the size: calling it twice in a row changes nothing
    /// the second time.
    pub fn adjust_scroll(&mut self, viewport_width: usize, viewport_height: usize)
        requires
            old(self).wf(),
        ensures
            final(self).wf(),
            scroll_applied(
                *old(self),
                *final(self),
                viewport_width as int,
                viewport_height as int,
            ),
    {
        let c0 = self.clamped_cursor_exec();
        let bi = self.cur_buf_index();
        let pos = self.buffers[bi].1.cursor_to_position(c0);
        let vi = self.current;
        let mut pair = self.views[vi];
        let scroll_line = pair.1.scroll_line();
        let scroll_column = pair.1.scroll_column();
        let new_line = if pos.line < scroll_line {
            pos.line
        } else if pos.line >= scroll_line && pos.line - scroll_line >= viewport_height {
            let k = if viewport_height == 0 {
                0
            } else {
                viewport_height - 1
            };
            if pos.line >= k {
                pos.line - k
            } else {
                0
            }
        } else {
            scroll_line
        };
        let new_column = if pos.column < scroll_column {
            pos.column
        } else if pos.column >= scroll_column && pos.column - scroll_column >= viewport_width {
            let k = if viewport_width == 0 {
                0
            } else {
                viewport_width - 1
            };
            if pos.column >= k {
                pos.column - k
            } else {
                0
            }
        } else {
            scroll_column
        };
        pair.1.set_scroll_line(new_line);
        pair.1.set_scroll_column(new_column);
        vec_set(&mut self.views, vi, pair);
        proof {
            lemma_wf_preserved(*old(self), *self);
        }
    }

    /// A render snapshot: the lines of the active buffer from
    /// `viewport_start` on, at most `viewport_height` of them, the cursor's
    /// position, and the view's top scroll line.
    pub fn get_render_data(&self, viewport_start: usize, viewport_height: usize) -> (r: RenderData)
        requires
            self.wf(),
            viewport_start + viewport_height <= usize::MAX,
        ensures
            ({
                let txt = self.cur_buf().text();
                &&& r.lines@.len() == (if viewport_start < line_count(txt) {
                    (if viewport_start + viewport_height <= line_count(txt) {
                        viewport_height as int
                    } else {
                        line_count(txt) - viewport_start
                    })
                } else {
                    0
                })
                &&& (forall|i: int|
                    0 <= i < r.lines@.len() ==> r.lines@[i]@ == line_display(
                        txt,
                        viewport_start + i,
                    ))
                &&& r.cursor.line == line_idx(txt, self.clamped_cursor())
                &&& r.cursor.column == col_of(txt, self.clamped_cursor())
                &&& r.viewport_start == self.cur_view().scroll_line_spec()
                &&& r.viewport_height == viewport_height
            }),
    {
        let c0 = self.clamped_cursor_exec();
        let bi = self.cur_buf_index();
        let lines = self.buffers[bi].1.get_lines(viewport_start, viewport_height);
        let cursor = self.buffers[bi].1.cursor_to_position(c0);
        RenderData {
            lines,
            cursor,
            viewport_start: self.views[self.current].1.scroll_line(),
            viewport_height,
        }
    }

    /// An info snapshot: cursor position, file path, name, modified flag
    /// and size of the active buffer.
    pub fn get_info(&self) -> (r: EditorInfo)
        requires
            self.wf(),
        ensures
            ({
                let txt = self.cur_buf().text();
                &&& r.cursor.line == line_idx(txt, self.clamped_cursor())
                &&& r.cursor.column == col_of(txt, self.clamped_cursor())
                &&& r.filepath.deep_view() == self.cur_buf().path_spec()
                &&& r.name.deep_view() == self.cur_buf().name_spec()
                &&& r.modified == self.cur_buf().modified_spec()
                &&& r.line_count == line_count(txt)
                &&& r.char_count == txt.len()
            }),
    {
        let c0 = self.clamped_cursor_exec();
        let bi = self.cur_buf_index();
        let buffer = &self.buffers[bi].1;
        let cursor = buffer.cursor_to_position(c0);
        let (line_count, char_count) = buffer.stats();
        let filepath = match buffer.filepath() {
            Some(p) => Some(p.clone()),
            None => None,
        };
        let name = match buffer.name() {
            Some(n) => Some(n.to_owned()),
            None => None,
        };
        EditorInfo {
            cursor,
            filepath,
            name,
            modified: buffer.is_modified(),
            line_count,
            char_count,
        }
    }
}

/// What a key press asks of the editor: an immediate signal, a command, or
/// nothing.
pub ghost enum KeyAction {
    Shutdown,
    Redraw,
    Cmd(CmdModel),
    Ignore,
}

/// The fixed key table: which action each key press names.  Plain character
/// keys insert themselves; arrows move by one; Backspace, Delete, Enter and
/// Tab do what they say (Tab inserts four spaces); a handful of control
/// chords manage files and buffers; `Ctrl-c` asks the front-end to shut
/// down; everything else is silently ignored.
pub open spec fn key_action_spec(key: EditorKey) -> KeyAction {
    let m = key.modifiers;
    match key.code {
        KeyCode::Char(c) => {
            if m.ctrl && !m.alt && !m.meta {
                if c == 'c' {
                    KeyAction::Shutdown
                } else if c == 'r' {
                    KeyAction::Redraw
                } else if c == 's' {
                    KeyAction::Cmd(CmdModel::Save)
                } else if c == 'w' {
                    KeyAction::Cmd(CmdModel::SaveAs("untitled.txt"@))
                } else if c == 'n' {
                    KeyAction::Cmd(CmdModel::NewBuffer)
                } else if c == 'd' {
                    KeyAction::Cmd(CmdModel::DeleteBuffer)
                } else if c == 'h' {
                    KeyAction::Cmd(CmdModel::PreviousBuffer)
                } else if c == 'l' {
                    KeyAction::Cmd(CmdModel::NextBuffer)
                } else {
                    KeyAction::Ignore
                }
            } else if !m.ctrl && !m.alt && !m.meta {
                KeyAction::Cmd(CmdModel::InsertChar(c))
            } else {
                KeyAction::Ignore
            }
        },
        KeyCode::Left => KeyAction::Cmd(CmdModel::MoveLeft(1)),
        KeyCode::Right => KeyAction::Cmd(CmdModel::MoveRight(1)),
        KeyCode::Up => KeyAction::Cmd(CmdModel::MoveUp(1)),
        KeyCode::Down => KeyAction::Cmd(CmdModel::MoveDown(1)),
        KeyCode::Backspace => KeyAction::Cmd(CmdModel::Backspace),
        KeyCode::Delete => KeyAction::Cmd(CmdModel::DeleteChar),
        KeyCode::Enter => KeyAction::Cmd(CmdModel::InsertNewLine),
        KeyCode::Tab => KeyAction::Cmd(CmdModel::InsertString("    "@)),
        _ => KeyAction::Ignore,
    }
}

impl Editor {
    /// Turn a key press into its action and perform it: `Ctrl-c` yields a
    /// shutdown event and `Ctrl-r` a redraw without touching any state; a
    /// key in the command table executes its command; any other key does
    /// nothing.
    pub fn process_key(&mut self, key: EditorKey) -> (out: CommandOutcome)
        requires
            old(self).wf(),
        ensures
            final(self).wf(),
            match key_action_spec(key) {
                KeyAction::Shutdown => *final(self) == *old(self) && out.events@.len() == 1
                    && out.events@[0] is Shutdown && out.io is None,
                KeyAction::Redraw => *final(self) == *old(self) && is_redraw_only(out.events@)
                    && out.io is None,
                KeyAction::Cmd(cm) => step_spec(*old(self), cm, *final(self), out.events@, out.io),
                KeyAction::Ignore => *final(self) == *old(self) && out.events@.len() == 0
                    && out.io is None,
            },
    {
        let m = key.modifiers;
        match key.code {
            KeyCode::Char(c) => {
                if m.ctrl && !m.alt && !m.meta {
                    if c == 'c' {
                        CommandOutcome { events: events1(EditorEvent::Shutdown), io: None }
                    } else if c == 'r' {
                        CommandOutcome { events: events1(EditorEvent::Redraw), io: None }
                    } else if c == 's' {
                        self.execute_command(EditorInput::Save)
                    } else if c == 'w' {
                        self.execute_command(EditorInput::SaveAs("untitled.txt".to_owned()))
                    } else if c == 'n' {
                        self.execute_command(EditorInput::NewBuffer)
                    } else if c == 'd' {
                        self.execute_command(EditorInput::DeleteBuffer)
                    } else if c == 'h' {
                        self.execute_command(EditorInput::PreviousBuffer)
                    } else if c == 'l' {
                        self.execute_command(EditorInput::NextBuffer)
                    } else {
                        CommandOutcome { events: events0(), io: None }
                    }
                } else if !m.ctrl && !m.alt && !m.meta {
                    self.execute_command(EditorInput::InsertChar(c))
                } else {
                    CommandOutcome { events: events0(), io: None }
                }
            },
            KeyCode::Left => self.execute_command(EditorInput::MoveLeft(1)),
            KeyCode::Right => self.execute_command(EditorInput::MoveRight(1)),
            KeyCode::Up => self.execute_command(EditorInput::MoveUp(1)),
            KeyCode::Down => self.execute_command(EditorInput::MoveDown(1)),
            KeyCode::Backspace => self.execute_command(EditorInput::Backspace),
            KeyCode::Delete => self.execute_command(EditorInput::DeleteChar),
            KeyCode::Enter => self.execute_command(EditorInput::InsertNewLine),
            KeyCode::Tab => self.execute_command(EditorInput::InsertString("    ".to_owned())),
            _ => CommandOutcome { events: events0(), io: None },
        }
    }
}

/// Adjusting a scroll offset is idempotent: a second adjustment with the
/// same cursor position and viewport size keeps the offset where the first
/// put it.
pub proof fn lemma_scroll_adjust_idempotent(scroll: int, pos: int, size: int)
    requires
        0 <= scroll,
        0 <= pos,
        0 <= size,
    ensures
        scroll_adjust(scroll_adjust(scroll, pos, size), pos, size) == scroll_adjust(
            scroll,
            pos,
            size,
        ),
{
}

/// Deleting the only view of an editor is refused: the views and the
/// buffers stay exactly as they were, and no event comes back.
pub proof fn lemma_delete_only_view(
    pre: Editor,
    post: Editor,
    events: Seq<EditorEvent>,
    io: Option<IoRequest>,
)
    requires
        pre.wf(),
        pre.views_seq().len() == 1,
        step_spec(pre, CmdModel::DeleteBuffer, post, events, io),
    ensures
        post == pre,
        post.views_seq() == pre.views_seq(),
        post.buffers_seq() == pre.buffers_seq(),
        events.len() == 0,
        io is None,
{
}

/// Editing through the active view of a buffer that another view also
/// shows: the other view is untouched — same buffer, same cursor, same
/// scroll — and the buffer it shows now holds the splice.  This covers any
/// pair of views sharing a buffer, however the share was made; it asks only
/// that the text is not already at the machine's size limit, where an
/// insertion is refused.
pub proof fn lemma_edit_visible_through_other_view(
    pre: Editor,
    post: Editor,
    other: int,
    ch: char,
    events: Seq<EditorEvent>,
    io: Option<IoRequest>,
)
    requires
        pre.wf(),
        0 <= other < pre.views_seq().len(),
        other != pre.current_spec(),
        pre.views_seq()[other].1.buffer_id_spec() == pre.cur_view().buffer_id_spec(),
        pre.cur_buf().text().len() < usize::MAX,
        step_spec(pre, CmdModel::InsertChar(ch), post, events, io),
    ensures
        post.views_seq()[other] == pre.views_seq()[other],
        post.views_seq()[other].1.buffer_id_spec() == post.cur_view().buffer_id_spec(),
        ({
            let id = post.views_seq()[other].1.buffer_id_spec().id_spec();
            post.buffers_seq()[find_key(post.buffers_seq(), id)].1.text() == insert_text(
                pre.cur_buf().text(),
                pre.clamped_cursor(),
                seq![ch],
            )
        }),
        is_redraw_only(events),
{
    let id = pre.cur_buf_id();
    assert(pre.views_seq()[pre.current_spec()].1.buffer_id_spec().id_spec() == id);
    assert(pre.has_buffer(id));
    lemma_find_key(pre.buffers_seq(), id);
    let bidx = pre.cur_buf_idx();
    lemma_find_key_update(pre.buffers_seq(), post.buffers_seq(), bidx, id);
    assert(post.buffers_seq()[find_key(post.buffers_seq(), id)].1 == post.buffers_seq()[bidx].1);
}

/// Two views made by sharing show one buffer: after an edit through the
/// freshly shared view, the original view still points at the same buffer,
/// whose text now holds the edit, while the original view's own cursor is
/// untouched.
pub proof fn lemma_shared_views_see_edits(
    pre: Editor,
    mid: Editor,
    post: Editor,
    ch: char,
    events: Seq<EditorEvent>,
    io: Option<IoRequest>,
)
    requires
        pre.wf(),
        pre.next_view_id_spec() < usize::MAX,
        pre.cur_buf().text().len() < usize::MAX,
        share_spec(pre, mid),
        step_spec(mid, CmdModel::InsertChar(ch), post, events, io),
    ensures
        ({
            let orig = pre.current_spec();
            &&& post.views_seq()[orig].1.buffer_id_spec() == post.cur_view().buffer_id_spec()
            &&& post.views_seq()[orig].1.cursor_spec() == pre.cur_view().cursor_spec()
            &&& post.cur_buf().text() == insert_text(
                pre.cur_buf().text(),
                mid.clamped_cursor(),
                seq![ch],
            )
        }),
{
    let orig = pre.current_spec();
    assert(mid.views_seq()[orig] == pre.views_seq()[orig]);
    assert(mid.cur_view().buffer_id_spec() == pre.cur_view().buffer_id_spec());
    assert(mid.cur_buf_id() == pre.cur_buf_id());
    assert(pre.views_seq()[pre.current_spec()].1.buffer_id_spec().id_spec() == pre.cur_buf_id());
    assert(pre.has_buffer(pre.cur_buf_id()));
    lemma_find_key_same(pre.buffers_seq(), mid.buffers_seq(), mid.cur_buf_id());
    lemma_find_key(mid.buffers_seq(), mid.cur_buf_id());
    assert(mid.cur_buf_idx() >= 0);
    assert(mid.cur_buf() == pre.cur_buf());
    assert(mid.cur_buf().text().len() + seq![ch].len() <= usize::MAX);
    let bidx = mid.cur_buf_idx();
    assert(post.views_seq()[orig] == mid.views_seq()[orig]);
    assert(post.cur_view().buffer_id_spec() == mid.cur_view().buffer_id_spec());
    assert(post.cur_buf_id() == mid.cur_buf_id());
    lemma_find_key_update(mid.buffers_seq(), post.buffers_seq(), bidx, post.cur_buf_id());
    assert(post.cur_buf_idx() == bidx);
}

/// `find_key` agrees on equal lists.
proof fn lemma_find_key_same<T>(a: Seq<(usize, T)>, b: Seq<(usize, T)>, id: usize)
    requires
        a == b,
    ensures
        find_key(a, id) == find_key(b, id),
{
}

/// Updating an entry without changing its key leaves every lookup where it
/// was.
proof fn lemma_find_key_update<T>(a: Seq<(usize, T)>, b: Seq<(usize, T)>, i: int, id: usize)
    requires
        0 <= i < a.len(),
        b == a.update(i, (a[i].0, b[i].1)),
    ensures
        find_key(b, id) == find_key(a, id),
    decreases a.len(),
{
    if a.len() > 0 {
        if i == 0 {
            if a[0].0 != id {
                assert(b.skip(1) =~= a.skip(1));
            }
        } else {
            assert(b[0] == a[0]);
            if a[0].0 != id {
                assert(b.skip(1) =~= a.skip(1).update(i - 1, (a.skip(1)[i - 1].0, b.skip(
                    1,
                )[i - 1].1)));
                lemma_find_key_update(a.skip(1), b.skip(1), i - 1, id);
            }
        }
    }
}

/// Whether any view in the list shows the buffer with identifier `id`.
fn any_view_references(v: &Vec<(usize, View)>, id: usize) -> (r: bool)
    ensures
        r == exists|i: int|
            0 <= i < v@.len() && v@[i].1.buffer_id_spec().id_spec() == id,
{
    let n = v.len();
    let mut i: usize = 0;
    while i < n
        invariant
            0 <= i <= n,
            n == v@.len(),
            forall|j: int| 0 <= j < i ==> v@[j].1.buffer_id_spec().id_spec() != id,
        decreases n - i,
    {
        if v[i].1.buffer_id().id() == id {
            return true;
        }
        i = i + 1;
    }
    false
}

/// The name a path displays as: everything after its last `/`.
pub open spec fn base_name_of(p: Seq<char>) -> Seq<char> {
    p.skip(last_slash(p) + 1)
}

/// The display name of a file at `p`: the piece after the last `/`, or a
/// placeholder when that is empty.
pub open spec fn display_name(p: Seq<char>) -> Seq<char> {
    if base_name_of(p).len() == 0 {
        "*new*"@
    } else {
        base_name_of(p)
    }
}

/// Index of the last `/` in `p`, or -1 if there is none.
pub open spec fn last_slash(p: Seq<char>) -> int
    decreases p.len(),
{
    if p.len() == 0 {
        -1
    } else if p.last() == '/' {
        p.len() - 1
    } else {
        last_slash(p.drop_last())
    }
}

proof fn lemma_last_slash(p: Seq<char>)
    ensures
        -1 <= last_slash(p) < p.len(),
        last_slash(p) >= 0 ==> p[last_slash(p)] == '/',
        forall|j: int| last_slash(p) < j < p.len() ==> p[j] != '/',
    decreases p.len(),
{
    if p.len() > 0 && p.last() != '/' {
        lemma_last_slash(p.drop_last());
        assert(forall|j: int| 0 <= j < p.len() - 1 ==> p.drop_last()[j] == p[j]);
    }
}

proof fn lemma_last_slash_at(p: Seq<char>, d: int)
    requires
        -1 <= d < p.len(),
        d >= 0 ==> p[d] == '/',
        forall|j: int| d < j < p.len() ==> p[j] != '/',
    ensures
        last_slash(p) == d,
    decreases p.len(),
{
    if p.len() == 0 {
    } else if d == p.len() - 1 {
    } else {
        assert(p.last() != '/');
        assert(forall|j: int| 0 <= j < p.len() - 1 ==> p.drop_last()[j] == p[j]);
        lemma_last_slash_at(p.drop_last(), d);
    }
}

/// The display name of a file at `path`: the piece after the last `/`, or a
/// placeholder when that is empty.
fn base_name(path: &str) -> (r: String)
    ensures
        r@ == display_name(path@),
{
    let n = path.unicode_len();
    let mut i = n;
    while i > 0
        invariant
            0 <= i <= n,
            n == path@.len(),
            forall|j: int| i <= j < n ==> path@[j] != '/',
        decreases i,
    {
        if path.get_char(i - 1) == '/' {
            proof {
                lemma_last_slash_at(path@, i - 1);
            }
            if i == n {
                return "*new*".to_owned();
            }
            let r = path.substring_char(i, n);
            proof {
                assert(r@ =~= base_name_of(path@));
            }
            return r.to_owned();
        }
        i = i - 1;
    }
    proof {
        lemma_last_slash_at(path@, -1);
    }
    if n == 0 {
        return "*new*".to_owned();
    }
    let r = path.substring_char(0, n);
    proof {
        assert(r@ =~= base_name_of(path@));
    }
    r.to_owned()
}

} // verus!
