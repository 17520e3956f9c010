//! Core engine of a client/server text editor: rope-backed buffers addressed
//! by character offsets, cursor/viewport views, a multi-buffer editor that
//! turns key input into commands and render snapshots, and the framed binary
//! protocol a server uses to apply edits from concurrent clients.

pub mod buffer;
pub mod editor;
pub mod input;
pub mod position;
pub mod protocol;
pub mod rope;
pub mod textspec;
pub mod view;

pub use buffer::{Buffer, BufferError};
pub use editor::{
    CommandOutcome, Editor, EditorEvent, EditorInfo, EditorInput, IoRequest, RenderData,
};
pub use input::{EditorKey, KeyCode, KeyModifiers, KeySequence, ParseKeyError};
pub use position::{Position, Range};
pub use protocol::{
    DecodeError, EncodeError, FrameRead, FrameStep, Message, ProtocolError,
};
pub use view::{BufferId, View, ViewId};
