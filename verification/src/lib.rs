//! Timestamped notes beside a recording: the editor's state, the memo format,
//! session metadata, note publishing and sample bookkeeping, with the behaviour
//! of each stated as a contract and proved.

pub mod app;
pub mod clock;
pub mod memo;
pub mod memo_laws;
pub mod notes;
pub mod page;
pub mod page_laws;
pub mod parser;
pub mod publish;
pub mod publish_laws;
pub mod recorder;
pub mod session;
pub mod text;
pub mod text_helpers;
pub mod text_laws;
pub mod tui;
pub mod tui_laws;
