//! Core of a multi-line, Unicode-aware command-line text editor: a buffer of
//! lines plus a cursor, driven by discrete edit events. Cursor columns are
//! byte offsets into the UTF-8 encoding of a line and are kept on character
//! boundaries at all times.

pub mod lineeditor;
pub mod semantics;
pub mod snapshot;
pub mod text;
pub mod width;
