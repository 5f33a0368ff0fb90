//! Text-document synchronization payloads: how the server asks to be told
//! of document changes, and the shape of one incremental change.

use vstd::prelude::*;

use crate::range::Range;

verus! {

/// How the server wants document content delivered.
#[derive(Debug)]
pub struct TextDocumentSyncOptions {
    pub open_close: Option<bool>,
    pub change: Option<TextDocumentSyncKind>,
}

/// The synchronization granularity. The wire carries its numeric code;
/// `NoSync` is the protocol's kind number zero.
#[derive(Debug, Clone, Copy, PartialEq, Eq, Structural)]
pub enum TextDocumentSyncKind {
    NoSync,
    Full,
    Incremental,
}

impl TextDocumentSyncKind {
    /// The numeric code of this synchronization kind.
    pub open spec fn code_spec(self) -> u8 {
        match self {
            TextDocumentSyncKind::NoSync => 0,
            TextDocumentSyncKind::Full => 1,
            TextDocumentSyncKind::Incremental => 2,
        }
    }

    /// The numeric code sent on the wire for this kind.
    pub fn code(&self) -> (c: u8)
        ensures
            c == self.code_spec(),
    {
        match self {
            TextDocumentSyncKind::NoSync => 0,
            TextDocumentSyncKind::Full => 1,
            TextDocumentSyncKind::Incremental => 2,
        }
    }
}

/// One incremental change: the range to replace and the replacement
/// text's bytes.
#[derive(Debug)]
pub struct TextDocumentContentChangeEvent {
    pub range: Range,
    pub text: Vec<u8>,
}

} // verus!
