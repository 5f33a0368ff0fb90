//! What the server answers to the initialization handshake.

use vstd::prelude::*;

use crate::semantic::SemanticTokensOptions;
use crate::text_document::TextDocumentSyncOptions;

verus! {

/// The initialization result: the server's capabilities.
#[derive(Debug)]
pub struct InitializeResult {
    pub capabilities: ServerCapabilities,
}

/// The capabilities this server can advertise.
#[derive(Debug)]
pub struct ServerCapabilities {
    pub text_document_sync: Option<TextDocumentSyncOptions>,
    pub semantic_tokens_provider: Option<SemanticTokensOptions>,
}

impl Default for ServerCapabilities {
    /// A capability block advertising nothing.
    fn default() -> (r: Self)
        ensures
            r.text_document_sync is None,
            r.semantic_tokens_provider is None,
    {
        ServerCapabilities { text_document_sync: None, semantic_tokens_provider: None }
    }
}

} // verus!
