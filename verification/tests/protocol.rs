use bni_ls::initialize::ServerCapabilities;
use bni_ls::semantic::SemanticTokensLegend;
use bni_ls::semantic::SemanticTokensOptions;
use bni_ls::semantic::ToCamelVec;
use bni_ls::semantic::TokenModifier;
use bni_ls::semantic::TokenType;
use bni_ls::text_document::TextDocumentSyncKind;

#[test]
fn sync_kind_codes_follow_the_protocol() {
    assert_eq!(TextDocumentSyncKind::NoSync.code(), 0);
    assert_eq!(TextDocumentSyncKind::Full.code(), 1);
    assert_eq!(TextDocumentSyncKind::Incremental.code(), 2);
}

#[test]
fn default_capabilities_advertise_nothing() {
    let caps = ServerCapabilities::default();
    assert!(caps.text_document_sync.is_none());
    assert!(caps.semantic_tokens_provider.is_none());
}

#[test]
fn legend_lists_every_code() {
    let options = SemanticTokensOptions {
        legend: SemanticTokensLegend {
            token_types: <TokenType as ToCamelVec>::get_vec(),
            token_modifiers: <TokenModifier as ToCamelVec>::get_vec(),
        },
        full: true,
    };
    // every category and modifier code indexes into its list
    assert_eq!(options.legend.token_types.len(), 23);
    assert_eq!(options.legend.token_modifiers.len(), 10);
    assert_eq!(options.legend.token_types[TokenType::Keyword.code()], "keyword");
    assert_eq!(
        options.legend.token_modifiers[TokenModifier::Async.code()],
        "async"
    );
    assert!(options.full);
}
