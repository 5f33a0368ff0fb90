use bni_ls::bni::NodeSpan;
use bni_ls::document::ChangeError;
use bni_ls::document::Document;
use bni_ls::line_list::TextError;
use bni_ls::position::Position;
use bni_ls::range::Range;
use bni_ls::text_document::TextDocumentContentChangeEvent;
use bni_ls::uri_map::UriMap;

fn change(
    start: (usize, usize),
    end: (usize, usize),
    text: &[u8],
) -> TextDocumentContentChangeEvent {
    TextDocumentContentChangeEvent {
        range: Range {
            start: Position { line: start.0, character: start.1 },
            end: Position { line: end.0, character: end.1 },
        },
        text: text.to_vec(),
    }
}

const URI: &[u8] = b"file:///tmp/sample.bni";

#[test]
fn open_stores_text_and_language() {
    let mut map = UriMap::new();
    map.open(URI, b"bni", b"[section]\nkey=value").unwrap();
    assert_eq!(map.language(URI), Some(b"bni".to_vec()));
    assert_eq!(map.text(URI), b"[section]\nkey=value".to_vec());
}

#[test]
fn open_rejects_invalid_utf8() {
    let mut map = UriMap::new();
    let r = map.open(URI, b"bni", &[0xc3, 0x28]);
    assert_eq!(r, Err(TextError::InvalidUtf8));
    assert_eq!(map.text(URI), Vec::<u8>::new());
}

#[test]
fn unseen_uri_is_lazily_created_empty() {
    let mut map = UriMap::new();
    assert!(!map.contains_uri(URI));
    assert_eq!(map.semantic_data(URI), Vec::<usize>::new());
    assert!(map.contains_uri(URI));
    assert_eq!(map.language(URI), None);
}

#[test]
fn change_before_open_is_rejected() {
    let mut map = UriMap::new();
    let r = map.change(URI, &vec![change((0, 0), (0, 1), b"x")]);
    assert_eq!(r, Err(ChangeError::InvalidRange));
}

#[test]
fn change_replaces_one_line_with_two() {
    // a change notification replacing the whole single line "old" with the
    // two lines "new1\nnew2"
    let mut map = UriMap::new();
    map.open(URI, b"bni", b"old").unwrap();
    let r = map.change(URI, &vec![change((0, 0), (0, 3), b"new1\nnew2")]);
    assert!(r.is_ok());
    assert_eq!(map.text(URI), b"new1\nnew2".to_vec());
}

#[test]
fn change_returns_the_parser_edit_descriptor() {
    let mut map = UriMap::new();
    map.open(URI, b"bni", b"abc\ndef").unwrap();
    let descs = map.change(URI, &vec![change((1, 1), (1, 2), b"xy")]).unwrap();
    assert_eq!(descs.len(), 1);
    let d = descs[0];
    assert_eq!(d.start_byte, 5);
    assert_eq!(d.old_end_byte, 6);
    assert_eq!(d.new_end_byte, 7);
    assert_eq!(d.start_position, Position { line: 1, character: 1 });
    assert_eq!(d.old_end_position, Position { line: 1, character: 2 });
    assert_eq!(d.new_end_position, Position { line: 1, character: 3 });
    assert_eq!(map.text(URI), b"abc\ndxyf".to_vec());
}

#[test]
fn edits_in_one_batch_apply_in_order() {
    let mut map = UriMap::new();
    map.open(URI, b"bni", b"abcd").unwrap();
    let descs = map
        .change(
            URI,
            &vec![change((0, 0), (0, 1), b"X"), change((0, 1), (0, 2), b"Y")],
        )
        .unwrap();
    assert_eq!(descs.len(), 2);
    assert_eq!(map.text(URI), b"XYcd".to_vec());
}

#[test]
fn out_of_range_edit_is_rejected_not_clamped() {
    let mut map = UriMap::new();
    map.open(URI, b"bni", b"ab").unwrap();
    let r = map.change(URI, &vec![change((0, 0), (0, 5), b"x")]);
    assert_eq!(r, Err(ChangeError::InvalidRange));
    assert_eq!(map.text(URI), b"ab".to_vec());
}

#[test]
fn backwards_range_is_rejected() {
    let mut map = UriMap::new();
    map.open(URI, b"bni", b"abc").unwrap();
    let r = map.change(URI, &vec![change((0, 2), (0, 1), b"x")]);
    assert_eq!(r, Err(ChangeError::InvalidRange));
}

#[test]
fn empty_edit_changes_nothing() {
    let mut map = UriMap::new();
    map.open(URI, b"bni", b"[section]").unwrap();
    map.collect(URI, &vec![section_node()]);
    let tokens_before = map.semantic_data(URI);
    let r = map.change(URI, &vec![change((0, 3), (0, 3), b"")]);
    assert!(r.is_ok());
    assert_eq!(map.text(URI), b"[section]".to_vec());
    assert_eq!(map.semantic_data(URI), tokens_before);
}

fn section_node() -> NodeSpan {
    NodeSpan { kind: "section".to_string(), start_row: 0, start_col: 0, end_row: 0, end_col: 8 }
}

#[test]
fn collect_populates_tokens_for_the_document() {
    let mut map = UriMap::new();
    map.open(URI, b"bni", b"[section]").unwrap();
    map.collect(URI, &vec![section_node()]);
    assert_eq!(map.semantic_data(URI), vec![0, 0, 9, 19, 0]);
}

#[test]
fn open_clears_previous_tokens() {
    let mut map = UriMap::new();
    map.open(URI, b"bni", b"[section]").unwrap();
    map.collect(URI, &vec![section_node()]);
    map.open(URI, b"bni", b"fresh").unwrap();
    assert_eq!(map.semantic_data(URI), Vec::<usize>::new());
}

#[test]
fn close_discards_the_document() {
    let mut map = UriMap::new();
    map.open(URI, b"bni", b"text").unwrap();
    assert!(map.contains_uri(URI));
    map.close(URI);
    assert!(!map.contains_uri(URI));
    assert_eq!(map.text(URI), Vec::<u8>::new());
}

#[test]
fn documents_are_independent() {
    let mut map = UriMap::new();
    map.open(b"file:///a", b"bni", b"aaa").unwrap();
    map.open(b"file:///b", b"bni", b"bbb").unwrap();
    map.change(b"file:///a", &vec![change((0, 0), (0, 3), b"zzz")]).unwrap();
    assert_eq!(map.text(b"file:///a"), b"zzz".to_vec());
    assert_eq!(map.text(b"file:///b"), b"bbb".to_vec());
}

#[test]
fn document_open_and_edit_directly() {
    let mut doc = Document::new();
    doc.open(b"bni", b"one\ntwo").unwrap();
    let descs = doc.apply_edits(&vec![change((0, 3), (1, 0), b" ")]).unwrap();
    assert_eq!(descs[0].start_byte, 3);
    assert_eq!(descs[0].old_end_byte, 4);
    assert_eq!(descs[0].new_end_byte, 4);
    assert_eq!(doc.line_list.to_text(), b"one two".to_vec());
}
