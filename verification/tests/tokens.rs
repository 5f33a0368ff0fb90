use bni_ls::bni::collect_tokens;
use bni_ls::bni::token_of_kind;
use bni_ls::bni::NodeSpan;
use bni_ls::semantic::ToCamelVec;
use bni_ls::semantic::TokenModifier;
use bni_ls::semantic::TokenType;
use bni_ls::semantic_hub::SemanticTokenHub;

fn node(kind: &str, start_row: usize, start_col: usize, end_row: usize, end_col: usize) -> NodeSpan {
    NodeSpan { kind: kind.to_string(), start_row, start_col, end_row, end_col }
}

/// Reconstructs (line, column) pairs from the flat delta array.
fn decode(data: &[usize]) -> Vec<(usize, usize)> {
    assert_eq!(data.len() % 5, 0);
    let mut out = Vec::new();
    let mut line = 0usize;
    let mut col = 0usize;
    for group in data.chunks(5) {
        line += group[0];
        col = if group[0] == 0 { col + group[1] } else { group[1] };
        out.push((line, col));
    }
    out
}

#[test]
fn category_codes_match_the_legend_order() {
    assert_eq!(TokenType::Namespace.code(), 0);
    assert_eq!(TokenType::String.code(), 18);
    assert_eq!(TokenType::Keyword.code(), 19);
    assert_eq!(TokenType::Operator.code(), 22);
    assert_eq!(TokenModifier::Declaration.code(), 0);
    assert_eq!(TokenModifier::DefaultLibrary.code(), 9);
}

#[test]
fn token_type_legend_names() {
    let names = <TokenType as ToCamelVec>::get_vec();
    assert_eq!(names.len(), 23);
    assert_eq!(names[0], "namespace");
    assert_eq!(names[5], "typeParameter");
    assert_eq!(names[10], "enumMember");
    assert_eq!(names[18], "string");
    assert_eq!(names[19], "keyword");
    assert_eq!(names[22], "operator");
}

#[test]
fn token_modifier_legend_names() {
    let names = <TokenModifier as ToCamelVec>::get_vec();
    assert_eq!(names.len(), 10);
    assert_eq!(names[0], "declaration");
    assert_eq!(names[9], "defaultLibrary");
}

#[test]
fn category_table_maps_two_kinds() {
    assert!(matches!(token_of_kind("section"), Some(TokenType::Keyword)));
    assert!(matches!(token_of_kind("item"), Some(TokenType::String)));
    assert!(token_of_kind("comment").is_none());
    assert!(token_of_kind("").is_none());
}

#[test]
fn section_and_item_scenario() {
    // buffer ["[section]", "key=value"]: a section spanning row 0 columns
    // 0-9 and an item spanning row 1 columns 0-9
    let mut hub = SemanticTokenHub::new();
    let children = vec![node("section", 0, 0, 0, 9), node("item", 1, 0, 1, 9)];
    collect_tokens(&mut hub, &children);
    assert_eq!(hub.data(), vec![0, 0, 10, 19, 0, 1, 0, 10, 18, 0]);
}

#[test]
fn multi_line_children_are_skipped() {
    let mut hub = SemanticTokenHub::new();
    let children = vec![node("section", 0, 0, 1, 3), node("item", 2, 1, 2, 4)];
    collect_tokens(&mut hub, &children);
    assert_eq!(hub.data(), vec![2, 1, 4, 18, 0]);
}

#[test]
fn unmapped_kinds_produce_no_token() {
    let mut hub = SemanticTokenHub::new();
    let children = vec![node("mystery", 0, 0, 0, 3)];
    collect_tokens(&mut hub, &children);
    assert_eq!(hub.data(), Vec::<usize>::new());
}

#[test]
fn collect_clears_previous_tokens() {
    let mut hub = SemanticTokenHub::new();
    collect_tokens(&mut hub, &vec![node("section", 0, 0, 0, 3)]);
    collect_tokens(&mut hub, &vec![node("item", 4, 2, 4, 5)]);
    assert_eq!(hub.data(), vec![4, 2, 4, 18, 0]);
}

#[test]
fn encoding_is_deterministic() {
    let mut hub = SemanticTokenHub::new();
    hub.add(3, 7, 2, TokenType::Keyword, None)
        .add(1, 0, 4, TokenType::String, Some(TokenModifier::Readonly))
        .add(3, 1, 5, TokenType::Comment, None);
    let first = hub.data();
    let second = hub.data();
    assert_eq!(first, second);
}

#[test]
fn encoded_tokens_come_out_in_order() {
    let mut hub = SemanticTokenHub::new();
    // inserted out of order, on lines 5, 0 and 2, with a token-free line
    // in between
    hub.add(5, 4, 1, TokenType::Keyword, None);
    hub.add(0, 9, 2, TokenType::String, None);
    hub.add(2, 3, 3, TokenType::Comment, None);
    hub.add(2, 1, 3, TokenType::Number, None);
    let data = hub.data();
    let positions = decode(&data);
    assert_eq!(positions, vec![(0, 9), (2, 1), (2, 3), (5, 4)]);
    for pair in positions.windows(2) {
        assert!(pair[0] <= pair[1]);
    }
}

#[test]
fn tokens_on_one_line_are_sorted_by_column() {
    let mut hub = SemanticTokenHub::new();
    hub.add(1, 8, 1, TokenType::Keyword, None)
        .add(1, 2, 2, TokenType::String, None)
        .add(1, 5, 3, TokenType::Comment, None);
    assert_eq!(
        hub.data(),
        vec![1, 2, 2, 18, 0, 0, 3, 3, 17, 0, 0, 3, 1, 19, 0]
    );
}

#[test]
fn equal_columns_keep_insertion_order() {
    let mut hub = SemanticTokenHub::new();
    hub.add(0, 4, 1, TokenType::Keyword, None)
        .add(0, 4, 2, TokenType::String, None);
    assert_eq!(hub.data(), vec![0, 4, 1, 19, 0, 0, 0, 2, 18, 0]);
}

#[test]
fn modifier_codes_are_emitted() {
    let mut hub = SemanticTokenHub::new();
    hub.add(0, 0, 1, TokenType::Variable, Some(TokenModifier::Static));
    assert_eq!(hub.data(), vec![0, 0, 1, 8, 3]);
}

#[test]
fn clear_empties_the_collection() {
    let mut hub = SemanticTokenHub::new();
    hub.add(0, 0, 1, TokenType::Keyword, None);
    hub.clear();
    assert_eq!(hub.data(), Vec::<usize>::new());
}
