use bni_ls::line_list::LineList;
use bni_ls::line_list::TextError;
use bni_ls::position::Position;

fn buffer(text: &[u8]) -> LineList {
    let mut ll = LineList::new();
    ll.set_text(text).unwrap();
    ll
}

fn pos(line: usize, character: usize) -> Position {
    Position { line, character }
}

#[test]
fn set_text_splits_on_line_feeds() {
    let ll = buffer(b"[section]\nkey=value");
    assert_eq!(ll.lines, vec![b"[section]".to_vec(), b"key=value".to_vec()]);
}

#[test]
fn set_text_is_lossy_for_crlf_and_final_newline() {
    let ll = buffer(b"a\r\nb\n");
    assert_eq!(ll.lines, vec![b"a".to_vec(), b"b".to_vec()]);
    assert_eq!(ll.to_text(), b"a\nb".to_vec());
}

#[test]
fn set_text_keeps_interior_empty_lines() {
    let ll = buffer(b"a\n\nb");
    assert_eq!(ll.lines, vec![b"a".to_vec(), b"".to_vec(), b"b".to_vec()]);
    assert_eq!(ll.to_text(), b"a\n\nb".to_vec());
}

#[test]
fn set_text_rejects_invalid_utf8_and_keeps_buffer() {
    let mut ll = buffer(b"keep");
    let r = ll.set_text(&[0x66, 0xff, 0xfe]);
    assert_eq!(r, Err(TextError::InvalidUtf8));
    assert_eq!(ll.lines, vec![b"keep".to_vec()]);
}

#[test]
fn to_text_of_empty_buffer_is_empty() {
    let ll = LineList::new();
    assert_eq!(ll.to_text(), Vec::<u8>::new());
}

#[test]
fn position_to_offset_counts_bytes_and_separators() {
    let ll = buffer(b"ab\ncde\nf");
    assert_eq!(ll.position_to_offset(&pos(0, 0)), Some(0));
    assert_eq!(ll.position_to_offset(&pos(0, 2)), Some(2));
    assert_eq!(ll.position_to_offset(&pos(1, 0)), Some(3));
    assert_eq!(ll.position_to_offset(&pos(1, 3)), Some(6));
    assert_eq!(ll.position_to_offset(&pos(2, 1)), Some(8));
}

#[test]
fn position_to_offset_rejects_line_past_end() {
    let ll = buffer(b"ab");
    assert_eq!(ll.position_to_offset(&pos(1, 0)), None);
}

#[test]
fn offset_round_trips_through_every_valid_position() {
    let ll = buffer(b"ab\n\ncde");
    for line in 0..ll.lines.len() {
        for character in 0..=ll.lines[line].len() {
            let p = pos(line, character);
            let off = ll.position_to_offset(&p).unwrap();
            let back = ll.point_from_offset(off);
            assert_eq!(back, p);
        }
    }
}

#[test]
fn point_from_offset_clamps_past_end_of_text() {
    let ll = buffer(b"ab\ncd");
    assert_eq!(ll.point_from_offset(100), pos(1, 2));
    let empty = LineList::new();
    assert_eq!(empty.point_from_offset(5), pos(0, 0));
}

#[test]
fn insert_at_origin_shifts_offsets() {
    let mut ll = buffer(b"abc");
    assert_eq!(ll.position_to_offset(&pos(0, 1)), Some(1));
    ll.apply_change(&pos(0, 0), &pos(0, 0), b"x");
    assert_eq!(ll.lines, vec![b"xabc".to_vec()]);
    assert_eq!(ll.position_to_offset(&pos(0, 1)), Some(1));
    assert_eq!(ll.position_to_offset(&pos(0, 2)), Some(2));
}

#[test]
fn single_line_replacement_splices_text() {
    let mut ll = buffer(b"hello world");
    ll.apply_change(&pos(0, 6), &pos(0, 11), b"there");
    assert_eq!(ll.to_text(), b"hello there".to_vec());
}

#[test]
fn multi_line_replacement_splices_text() {
    let mut ll = buffer(b"one\ntwo\nthree");
    ll.apply_change(&pos(0, 2), &pos(2, 3), b"X\nY");
    assert_eq!(ll.to_text(), b"onX\nYee".to_vec());
    assert_eq!(ll.lines, vec![b"onX".to_vec(), b"Yee".to_vec()]);
}

#[test]
fn pure_deletion_splices_text() {
    let mut ll = buffer(b"one\ntwo\nthree");
    ll.apply_change(&pos(0, 1), &pos(2, 1), b"");
    assert_eq!(ll.to_text(), b"ohree".to_vec());
}

#[test]
fn empty_range_insertion_splices_text() {
    let mut ll = buffer(b"ab\ncd");
    ll.apply_change(&pos(1, 1), &pos(1, 1), b"X\nY");
    assert_eq!(ll.to_text(), b"ab\ncX\nYd".to_vec());
}

#[test]
fn empty_edit_leaves_buffer_unchanged() {
    let mut ll = buffer(b"ab\ncd");
    ll.apply_change(&pos(1, 1), &pos(1, 1), b"");
    assert_eq!(ll.lines, vec![b"ab".to_vec(), b"cd".to_vec()]);
}

#[test]
fn replacement_joining_lines() {
    let mut ll = buffer(b"ab\ncd");
    ll.apply_change(&pos(0, 2), &pos(1, 0), b"");
    assert_eq!(ll.lines, vec![b"abcd".to_vec()]);
}
