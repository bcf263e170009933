use buffer::buffer_diff::ChangeTag;
use buffer::{Buffer, ModelContext, ToOffset};

fn text_buffer(text: &str) -> (Buffer, ModelContext) {
    let mut cx = ModelContext::new(1, 0);
    let buffer = Buffer::new(0, text.to_string(), &mut cx);
    (buffer, cx)
}

#[test]
fn the_lines_that_differ() {
    let (buffer, _) = text_buffer("a\nbb\nccc\n");
    let diff = buffer.diff("a\nccc\nd\n".to_string());
    assert_eq!(
        diff.changes,
        vec![
            (ChangeTag::Equal, 2),
            (ChangeTag::Delete, 3),
            (ChangeTag::Equal, 4),
            (ChangeTag::Insert, 2),
        ]
    );
}

#[test]
fn a_diff_is_applied_line_by_line() {
    let (mut buffer, mut cx) = text_buffer("a\nbb\nccc\ndddd\neeeee\nffffff\n");
    let anchor = buffer.anchor_before(14usize);
    let new_text = "a\nccc\ndddd\nffffff\n";
    let diff = buffer.diff(new_text.to_string());
    assert!(buffer.apply_diff(diff, &mut cx));
    assert_eq!(buffer.text(), new_text);
    assert_eq!(anchor.to_offset(&buffer.content()), 11);
    let new_text = "a\n1\n\nccc\ndd2dd\nffffff\n";
    let diff = buffer.diff(new_text.to_string());
    assert!(buffer.apply_diff(diff, &mut cx));
    assert_eq!(buffer.text(), new_text);
}

#[test]
fn a_diff_for_another_version_is_not_applied() {
    let (mut buffer, mut cx) = text_buffer("a\nb\n");
    let diff = buffer.diff("a\nc\n".to_string());
    buffer.edit(&vec![0usize..0], "x", &mut cx);
    assert!(!buffer.apply_diff(diff, &mut cx));
    assert_eq!(buffer.text(), "xa\nb\n");
}

#[test]
fn a_diff_is_undone_at_once() {
    let (mut buffer, mut cx) = text_buffer("a\nb\nc\n");
    let diff = buffer.diff("1\nb\n2\n".to_string());
    assert!(buffer.apply_diff(diff, &mut cx));
    assert_eq!(buffer.text(), "1\nb\n2\n");
    buffer.undo(&mut cx);
    assert_eq!(buffer.text(), "a\nb\nc\n");
}

#[test]
fn text_from_disk_counts_as_saved() {
    let (mut buffer, mut cx) = text_buffer("a\nb\n");
    buffer.edit(&vec![0usize..0], "x", &mut cx);
    buffer.set_text_from_disk("é\nb\nc".to_string(), &mut cx);
    assert_eq!(buffer.text(), "é\nb\nc");
    assert!(!buffer.is_dirty());
}
