use buffer::{Bias, Buffer, Edit, Effect, Error, Event, File, Global, ModelContext, Point};

fn text_buffer(text: &str) -> (Buffer, ModelContext) {
    let mut cx = ModelContext::new(1, 0);
    let buffer = Buffer::new(0, text.to_string(), &mut cx);
    (buffer, cx)
}

fn changes(buffer: &Buffer, since: Global) -> Vec<Edit> {
    let mut edits = buffer.edits_since(since);
    let mut found = Vec::new();
    while let Some(edit) = edits.next() {
        found.push(edit);
    }
    found
}

/// The changes, made to the text of the earlier version, give the new text.
fn patched(old: &str, new: &str, edits: &[Edit]) -> String {
    let mut text = old.to_string();
    for edit in edits {
        let start = edit.new_bytes.start;
        let end = start + edit.deleted_bytes();
        text.replace_range(start..end, &new[edit.new_bytes.clone()]);
    }
    text
}

#[test]
fn edit_delta() {
    let edit = Edit {
        old_bytes: 3..5,
        new_bytes: 3..9,
        old_lines: Point::new(0, 3)..Point::new(1, 1),
    };
    assert_eq!(edit.delta(), 4);
    assert_eq!(edit.deleted_bytes(), 2);
    assert_eq!(edit.inserted_bytes(), 6);
    assert_eq!(edit.deleted_lines(), Point::new(1, 1));
    let reverse = Edit {
        old_bytes: edit.new_bytes.clone(),
        new_bytes: edit.old_bytes.clone(),
        old_lines: Point::new(0, 0)..Point::new(0, 0),
    };
    assert_eq!(reverse.delta(), -4);
    // The ends may lie anywhere as long as the lengths fit.
    let far = Edit {
        old_bytes: usize::MAX - 3..usize::MAX,
        new_bytes: usize::MAX - 1..usize::MAX,
        old_lines: Point::new(1, 0)..Point::new(0, 0),
    };
    assert_eq!(far.delta(), -2);
}

#[test]
fn edits_replace_ranges() {
    let (mut buffer, mut cx) = text_buffer("abc");
    assert_eq!(buffer.text(), "abc");
    buffer.edit(&vec![3usize..3], "def", &mut cx);
    assert_eq!(buffer.text(), "abcdef");
    buffer.edit(&vec![0usize..0], "ghi", &mut cx);
    assert_eq!(buffer.text(), "ghiabcdef");
    buffer.edit(&vec![5usize..5], "jkl", &mut cx);
    assert_eq!(buffer.text(), "ghiabjklcdef");
    buffer.edit(&vec![6usize..7], "", &mut cx);
    assert_eq!(buffer.text(), "ghiabjlcdef");
    buffer.edit(&vec![4usize..9], "mno", &mut cx);
    assert_eq!(buffer.text(), "ghiamnoef");
}

#[test]
fn several_ranges_at_once() {
    let (mut buffer, mut cx) = text_buffer("one two three");
    buffer.edit(&vec![0usize..3, 4..7, 8..13], "x", &mut cx);
    assert_eq!(buffer.text(), "x x x");
}

#[test]
fn ranges_that_touch_are_joined() {
    let (mut buffer, mut cx) = text_buffer("abcdef");
    buffer.edit(&vec![1usize..2, 2..3, 3..5], "-", &mut cx);
    assert_eq!(buffer.text(), "a-f");
}

#[test]
fn an_edit_of_nothing_does_nothing() {
    let (mut buffer, mut cx) = text_buffer("abc");
    let version = buffer.version();
    buffer.edit(&vec![1usize..1, 2..2], "", &mut cx);
    assert_eq!(buffer.text(), "abc");
    assert!(buffer.version().same_as(&version));
    assert!(!buffer.is_dirty());
}

#[test]
fn edits_by_points() {
    let (mut buffer, mut cx) = text_buffer("one\ntwo\nthree");
    buffer.edit(
        &vec![Point::new(1, 0)..Point::new(1, 3), Point::new(2, 5)..Point::new(2, 5)],
        "2",
        &mut cx,
    );
    assert_eq!(buffer.text(), "one\n2\nthree2");
}

#[test]
fn edits_of_characters_that_take_several_bytes() {
    let (mut buffer, mut cx) = text_buffer("aéb🏀c");
    assert_eq!(buffer.len(), 9);
    buffer.edit(&vec![3usize..3, 4..8], "✅", &mut cx);
    assert_eq!(buffer.text(), "aé✅b✅c");
}

#[test]
fn what_has_changed_since_a_version() {
    let (mut buffer, mut cx) = text_buffer("abcdefghi");
    let start = buffer.version();
    assert!(changes(&buffer, start.clone()).is_empty());
    buffer.edit(&vec![2usize..4], "XYZ", &mut cx);
    buffer.edit(&vec![8usize..9], "", &mut cx);
    let edits = changes(&buffer, start.clone());
    assert_eq!(edits.len(), 2);
    assert_eq!(edits[0].old_bytes, 2..4);
    assert_eq!(edits[0].new_bytes, 2..5);
    assert_eq!(edits[1].old_bytes, 7..8);
    assert_eq!(edits[1].new_bytes, 8..8);
    assert_eq!(patched("abcdefghi", &buffer.text(), &edits), buffer.text());
    assert!(buffer.has_changed_since(start));
    assert!(!buffer.has_changed_since(buffer.version()));
}

#[test]
fn what_has_changed_by_undo_and_redo() {
    let (mut buffer, mut cx) = text_buffer("one two three");
    buffer.edit(&vec![4usize..7], "2", &mut cx);
    cx.now += 1_000_000_000;
    buffer.edit(&vec![0usize..0, 9..11], "+", &mut cx);
    let before = buffer.text();
    let since = buffer.version();
    assert_eq!(before, "+one 2 thr+");
    buffer.undo(&mut cx);
    buffer.undo(&mut cx);
    let edits = changes(&buffer, since.clone());
    assert_eq!(buffer.text(), "one two three");
    assert_eq!(patched(&before, &buffer.text(), &edits), buffer.text());
    let delta: isize = edits.iter().map(|edit| edit.delta()).sum();
    assert_eq!(delta, buffer.len() as isize - before.len() as isize);
    buffer.redo(&mut cx);
    buffer.edit(&vec![3usize..3], "!", &mut cx);
    let edits = changes(&buffer, since);
    assert_eq!(buffer.text(), "one! 2 three");
    assert_eq!(patched(&before, &buffer.text(), &edits), buffer.text());
}

#[test]
fn changes_that_touch_are_one() {
    let (mut buffer, mut cx) = text_buffer("abcdef");
    let start = buffer.version();
    buffer.edit(&vec![2usize..3], "12", &mut cx);
    buffer.edit(&vec![4usize..5], "", &mut cx);
    let edits = changes(&buffer, start);
    assert_eq!(edits.len(), 1);
    assert_eq!(edits[0].old_bytes, 2..4);
    assert_eq!(edits[0].new_bytes, 2..4);
}

#[test]
fn changed_lines() {
    let (mut buffer, mut cx) = text_buffer("a\nb\nc\n");
    let start = buffer.version();
    buffer.edit(&vec![2usize..4], "x", &mut cx);
    let edits = changes(&buffer, start);
    assert_eq!(edits[0].old_lines, Point::new(1, 0)..Point::new(2, 0));
    assert_eq!(edits[0].deleted_lines(), Point::new(1, 0));
}

#[test]
fn events_of_an_edit() {
    let mut cx = ModelContext::new(3, 10);
    let file = File {
        worktree_id: 1,
        entry_id: Some(2),
        mtime: 5,
        path: "src/a.rs".to_string(),
        deleted: false,
    };
    let mut buffer = Buffer::from_history(
        0,
        buffer::History::new("abc".to_string()),
        Some(file),
        None,
        &mut cx,
    );
    buffer.edit(&vec![0usize..1], "x", &mut cx);
    let mut seen = Vec::new();
    let mut sent = 0;
    for effect in cx.effects.iter() {
        match effect {
            Effect::Emit(event) => seen.push(*event),
            Effect::Send(operation) => {
                assert!(operation.is_edit());
                assert_eq!(operation.replica_id(), 0);
                sent += 1;
            }
            _ => {}
        }
    }
    assert_eq!(seen, vec![Event::Edited, Event::Dirtied]);
    assert_eq!(sent, 1);
    cx.effects.clear();
    buffer.edit(&vec![0usize..1], "y", &mut cx);
    let again: Vec<Event> = cx
        .effects
        .iter()
        .filter_map(|effect| match effect {
            Effect::Emit(event) => Some(*event),
            _ => None,
        })
        .collect();
    assert_eq!(again, vec![Event::Edited]);
}

#[test]
fn parts_of_the_text() {
    let (buffer, _) = text_buffer("one\n  two\n\nthree é");
    assert_eq!(buffer.len(), 19);
    assert_eq!(buffer.row_count(), 4);
    assert_eq!(buffer.max_point(), Point::new(3, 8));
    assert_eq!(buffer.line_len(0), 3);
    assert_eq!(buffer.line_len(1), 5);
    assert_eq!(buffer.line_len(2), 0);
    assert_eq!(buffer.line_len(3), 8);
    assert_eq!(buffer.indent_column_for_line(0), 0);
    assert_eq!(buffer.indent_column_for_line(1), 2);
    assert_eq!(buffer.text_for_range(4usize..9), "  two");
    assert_eq!(buffer.text_for_range(Point::new(1, 2)..Point::new(1, 5)), "two");
    assert_eq!(buffer.chars_at(11usize), "three é".chars().collect::<Vec<_>>());
    assert_eq!(buffer.chars_for_range(0usize..3), vec!['o', 'n', 'e']);
    assert_eq!(buffer.chars().len(), 18);
    assert_eq!(buffer.bytes_at(17usize), "é".as_bytes().to_vec());
    assert!(buffer.contains_str_at(4usize, "  two"));
    assert!(!buffer.contains_str_at(4usize, " two"));
    assert!(!buffer.contains_str_at(17usize, "éé"));
    let summary = buffer.text_summary();
    assert_eq!(summary.bytes, 19);
    assert_eq!(summary.lines, Point::new(3, 8));
    assert_eq!(buffer.text_summary_for_range(0..4).lines, Point::new(1, 0));
}

#[test]
fn points_and_offsets() {
    let (buffer, _) = text_buffer("ab\ncd");
    assert_eq!(buffer.point_for_offset(4), Ok(Point::new(1, 1)));
    assert_eq!(buffer.point_for_offset(5), Ok(Point::new(1, 2)));
    assert_eq!(buffer.point_for_offset(6), Err(Error::OffsetOutOfBounds));
}

#[test]
fn clipping() {
    let (buffer, _) = text_buffer("a🏀b\nc");
    assert_eq!(buffer.clip_offset(2, Bias::Left), 1);
    assert_eq!(buffer.clip_offset(2, Bias::Right), 5);
    assert_eq!(buffer.clip_offset(100, Bias::Left), 8);
    assert_eq!(buffer.clip_point(Point::new(0, 3), Bias::Left), Point::new(0, 1));
    assert_eq!(buffer.clip_point(Point::new(0, 3), Bias::Right), Point::new(0, 5));
    assert_eq!(buffer.clip_point(Point::new(0, 30), Bias::Right), Point::new(0, 6));
    assert_eq!(buffer.clip_point(Point::new(7, 1), Bias::Right), Point::new(1, 1));
}

#[test]
fn a_copy_goes_on_by_itself() {
    let (mut buffer, mut cx) = text_buffer("abc");
    buffer.edit(&vec![3usize..3], "d", &mut cx);
    let mut copy = buffer.clone();
    copy.edit(&vec![0usize..1], "x", &mut cx);
    assert_eq!(buffer.text(), "abcd");
    assert_eq!(copy.text(), "xbcd");
    assert!(!copy.is_parsing());
}

#[test]
fn a_snapshot_stays_as_it_is() {
    let (mut buffer, mut cx) = text_buffer("one\n\t\n two");
    let snapshot = buffer.snapshot();
    buffer.edit(&vec![0usize..3], "1", &mut cx);
    assert_eq!(snapshot.text_for_range(0usize..3), "one");
    assert_eq!(snapshot.len(), 10);
    assert_eq!(snapshot.max_point(), Point::new(2, 4));
    assert!(snapshot.is_line_blank(1));
    assert!(!snapshot.is_line_blank(2));
    assert_eq!(snapshot.prev_non_blank_row(2), Some(0));
    assert_eq!(snapshot.prev_non_blank_row(0), None);
    assert_eq!(snapshot.to_offset(Point::new(2, 1)), 7);
    assert_eq!(snapshot.to_point(7), Point::new(2, 1));
    assert_eq!(snapshot.point_for_offset(11), Err(Error::OffsetOutOfBounds));
    assert_eq!(snapshot.line_len(2), 4);
    assert_eq!(snapshot.indent_column_for_line(2), 1);
}

#[test]
fn a_range_that_does_nothing_may_lie_anywhere() {
    let (mut buffer, mut cx) = text_buffer("aé");
    let version = buffer.version();
    buffer.edit(&vec![100usize..100], "", &mut cx);
    buffer.edit(&vec![7usize..3, 2..2], "", &mut cx);
    assert_eq!(buffer.text(), "aé");
    assert!(buffer.version().same_as(&version));
    assert!(cx.effects.is_empty());
    buffer.edit(&vec![2usize..2, 1..3], "", &mut cx);
    assert_eq!(buffer.text(), "a");
}
