use buffer::{Buffer, Effect, ModelContext, Operation};
use buffer::{Error, File, History, Lamport};

fn text_buffer(text: &str) -> (Buffer, ModelContext) {
    let mut cx = ModelContext::new(1, 0);
    let buffer = Buffer::new(0, text.to_string(), &mut cx);
    (buffer, cx)
}

#[test]
fn undo_and_redo_one_edit() {
    let (mut buffer, mut cx) = text_buffer("123456");
    buffer.edit(&vec![2usize..4, 5..5], "ab", &mut cx);
    assert_eq!(buffer.text(), "12ab5ab6");
    buffer.undo(&mut cx);
    assert_eq!(buffer.text(), "123456");
    buffer.redo(&mut cx);
    assert_eq!(buffer.text(), "12ab5ab6");
    buffer.undo(&mut cx);
    assert_eq!(buffer.text(), "123456");
}

#[test]
fn undo_and_redo_move_the_version_on() {
    let (mut buffer, mut cx) = text_buffer("abc");
    buffer.edit(&vec![0usize..1], "x", &mut cx);
    cx.now += 1_000_000_000;
    buffer.edit(&vec![3usize..3], "y", &mut cx);
    let first = buffer.version();
    buffer.undo(&mut cx);
    let second = buffer.version();
    buffer.redo(&mut cx);
    let third = buffer.version();
    assert_eq!(buffer.text(), "xbcy");
    assert!(second.greater_than(&first));
    assert!(third.greater_than(&second));
    buffer.undo(&mut cx);
    buffer.undo(&mut cx);
    assert_eq!(buffer.text(), "abc");
    buffer.redo(&mut cx);
    buffer.redo(&mut cx);
    assert_eq!(buffer.text(), "xbcy");
}

#[test]
fn undo_without_anything_to_undo() {
    let (mut buffer, mut cx) = text_buffer("abc");
    let version = buffer.version();
    buffer.undo(&mut cx);
    buffer.redo(&mut cx);
    assert_eq!(buffer.text(), "abc");
    assert!(buffer.version().same_as(&version));
}

#[test]
fn edits_that_follow_soon_are_undone_together() {
    let (mut buffer, mut cx) = text_buffer("");
    buffer.edit(&vec![0usize..0], "a", &mut cx);
    cx.now += 300_000_000;
    buffer.edit(&vec![1usize..1], "b", &mut cx);
    cx.now += 300_000_001;
    buffer.edit(&vec![2usize..2], "c", &mut cx);
    assert_eq!(buffer.text(), "abc");
    buffer.undo(&mut cx);
    assert_eq!(buffer.text(), "ab");
    buffer.undo(&mut cx);
    assert_eq!(buffer.text(), "");
    buffer.redo(&mut cx);
    assert_eq!(buffer.text(), "ab");
    buffer.redo(&mut cx);
    assert_eq!(buffer.text(), "abc");
}

#[test]
fn edits_of_a_transaction_are_undone_together() {
    let (mut buffer, mut cx) = text_buffer("123456");
    buffer.start_transaction(None, &cx).unwrap();
    buffer.edit(&vec![2usize..4], "cd", &mut cx);
    cx.now += 10_000_000_000;
    buffer.edit(&vec![4usize..5], "e", &mut cx);
    buffer.end_transaction(None, &mut cx).unwrap();
    assert_eq!(buffer.text(), "12cde6");
    buffer.undo(&mut cx);
    assert_eq!(buffer.text(), "123456");
    buffer.redo(&mut cx);
    assert_eq!(buffer.text(), "12cde6");
}

#[test]
fn transactions_inside_transactions() {
    let (mut buffer, mut cx) = text_buffer("abc");
    buffer.start_transaction(None, &cx).unwrap();
    buffer.edit(&vec![0usize..0], "1", &mut cx);
    buffer.start_transaction(None, &cx).unwrap();
    buffer.edit(&vec![1usize..1], "2", &mut cx);
    buffer.end_transaction(None, &mut cx).unwrap();
    buffer.edit(&vec![5usize..5], "3", &mut cx);
    buffer.end_transaction(None, &mut cx).unwrap();
    assert_eq!(buffer.text(), "12abc3");
    buffer.undo(&mut cx);
    assert_eq!(buffer.text(), "abc");
}

#[test]
fn an_empty_transaction_leaves_no_trace() {
    let (mut buffer, mut cx) = text_buffer("abc");
    buffer.edit(&vec![3usize..3], "d", &mut cx);
    cx.now += 1_000_000_000;
    buffer.start_transaction(None, &cx).unwrap();
    buffer.end_transaction(None, &mut cx).unwrap();
    buffer.undo(&mut cx);
    assert_eq!(buffer.text(), "abc");
}

#[test]
fn a_transaction_of_an_unknown_set_of_selections() {
    let (mut buffer, mut cx) = text_buffer("abc");
    let id = Lamport { replica_id: 0, value: 77 };
    assert_eq!(
        buffer.start_transaction(Some(id), &cx),
        Err(Error::InvalidSelectionSet(id))
    );
    buffer.start_transaction(None, &cx).unwrap();
    assert_eq!(
        buffer.end_transaction(Some(id), &mut cx),
        Err(Error::InvalidSelectionSet(id))
    );
}

#[test]
fn undo_brings_back_selections() {
    let (mut buffer, mut cx) = text_buffer("abcdef");
    let before = buffer.selections_from_ranges(&vec![1..3], 10);
    let set = buffer.add_selection_set(before, &mut cx);
    buffer.start_transaction(Some(set), &cx).unwrap();
    buffer.edit(&vec![4usize..4], "xyz", &mut cx);
    let after = buffer.selections_from_ranges(&vec![7..7], 20);
    buffer.update_selection_set(set, after, &mut cx).unwrap();
    buffer.end_transaction(Some(set), &mut cx).unwrap();
    assert_eq!(buffer.selection_ranges(set), Ok(vec![7..7]));
    buffer.undo(&mut cx);
    assert_eq!(buffer.text(), "abcdef");
    assert_eq!(buffer.selection_ranges(set), Ok(vec![1..3]));
    buffer.redo(&mut cx);
    assert_eq!(buffer.selection_ranges(set), Ok(vec![7..7]));
}

#[test]
fn undo_tells_the_others() {
    let mut cx = ModelContext::new(1, 0);
    let file = File {
        worktree_id: 0,
        entry_id: None,
        mtime: 0,
        path: "a".to_string(),
        deleted: false,
    };
    let mut buffer = Buffer::from_history(
        4,
        History::new("abc".to_string()),
        Some(file),
        None,
        &mut cx,
    );
    buffer.edit(&vec![0usize..1], "xy", &mut cx);
    cx.effects.clear();
    buffer.undo(&mut cx);
    let mut undos = Vec::new();
    for effect in cx.effects.iter() {
        if let Effect::Send(Operation::Undo { undo, lamport_timestamp }) = effect {
            assert_eq!(lamport_timestamp.replica_id, 4);
            assert_eq!(undo.id.value, 2);
            assert_eq!(undo.ranges, vec![0..3]);
            undos.push(undo.clone());
        }
    }
    assert_eq!(undos.len(), 1);
}

#[test]
fn redo_after_a_new_edit_leaves_the_edit() {
    let (mut buffer, mut cx) = text_buffer("abc");
    buffer.edit(&vec![3usize..3], "d", &mut cx);
    cx.now += 1_000_000_000;
    buffer.undo(&mut cx);
    cx.now += 1_000_000_000;
    buffer.edit(&vec![0usize..0], "-", &mut cx);
    assert_eq!(buffer.text(), "-abc");
    buffer.redo(&mut cx);
    assert_eq!(buffer.text(), "-abcd");
}

#[test]
fn grouping_twice_changes_nothing_more() {
    let (mut buffer, mut cx) = text_buffer("");
    buffer.history.group();
    assert_eq!(buffer.history.undo_stack.len(), 0);
    buffer.edit(&vec![0usize..0], "a", &mut cx);
    cx.now += 1_000_000_000;
    buffer.edit(&vec![1usize..1], "b", &mut cx);
    cx.now += 100_000_000;
    buffer.edit(&vec![2usize..2], "c", &mut cx);
    assert_eq!(buffer.history.undo_stack.len(), 2);
    let edits: Vec<usize> = buffer.history.undo_stack.iter().map(|t| t.edits.len()).collect();
    assert_eq!(edits, vec![1, 2]);
    buffer.history.group();
    buffer.history.group();
    let edits: Vec<usize> = buffer.history.undo_stack.iter().map(|t| t.edits.len()).collect();
    assert_eq!(edits, vec![1, 2]);
}

#[test]
fn a_transaction_of_several_edits_is_redone_after_a_new_edit() {
    let (mut buffer, mut cx) = text_buffer("abc");
    buffer.start_transaction(None, &mut cx).unwrap();
    buffer.edit(&vec![0usize..1], "x", &mut cx);
    buffer.edit(&vec![3usize..3], "yz", &mut cx);
    buffer.end_transaction(None, &mut cx).unwrap();
    assert_eq!(buffer.text(), "xbcyz");
    buffer.undo(&mut cx);
    assert_eq!(buffer.text(), "abc");
    buffer.edit(&vec![1usize..1], "-", &mut cx);
    assert_eq!(buffer.text(), "a-bc");
    // The new edit stands apart from what can be redone.
    buffer.redo(&mut cx);
    assert_eq!(buffer.text(), "x-bcyz");
    assert_eq!(buffer.history.undo_stack.len(), 2);
    buffer.undo(&mut cx);
    assert_eq!(buffer.text(), "a-bc");
    buffer.undo(&mut cx);
    assert_eq!(buffer.text(), "abc");
}
