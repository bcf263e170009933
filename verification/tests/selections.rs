use buffer::{Buffer, Effect, Error, File, History, Lamport, ModelContext, Operation, SelectionGoal};

fn replica(id: u16, text: &str) -> (Buffer, ModelContext) {
    let mut cx = ModelContext::new(id as usize, 0);
    let file = File {
        worktree_id: 0,
        entry_id: None,
        mtime: 0,
        path: "a".to_string(),
        deleted: false,
    };
    let buffer =
        Buffer::from_history(id, History::new(text.to_string()), Some(file), None, &mut cx);
    (buffer, cx)
}

fn sent(cx: &mut ModelContext) -> Vec<Operation> {
    std::mem::take(&mut cx.effects)
        .into_iter()
        .filter_map(|effect| match effect {
            Effect::Send(operation) => Some(operation),
            _ => None,
        })
        .collect()
}

#[test]
fn selections_come_and_go() {
    let (mut buffer, mut cx) = replica(1, "abcdef");
    let selections = buffer.selections_from_ranges(&vec![4..5, 2..0, 2..3], 7);
    let ids: Vec<usize> = selections.iter().map(|s| s.id).collect();
    assert_eq!(ids, vec![7, 8, 9]);
    assert!(selections[0].reversed);
    assert!(!selections[1].reversed);
    assert_eq!(selections[0].goal, SelectionGoal::NoGoal);
    let set = buffer.add_selection_set(selections, &mut cx);
    assert_eq!(buffer.selection_ranges(set), Ok(vec![2..0, 2..3, 4..5]));
    buffer.edit(&vec![0usize..0], "--", &mut cx);
    assert_eq!(buffer.selection_ranges(set), Ok(vec![4..0, 4..5, 6..7]));
    let other = buffer.selections_from_ranges(&vec![1..1], 0);
    buffer.update_selection_set(set, other, &mut cx).unwrap();
    assert_eq!(buffer.selection_ranges(set), Ok(vec![1..1]));
    assert_eq!(buffer.all_selection_ranges(), vec![(set, vec![1..1])]);
    buffer.remove_selection_set(set, &mut cx).unwrap();
    assert!(buffer.selection_sets().is_empty());
}

#[test]
fn sets_that_are_not_there() {
    let (mut buffer, mut cx) = replica(1, "abc");
    let id = Lamport { replica_id: 1, value: 9 };
    assert_eq!(
        buffer.update_selection_set(id, vec![], &mut cx),
        Err(Error::InvalidSelectionSet(id))
    );
    assert_eq!(
        buffer.remove_selection_set(id, &mut cx),
        Err(Error::InvalidSelectionSet(id))
    );
    assert!(buffer.selection_set(id).is_err());
    assert_eq!(buffer.selection_ranges(id), Err(Error::InvalidSelectionSet(id)));
}

#[test]
fn one_set_of_a_replica_is_active() {
    let (mut buffer, mut cx) = replica(1, "abc");
    let a = buffer.add_selection_set(vec![], &mut cx);
    let b = buffer.add_selection_set(vec![], &mut cx);
    buffer.set_active_selection_set(Some(a), &mut cx).unwrap();
    assert!(buffer.selection_set(a).unwrap().active);
    assert!(!buffer.selection_set(b).unwrap().active);
    buffer.set_active_selection_set(Some(b), &mut cx).unwrap();
    assert!(!buffer.selection_set(a).unwrap().active);
    assert!(buffer.selection_set(b).unwrap().active);
    buffer.set_active_selection_set(None, &mut cx).unwrap();
    assert!(!buffer.selection_set(b).unwrap().active);
}

#[test]
fn selections_reach_the_other_replicas() {
    let (mut one, mut cx1) = replica(1, "abcdef");
    let (mut two, mut cx2) = replica(2, "abcdef");
    let selections = one.selections_from_ranges(&vec![1..4], 0);
    let set = one.add_selection_set(selections, &mut cx1);
    one.set_active_selection_set(Some(set), &mut cx1).unwrap();
    two.edit(&vec![0usize..1], "XYZ", &mut cx2);
    two.apply_ops(sent(&mut cx1), &mut cx2).unwrap();
    assert_eq!(two.selection_ranges(set), Ok(vec![3..6]));
    assert!(two.selection_set(set).unwrap().active);
    one.remove_selection_set(set, &mut cx1).unwrap();
    two.apply_ops(sent(&mut cx1), &mut cx2).unwrap();
    assert!(two.selection_sets().is_empty());
}

#[test]
fn selections_wait_for_the_text_that_they_are_in() {
    let (mut one, mut cx1) = replica(1, "abc");
    let (mut two, mut cx2) = replica(2, "abc");
    one.edit(&vec![3usize..3], "def", &mut cx1);
    let edit = sent(&mut cx1);
    let selections = one.selections_from_ranges(&vec![4..5], 0);
    let set = one.add_selection_set(selections, &mut cx1);
    let update = sent(&mut cx1);
    two.apply_ops(update, &mut cx2).unwrap();
    assert_eq!(two.deferred_ops_len(), 1);
    two.apply_ops(edit, &mut cx2).unwrap();
    assert_eq!(two.deferred_ops_len(), 0);
    assert_eq!(two.selection_ranges(set), Ok(vec![4..5]));
}

#[test]
fn the_selections_of_a_replica_that_leaves() {
    let (mut one, mut cx1) = replica(1, "abc");
    let (mut two, mut cx2) = replica(2, "abc");
    let theirs = one.add_selection_set(vec![], &mut cx1);
    let own = two.add_selection_set(vec![], &mut cx2);
    two.apply_ops(sent(&mut cx1), &mut cx2).unwrap();
    assert_eq!(two.selection_sets().len(), 2);
    two.remove_peer(1, &mut cx2);
    assert!(two.selection_set(theirs).is_err());
    assert!(two.selection_set(own).is_ok());
}
