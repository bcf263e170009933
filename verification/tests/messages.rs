use buffer::proto;
use buffer::{
    Anchor, Bias, Buffer, Effect, Error, File, Global, History, Lamport, Local, ModelContext,
    Operation, Selection, SelectionGoal,
};

fn replica(id: u16, text: &str) -> (Buffer, ModelContext) {
    let mut cx = ModelContext::new(id as usize + 40, 0);
    let file = File {
        worktree_id: 0,
        entry_id: None,
        mtime: 0,
        path: "a".to_string(),
        deleted: false,
    };
    let buffer =
        Buffer::from_history(id, History::new(text.to_string()), Some(file), None, &mut cx);
    (buffer, cx)
}

fn sent(cx: &mut ModelContext) -> Vec<Operation> {
    std::mem::take(&mut cx.effects)
        .into_iter()
        .filter_map(|effect| match effect {
            Effect::Send(operation) => Some(operation),
            _ => None,
        })
        .collect()
}

#[test]
fn operations_travel_as_messages() {
    let (mut one, mut cx1) = replica(1, "abc");
    let (mut two, mut cx2) = replica(2, "abc");
    one.edit(&vec![1usize..2], "xyz", &mut cx1);
    cx1.now += 1_000_000_000;
    one.edit(&vec![0usize..0], "1", &mut cx1);
    one.undo(&mut cx1);
    let selections = one.selections_from_ranges(&vec![1..3], 5);
    let set = one.add_selection_set(selections, &mut cx1);
    one.set_active_selection_set(Some(set), &mut cx1).unwrap();
    let messages: Vec<proto::Operation> = sent(&mut cx1).iter().map(|op| op.to_proto()).collect();
    assert_eq!(messages.len(), 5);
    let operations: Vec<Operation> = messages
        .into_iter()
        .map(|message| Operation::from_proto(message).unwrap())
        .collect();
    two.apply_ops(operations, &mut cx2).unwrap();
    assert_eq!(two.text(), one.text());
    assert_eq!(two.text(), "axyzc");
    assert_eq!(two.selection_ranges(set), Ok(vec![1..3]));
    assert!(two.selection_set(set).unwrap().active);
}

#[test]
fn the_fields_of_an_edit_message() {
    let (mut one, mut cx) = replica(3, "abc");
    one.edit(&vec![1usize..2], "é", &mut cx);
    one.edit(&vec![0usize..0], "x", &mut cx);
    let operations = sent(&mut cx);
    let message = match operations[1].to_proto().variant {
        Some(proto::Variant::Edit(edit)) => edit,
        other => panic!("unexpected {:?}", other),
    };
    assert_eq!(message.replica_id, 3);
    assert_eq!(message.local_timestamp, 2);
    assert_eq!(message.lamport_timestamp, 2);
    assert_eq!(message.ranges, vec![proto::Range { start: 0, end: 0 }]);
    assert_eq!(message.new_text, Some("x".to_string()));
    assert_eq!(
        message.version,
        vec![proto::VectorClockEntry { replica_id: 3, timestamp: 1 }]
    );
}

#[test]
fn the_fields_of_an_undo_message() {
    let (mut one, mut cx) = replica(3, "abc");
    one.edit(&vec![1usize..2], "yz", &mut cx);
    one.undo(&mut cx);
    let operations = sent(&mut cx);
    let message = match operations[1].to_proto().variant {
        Some(proto::Variant::Undo(undo)) => undo,
        other => panic!("unexpected {:?}", other),
    };
    assert_eq!(message.local_timestamp, 2);
    assert_eq!(message.ranges, vec![proto::Range { start: 1, end: 4 }]);
    assert_eq!(
        message.counts,
        vec![proto::UndoCount { replica_id: 3, local_timestamp: 1, count: 1 }]
    );
    assert!(message.version.is_empty());
}

#[test]
fn malformed_messages() {
    let nothing = proto::Operation { variant: None };
    assert_eq!(Operation::from_proto(nothing).unwrap_err(), Error::MissingOperation);
    let anchor = |bias: i32| proto::Anchor { version: vec![], offset: 1, bias };
    assert_eq!(Anchor::from_proto(&anchor(2)).unwrap_err(), Error::InvalidAnchorBias(2));
    assert_eq!(Anchor::from_proto(&anchor(0)).unwrap().bias, Bias::Left);
    assert_eq!(Anchor::from_proto(&anchor(1)).unwrap().bias, Bias::Right);
    let no_start = proto::Selection { id: 0, start: None, end: Some(anchor(0)), reversed: false };
    assert_eq!(Selection::from_proto(&no_start).unwrap_err(), Error::MissingSelectionStart);
    let no_end = proto::Selection { id: 0, start: Some(anchor(0)), end: None, reversed: false };
    assert_eq!(Selection::from_proto(&no_end).unwrap_err(), Error::MissingSelectionEnd);
    let update = proto::Operation {
        variant: Some(proto::Variant::UpdateSelections(proto::UpdateSelections {
            replica_id: 1,
            local_timestamp: 1,
            lamport_timestamp: 1,
            set: Some(proto::SelectionSet {
                selections: vec![proto::Selection {
                    id: 0,
                    start: Some(anchor(0)),
                    end: Some(anchor(-1)),
                    reversed: false,
                }],
            }),
        })),
    };
    assert_eq!(Operation::from_proto(update).unwrap_err(), Error::InvalidAnchorBias(-1));
}

#[test]
fn a_selection_there_and_back() {
    let mut version = Global::new();
    version.observe(Local { replica_id: 7, value: 8 });
    let selection = Selection {
        id: 5,
        start: Anchor { offset: 1, bias: Bias::Right, version: version.clone() },
        end: Anchor { offset: 2, bias: Bias::Left, version },
        reversed: true,
        goal: SelectionGoal::Column(3),
    };
    let back = Selection::from_proto(&selection.to_proto()).unwrap();
    assert_eq!(back.id, 5);
    assert_eq!(back.start.offset, 1);
    assert_eq!(back.start.bias, Bias::Right);
    assert!(back.start.version.observed(Local { replica_id: 7, value: 8 }));
    assert!(!back.start.version.observed(Local { replica_id: 7, value: 9 }));
    assert_eq!(back.end.offset, 2);
    assert!(back.reversed);
    assert_eq!(back.goal, SelectionGoal::NoGoal);
}

#[test]
fn a_buffer_there_and_back() {
    let (mut one, mut cx1) = replica(1, "hello");
    one.edit(&vec![5usize..5], " world", &mut cx1);
    one.edit(&vec![0usize..1], "J", &mut cx1);
    let selections = one.selections_from_ranges(&vec![6..11], 0);
    let set = one.add_selection_set(selections, &mut cx1);
    let message = one.to_proto(&cx1);
    assert_eq!(message.id, 41);
    assert_eq!(message.content, "hello");
    assert_eq!(message.history.len(), 2);
    assert_eq!(message.selections.len(), 1);
    let mut cx2 = ModelContext::new(2, 0);
    let two = Buffer::from_proto(2, message, None, None, &mut cx2).unwrap();
    assert_eq!(two.text(), "Jello world");
    assert_eq!(two.replica_id(), 2);
    assert_eq!(two.remote_id(), 41);
    assert_eq!(two.selection_ranges(set), Ok(vec![6..11]));
}

#[test]
fn a_buffer_message_holds_the_edits_in_any_order() {
    let (mut one, mut cx1) = replica(1, "hello");
    let (mut two, mut cx2) = replica(2, "hello");
    one.edit(&vec![5usize..5], " world", &mut cx1);
    one.edit(&vec![0usize..1], "J", &mut cx1);
    two.edit(&vec![1usize..4], "ipp", &mut cx2);
    one.apply_ops(sent(&mut cx2), &mut cx1).unwrap();
    one.edit(&vec![2usize..3], "--", &mut cx1);
    let text = one.text();
    let version = one.version();
    let message = one.to_proto(&cx1);
    assert_eq!(message.history.len(), 4);
    let orders = [[0, 1, 2, 3], [3, 2, 1, 0], [2, 0, 3, 1], [1, 3, 0, 2]];
    for order in orders {
        let message = one.to_proto(&cx1);
        let mut edits: Vec<Option<proto::Edit>> = message.history.into_iter().map(Some).collect();
        let message = proto::Buffer {
            id: message.id,
            content: message.content,
            history: order.iter().map(|i| edits[*i].take().unwrap()).collect(),
            selections: message.selections,
        };
        let mut cx = ModelContext::new(3, 0);
        let three = Buffer::from_proto(3, message, None, None, &mut cx).unwrap();
        assert_eq!(three.text(), text);
        assert!(three.version().same_as(&version));
        assert_eq!(three.deferred_ops_len(), 0);
    }
}

#[test]
fn a_buffer_message_with_an_edit_that_does_not_fit() {
    let mut cx = ModelContext::new(2, 0);
    let message = proto::Buffer {
        id: 1,
        content: "abc".to_string(),
        history: vec![proto::Edit {
            replica_id: 1,
            local_timestamp: 1,
            lamport_timestamp: 1,
            version: vec![],
            ranges: vec![proto::Range { start: 7, end: 9 }],
            new_text: None,
        }],
        selections: vec![],
    };
    let result = Buffer::from_proto(2, message, None, None, &mut cx);
    assert!(matches!(result, Err(Error::InvalidOperation)));
    let message = proto::Buffer {
        id: 1,
        content: "abc".to_string(),
        history: vec![],
        selections: vec![proto::SelectionSetSnapshot {
            replica_id: 1,
            local_timestamp: 1,
            selections: vec![proto::Selection { id: 0, start: None, end: None, reversed: false }],
            is_active: false,
        }],
    };
    let result = Buffer::from_proto(2, message, None, None, &mut cx);
    assert!(matches!(result, Err(Error::MissingSelectionStart)));
}

#[test]
fn an_active_set_is_named_by_the_replica_that_made_it_active() {
    let operation = Operation::SetActiveSelections {
        set_id: Some(Lamport { replica_id: 1, value: 2 }),
        lamport_timestamp: Lamport { replica_id: 1, value: 3 },
    };
    match Operation::from_proto(operation.to_proto()).unwrap() {
        Operation::SetActiveSelections { set_id, lamport_timestamp } => {
            assert_eq!(set_id, Some(Lamport { replica_id: 1, value: 2 }));
            assert_eq!(lamport_timestamp, Lamport { replica_id: 1, value: 3 });
        }
        other => panic!("unexpected {:?}", other),
    }
}
