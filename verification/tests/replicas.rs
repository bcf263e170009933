use buffer::{Buffer, Effect, Error, File, Global, History, Lamport, Local, ModelContext, Operation};
use buffer::{EditOperation, UndoOperation};
use buffer::fragment::InsertionTimestamp;
use buffer::local_map::LocalMap;
use rand::rngs::StdRng;
use rand::{Rng, SeedableRng};

fn some_file() -> File {
    File {
        worktree_id: 0,
        entry_id: None,
        mtime: 0,
        path: "a".to_string(),
        deleted: false,
    }
}

struct Replica {
    buffer: Buffer,
    cx: ModelContext,
}

impl Replica {
    fn new(id: u16, text: &str) -> Replica {
        let mut cx = ModelContext::new(id as usize, 0);
        let buffer = Buffer::from_history(
            id,
            History::new(text.to_string()),
            Some(some_file()),
            None,
            &mut cx,
        );
        Replica { buffer, cx }
    }

    /// The operations made since the last time.
    fn sent(&mut self) -> Vec<Operation> {
        let effects = std::mem::take(&mut self.cx.effects);
        effects
            .into_iter()
            .filter_map(|effect| match effect {
                Effect::Send(operation) => Some(operation),
                _ => None,
            })
            .collect()
    }

    fn edit(&mut self, range: std::ops::Range<usize>, text: &str) -> Vec<Operation> {
        self.buffer.edit(&vec![range], text, &mut self.cx);
        self.sent()
    }

    fn receive(&mut self, operations: &[Operation]) {
        self.buffer.apply_ops(operations.to_vec(), &mut self.cx).unwrap();
        self.cx.effects.retain(|effect| matches!(effect, Effect::Send(_)));
    }
}

#[test]
fn concurrent_edits_converge() {
    let text = "abcdef";
    let mut one = Replica::new(1, text);
    let mut two = Replica::new(2, text);
    let mut three = Replica::new(3, text);
    let first = one.edit(1..2, "12");
    assert_eq!(one.buffer.text(), "a12cdef");
    let second = two.edit(3..4, "34");
    assert_eq!(two.buffer.text(), "abc34ef");
    let third = three.edit(5..6, "56");
    assert_eq!(three.buffer.text(), "abcde56");
    one.receive(&second);
    one.receive(&third);
    two.receive(&third);
    two.receive(&first);
    three.receive(&first);
    three.receive(&second);
    assert_eq!(one.buffer.text(), "a12c34e56");
    assert_eq!(two.buffer.text(), "a12c34e56");
    assert_eq!(three.buffer.text(), "a12c34e56");
    assert!(one.buffer.version().same_as(&two.buffer.version()));
}

#[test]
fn the_newer_of_two_insertions_at_one_place_comes_first() {
    let mut one = Replica::new(1, "ab");
    let mut two = Replica::new(2, "ab");
    let first = one.edit(1..1, "x");
    let second = two.edit(1..1, "y");
    one.receive(&second);
    two.receive(&first);
    assert_eq!(one.buffer.text(), "ayxb");
    assert_eq!(two.buffer.text(), "ayxb");
}

#[test]
fn deleting_what_another_replica_deletes() {
    let mut one = Replica::new(1, "abcdef");
    let mut two = Replica::new(2, "abcdef");
    let first = one.edit(1..4, "");
    let second = two.edit(2..5, "");
    one.receive(&second);
    two.receive(&first);
    assert_eq!(one.buffer.text(), "af");
    assert_eq!(two.buffer.text(), "af");
}

#[test]
fn text_inserted_into_a_deleted_range_stays() {
    let mut one = Replica::new(1, "abcdef");
    let mut two = Replica::new(2, "abcdef");
    let first = one.edit(1..5, "");
    let second = two.edit(3..3, "XY");
    one.receive(&second);
    two.receive(&first);
    assert_eq!(one.buffer.text(), "aXYf");
    assert_eq!(two.buffer.text(), "aXYf");
}

#[test]
fn an_operation_that_comes_too_early_waits() {
    let mut one = Replica::new(1, "abc");
    let mut two = Replica::new(2, "abc");
    let first = one.edit(3..3, "d");
    let second = one.edit(4..4, "e");
    two.receive(&second);
    assert_eq!(two.buffer.text(), "abc");
    assert_eq!(two.buffer.deferred_ops_len(), 1);
    two.receive(&first);
    assert_eq!(two.buffer.text(), "abcde");
    assert_eq!(two.buffer.deferred_ops_len(), 0);
}

#[test]
fn an_operation_that_builds_on_another_replica_waits() {
    let mut one = Replica::new(1, "abc");
    let mut two = Replica::new(2, "abc");
    let mut three = Replica::new(3, "abc");
    let first = one.edit(1..1, "1");
    two.receive(&first);
    let second = two.edit(2..2, "2");
    three.receive(&second);
    assert_eq!(three.buffer.deferred_ops_len(), 1);
    three.receive(&first);
    assert_eq!(three.buffer.text(), "a12bc");
    assert_eq!(two.buffer.text(), "a12bc");
}

#[test]
fn an_operation_that_comes_twice_does_nothing_the_second_time() {
    let mut one = Replica::new(1, "abc");
    let mut two = Replica::new(2, "abc");
    let first = one.edit(1..2, "xyz");
    two.receive(&first);
    two.receive(&first);
    assert_eq!(two.buffer.text(), "axyzc");
    one.receive(&first);
    assert_eq!(one.buffer.text(), "axyzc");
}

#[test]
fn an_operation_that_names_no_place_is_refused() {
    let mut one = Replica::new(1, "abc");
    let edit = EditOperation {
        timestamp: InsertionTimestamp { replica_id: 2, local: 1, lamport: 1 },
        version: Global::new(),
        ranges: vec![2..9],
        new_text: Some("x".to_string()),
    };
    let result = one.buffer.apply_ops(vec![Operation::Edit(edit)], &mut one.cx);
    assert_eq!(result, Err(Error::InvalidOperation));
    assert_eq!(one.buffer.text(), "abc");
}

#[test]
fn an_edit_whose_ranges_touch_is_applied() {
    let edit = |ranges: Vec<std::ops::Range<usize>>, text: Option<&str>, lamport: u32| {
        Operation::Edit(EditOperation {
            timestamp: InsertionTimestamp { replica_id: 2, local: 1, lamport },
            version: Global::new(),
            ranges,
            new_text: text.map(|text| text.to_string()),
        })
    };
    let cases = vec![
        (vec![0..1, 1..2], None, "c"),
        (vec![0..1, 1..2], Some("-"), "--c"),
        (vec![1..1, 1..1, 1..3], Some("-"), "a---"),
        (vec![0..2, 2..2], Some("-"), "--c"),
    ];
    for (ranges, text, expected) in cases {
        let mut one = Replica::new(1, "abc");
        one.receive(&[edit(ranges, text, 1)]);
        assert_eq!(one.buffer.text(), expected);
        assert_eq!(one.buffer.deferred_ops_len(), 0);
        assert!(one.buffer.version().observed(Local { replica_id: 2, value: 1 }));
    }
    // Text that is newer than the edit comes before that of the edit.
    let mut one = Replica::new(1, "abc");
    one.edit(1..1, "XY");
    one.edit(0..0, "Z");
    one.receive(&[edit(vec![0..1, 1..2], Some("-"), 0)]);
    assert_eq!(one.buffer.text(), "Z-XY-c");
    let mut two = Replica::new(1, "abc");
    two.receive(&[edit(vec![0..1, 1..2], Some("-"), 9)]);
    assert_eq!(two.buffer.text(), "--c");
}

/// A buffer with the text `aXYbZc`, of which `XY` and `Z` were inserted late, and
/// an edit that has seen all of it and claims to be older.
fn older_edit(ranges: Vec<std::ops::Range<usize>>, text: &str) -> (Replica, Operation) {
    let mut one = Replica::new(0, "abc");
    one.buffer.lamport_clock.value = 10;
    one.edit(1..1, "XY");
    one.edit(4..4, "Z");
    assert_eq!(one.buffer.text(), "aXYbZc");
    let version = one.buffer.version();
    let operation = Operation::Edit(EditOperation {
        timestamp: InsertionTimestamp { replica_id: 1, local: 1, lamport: 2 },
        version,
        ranges,
        new_text: if text.is_empty() { None } else { Some(text.to_string()) },
    });
    (one, operation)
}

#[test]
fn an_edit_that_is_older_than_what_it_has_seen_is_applied() {
    // Its text goes after the newer text.
    let (mut one, operation) = older_edit(vec![1..1], "-");
    one.receive(&[operation]);
    assert_eq!(one.buffer.text(), "aXY-bZc");
    // Within the newer text it goes where it says.
    let (mut one, operation) = older_edit(vec![2..2], "-");
    one.receive(&[operation]);
    assert_eq!(one.buffer.text(), "aX-YbZc");
    let (mut one, operation) = older_edit(vec![2..4], "-");
    one.receive(&[operation]);
    assert_eq!(one.buffer.text(), "aX-Zc");
    // Several ranges.
    let (mut one, operation) = older_edit(vec![1..1, 1..1, 5..5], "-");
    one.receive(&[operation]);
    assert_eq!(one.buffer.text(), "aXY--bZ-c");
    let (mut one, operation) = older_edit(vec![1..1, 4..5], "");
    assert_eq!(
        one.buffer.apply_ops(vec![operation], &mut one.cx),
        Err(Error::InvalidOperation)
    );
    // It would hide text before the place that its own text has gone to.
    let (mut one, operation) = older_edit(vec![1..2], "-");
    assert_eq!(
        one.buffer.apply_ops(vec![operation], &mut one.cx),
        Err(Error::InvalidOperation)
    );
    assert_eq!(one.buffer.text(), "aXYbZc");
}

#[test]
fn undos_in_batches_of_any_order_are_accepted() {
    let mut one = Replica::new(0, "abcdef");
    let mut sent = one.edit(1..3, "XY");
    one.cx.now += 1_000_000_000;
    sent.extend(one.edit(0..0, "--"));
    one.buffer.undo(&mut one.cx);
    sent.extend(one.sent());
    one.buffer.undo(&mut one.cx);
    sent.extend(one.sent());
    one.buffer.redo(&mut one.cx);
    sent.extend(one.sent());
    assert_eq!(sent.len(), 5);
    for order in [vec![0, 1, 2, 3, 4], vec![1, 2, 0, 3, 4], vec![4, 3, 2, 1, 0]] {
        for size in 1..=5 {
            let mut other = Replica::new(1, "abcdef");
            for batch in order.chunks(size) {
                let batch: Vec<Operation> = batch.iter().map(|i| sent[*i].clone()).collect();
                other.receive(&batch);
            }
            if order[0] == 0 {
                assert_eq!(other.buffer.text(), one.buffer.text());
            }
        }
    }
    assert_eq!(one.buffer.text(), "aXYdef");
}

#[test]
fn an_undo_without_ranges_is_refused() {
    let mut one = Replica::new(1, "abc");
    let undo = UndoOperation {
        id: Local { replica_id: 2, value: 1 },
        counts: LocalMap::new(),
        ranges: vec![],
        version: Global::new(),
    };
    let lamport_timestamp = Lamport { replica_id: 2, value: 1 };
    let result = one
        .buffer
        .apply_ops(vec![Operation::Undo { undo, lamport_timestamp }], &mut one.cx);
    assert_eq!(result, Err(Error::InvalidOperation));
}

#[test]
fn undo_reaches_the_other_replicas() {
    let mut one = Replica::new(1, "abc");
    let mut two = Replica::new(2, "abc");
    let first = one.edit(1..2, "xyz");
    two.receive(&first);
    let second = two.edit(0..0, "-");
    one.receive(&second);
    one.buffer.undo(&mut one.cx);
    let undo = one.sent();
    two.receive(&undo);
    assert_eq!(one.buffer.text(), "-abc");
    assert_eq!(two.buffer.text(), "-abc");
    one.buffer.redo(&mut one.cx);
    let redo = one.sent();
    two.receive(&redo);
    assert_eq!(one.buffer.text(), "-axyzc");
    assert_eq!(two.buffer.text(), "-axyzc");
}

#[test]
fn an_undo_finds_its_edits_whatever_has_come_in_between() {
    let text = "one two three";
    let mut one = Replica::new(1, text);
    let mut two = Replica::new(2, text);
    let mut three = Replica::new(3, text);
    let first = one.edit(4..7, "2");
    one.buffer.undo(&mut one.cx);
    let undo = one.sent();
    // The undo knows of neither of these.
    let second = two.edit(5..6, "WW");
    let third = three.edit(0..4, "");
    assert_eq!(two.buffer.text(), "one tWWo three");
    assert_eq!(three.buffer.text(), "two three");
    one.receive(&third);
    one.receive(&second);
    two.receive(&first);
    assert_eq!(two.buffer.text(), "one 2WW three");
    two.receive(&third);
    two.receive(&undo);
    three.receive(&second);
    three.receive(&first);
    three.receive(&undo);
    assert_eq!(one.buffer.text(), "tWWo three");
    assert_eq!(two.buffer.text(), "tWWo three");
    assert_eq!(three.buffer.text(), "tWWo three");
    // It is done again after them.
    one.buffer.redo(&mut one.cx);
    let redo = one.sent();
    two.receive(&redo);
    three.receive(&redo);
    assert_eq!(one.buffer.text(), "2WW three");
    assert_eq!(two.buffer.text(), "2WW three");
    assert_eq!(three.buffer.text(), "2WW three");
}

#[test]
fn batches_of_any_size_and_order_converge() {
    let text = "abc def";
    let mut one = Replica::new(1, text);
    let mut two = Replica::new(2, text);
    let mut ops = one.edit(0..1, "AA");
    two.receive(&ops);
    ops.extend(two.edit(3..3, "-"));
    one.receive(&ops[1..]);
    ops.extend(one.edit(2..6, ""));
    one.buffer.undo(&mut one.cx);
    ops.extend(one.sent());
    two.receive(&ops[2..]);
    assert_eq!(ops.len(), 4);
    assert_eq!(one.buffer.text(), two.buffer.text());
    let batches: Vec<Vec<Vec<usize>>> = vec![
        vec![vec![0], vec![1], vec![2], vec![3]],
        vec![vec![0, 1, 2, 3]],
        vec![vec![1, 0], vec![2, 3]],
        vec![vec![1], vec![0, 2, 3]],
        vec![vec![2, 1], vec![], vec![0, 3]],
    ];
    for batches in batches {
        let mut three = Replica::new(3, text);
        for batch in &batches {
            let batch: Vec<Operation> = batch.iter().map(|i| ops[*i].clone()).collect();
            three.receive(&batch);
        }
        assert_eq!(three.buffer.deferred_ops_len(), 0);
        assert_eq!(three.buffer.text(), one.buffer.text());
        assert!(three.buffer.version().same_as(&one.buffer.version()));
    }
}

#[test]
fn random_edits_converge() {
    for seed in 0..30 {
        let mut rng = StdRng::seed_from_u64(seed);
        let base = "the quick brown fox\njumps over\n";
        let mut replicas: Vec<Replica> = (1..4).map(|id| Replica::new(id, base)).collect();
        // For each replica, what the others have sent and it has not received.
        let mut inboxes: Vec<Vec<Operation>> = vec![vec![], vec![], vec![]];
        for _ in 0..25 {
            let who = rng.gen_range(0..3);
            if rng.gen_range(0..4) > 0 {
                let replica = &mut replicas[who];
                replica.buffer.randomly_edit(&mut rng, 3, &mut replica.cx);
                let sent = replica.sent();
                for (other, inbox) in inboxes.iter_mut().enumerate() {
                    if other != who {
                        inbox.extend(sent.iter().cloned());
                    }
                }
            } else {
                let count = rng.gen_range(0..=inboxes[who].len());
                let operations: Vec<Operation> = inboxes[who].drain(..count).collect();
                replicas[who].receive(&operations);
            }
        }
        for who in 0..3 {
            let mut operations: Vec<Operation> = inboxes[who].drain(..).collect();
            if rng.gen_bool(0.5) {
                operations.reverse();
            }
            for operation in operations {
                replicas[who].receive(&[operation]);
            }
        }
        assert_eq!(replicas[0].buffer.text(), replicas[1].buffer.text());
        assert_eq!(replicas[1].buffer.text(), replicas[2].buffer.text());
        assert_eq!(replicas[0].buffer.deferred_ops_len(), 0);
        assert_eq!(replicas[2].buffer.deferred_ops_len(), 0);
    }
}

#[test]
fn random_edits_and_undos_converge() {
    for seed in 0..20 {
        let mut rng = StdRng::seed_from_u64(100 + seed);
        let base = "one two three";
        let mut replicas: Vec<Replica> = (1..3).map(|id| Replica::new(id, base)).collect();
        for _ in 0..15 {
            let who = rng.gen_range(0..2);
            let replica = &mut replicas[who];
            replica.cx.now += 1_000_000_000;
            if rng.gen_range(0..3) == 0 {
                replica.buffer.undo(&mut replica.cx);
            } else {
                replica.buffer.randomly_edit(&mut rng, 2, &mut replica.cx);
            }
            let sent = replica.sent();
            replicas[1 - who].receive(&sent);
        }
        assert_eq!(replicas[0].buffer.text(), replicas[1].buffer.text());
    }
}

#[test]
fn changes_of_other_replicas_are_reported() {
    let mut one = Replica::new(1, "abcdef");
    let mut two = Replica::new(2, "abcdef");
    let start = one.buffer.version();
    let before = one.buffer.text();
    let mut sent = two.edit(1..3, "XYZ");
    sent.extend(two.edit(6..7, ""));
    one.receive(&sent);
    let after = one.buffer.text();
    assert_eq!(after, "aXYZdef".replace("f", ""));
    let mut edits = one.buffer.edits_since(start);
    let mut text = before;
    while let Some(edit) = edits.next() {
        let at = edit.new_bytes.start;
        text.replace_range(at..at + edit.deleted_bytes(), &after[edit.new_bytes.clone()]);
    }
    assert_eq!(text, after);
}

#[test]
fn an_edit_is_accepted_after_another_that_it_does_not_know_of() {
    for (first, second) in [(1..3, 2..4), (2..2, 2..2), (0..4, 2..2), (4..4, 0..1)] {
        let mut one = Replica::new(0, "abcd");
        let mut two = Replica::new(1, "abcd");
        let mut three = Replica::new(2, "abcd");
        two.buffer.lamport_clock.value += 1;
        let a = one.edit(first, "X");
        let b = two.edit(second, "Y");
        three.receive(&a);
        three.receive(&b);
        one.receive(&b);
        two.receive(&a);
        assert_eq!(one.buffer.text(), two.buffer.text());
        assert_eq!(one.buffer.text(), three.buffer.text());
    }
}

#[test]
fn the_time_of_a_replica_runs_ahead_of_its_text() {
    let ahead = |one: &Replica| {
        let now = one.buffer.lamport_clock.value;
        one.buffer.fragments.iter().all(|fragment| fragment.timestamp.lamport < now)
    };
    let mut one = Replica::new(0, "abc");
    let mut two = Replica::new(1, "abc");
    assert!(ahead(&one));
    two.buffer.lamport_clock.value = 100;
    let operations = two.edit(1..2, "X");
    one.receive(&operations);
    assert!(ahead(&one));
    assert!(one.buffer.lamport_clock.value > 100);
    let operations = one.edit(0..0, "Y");
    assert!(operations[0].lamport_timestamp().value > 100);
    assert!(ahead(&one));
    one.buffer.undo(&mut one.cx);
    assert!(ahead(&one));
    two.receive(&operations);
    assert!(ahead(&two));
}
