use buffer::builder::RopeBuilder;
use buffer::clock::{Global, Lamport, Local};
use buffer::fragment::{Fragment, FragmentTextSummary, InsertionTimestamp};
use buffer::local_map::LocalMap;
use buffer::operation_queue::OperationQueue;
use buffer::shared::{Flatten, MainThread, Reference, SharedString};
use buffer::undo_map::UndoMap;
use buffer::{Bias, Buffer, Error, History, ModelContext, Operation, Point, Rope};
use rand::SeedableRng;
use rand::rngs::StdRng;

fn local(replica_id: u16, value: u32) -> Local {
    Local { replica_id, value }
}

#[test]
fn clocks_tick() {
    let mut clock = Local::new(3);
    assert_eq!(clock.tick(), local(3, 1));
    assert_eq!(clock.tick(), local(3, 2));
    clock.observe(local(3, 9));
    clock.observe(local(4, 99));
    assert_eq!(clock.tick(), local(3, 10));
    let mut lamport = Lamport::new(3);
    lamport.observe(Lamport { replica_id: 1, value: 5 });
    assert_eq!(lamport.tick(), Lamport { replica_id: 3, value: 6 });
    let a = Lamport { replica_id: 1, value: 5 };
    let b = Lamport { replica_id: 2, value: 5 };
    assert!(b.is_after(&a));
    assert!(!a.is_after(&b));
    assert!(!a.is_after(&a));
}

#[test]
fn versions() {
    let mut a = Global::new();
    a.observe(local(1, 5));
    a.observe(local(1, 3));
    a.observe(local(2, 1));
    assert_eq!(a.get(1), 5);
    assert_eq!(a.get(9), 0);
    assert!(a.observed(local(1, 4)));
    assert!(!a.observed(local(2, 2)));
    let mut b = Global::new();
    b.observe(local(2, 4));
    assert!(!a.at_least(&b));
    assert!(a.changed_since(&b));
    let mut joined = a.clone();
    joined.join(&b);
    assert_eq!(joined.get(1), 5);
    assert_eq!(joined.get(2), 4);
    assert!(joined.greater_than(&a));
    assert!(joined.at_least(&b));
    let mut met = a.clone();
    met.meet(&b);
    assert_eq!(met.get(1), 5);
    assert_eq!(met.get(2), 1);
    assert!(a.observed_any(&a));
    assert!(!Global::new().observed_any(&b));
    assert_eq!(a.entries().len(), 2);
}

#[test]
fn points() {
    let a = Point::new(2, 5);
    let b = Point::new(1, 3);
    assert_eq!(b.plus(Point::new(0, 4)), Point::new(1, 7));
    assert_eq!(b.plus(Point::new(2, 1)), Point::new(3, 1));
    assert_eq!(a.minus(b), Point::new(1, 5));
    assert_eq!(a.minus(Point::new(2, 1)), Point::new(0, 4));
    assert_eq!(b.plus(a.minus(b)), a);
    assert!(b.is_before(&a));
    assert!(!a.is_before(&a));
    assert_eq!(Point::zero(), Point::new(0, 0));
}

#[test]
fn ropes() {
    let mut rope = Rope::new();
    rope.push("one\n");
    rope.append(Rope::from_text("twö"));
    assert_eq!(rope.len(), 8);
    assert_eq!(rope.max_point(), Point::new(1, 4));
    assert_eq!(rope.text_in(4, 8), "twö");
    assert_eq!(rope.slice(0, 4).as_bytes(), b"one\n");
    assert_eq!(rope.to_point(4), Point::new(1, 0));
    assert_eq!(rope.to_offset(Point::new(1, 1)), 5);
    assert_eq!(rope.clip_offset(7, Bias::Left), 6);
    assert_eq!(rope.row_start(1), 4);
    assert_eq!(rope.row_start(2), 8);
    assert_eq!(rope.line_end_from(0), 3);
    let mut cursor = rope.cursor(1);
    assert_eq!(cursor.slice(4).as_bytes(), b"ne\n");
    assert_eq!(cursor.offset(), 4);
    assert_eq!(cursor.summary(6).bytes, 2);
    assert_eq!(cursor.suffix().as_bytes(), "ö".as_bytes());
    let a = Rope::from_text("a\nb").summary();
    let b = Rope::from_text("c\nde").summary();
    assert_eq!(a.plus(b), Rope::from_text("a\nbc\nde").summary());
}

#[test]
fn texts_are_put_together_without_loss() {
    let visible = Rope::from_text("abcdef");
    let deleted = Rope::from_text("xyz");
    let (a, b) = RopeBuilder::new(visible.cursor(0), deleted.cursor(0)).finish();
    assert_eq!((a.as_bytes(), b.as_bytes()), (&b"abcdef"[..], &b"xyz"[..]));
    let mut builder = RopeBuilder::new(visible.cursor(0), deleted.cursor(0));
    builder.push_tree(FragmentTextSummary { visible: 2, deleted: 1 });
    builder.push(1, true, false);
    builder.push_str("NEW");
    builder.push(1, false, true);
    let (a, b) = builder.finish();
    assert_eq!((a.as_bytes(), b.as_bytes()), (&b"abNEWydef"[..], &b"xcz"[..]));
    assert_eq!(a.len() + b.len(), 6 + 3 + 3);
}

#[test]
fn fragments() {
    let timestamp = InsertionTimestamp { replica_id: 1, local: 2, lamport: 3 };
    let mut fragment = Fragment::inserted(timestamp, 4);
    let mut undos = UndoMap::new();
    assert!(fragment.is_visible(&undos));
    fragment.delete(local(2, 1));
    assert!(!fragment.is_visible(&undos));
    assert!(fragment.is_deleted_by(local(2, 1)));
    let mut before = Global::new();
    before.observe(local(1, 2));
    assert!(fragment.was_visible(&before, &undos));
    assert!(!fragment.was_visible(&Global::new(), &undos));
    let mut counts = LocalMap::new();
    counts.insert(local(2, 1), 1);
    undos.insert(local(2, 2), &counts);
    assert!(undos.is_undone(local(2, 1)));
    assert!(!undos.was_undone(local(2, 1), &before));
    assert_eq!(undos.undo_count(local(2, 1)), 1);
    assert!(fragment.is_visible(&undos));
    let summary = fragment.summary();
    assert_eq!(summary.max_version.get(2), 1);
}

#[test]
fn waiting_operations_stay_in_order() {
    let at = |value: u32| Operation::SetActiveSelections {
        set_id: None,
        lamport_timestamp: Lamport { replica_id: 1, value },
    };
    let mut queue = OperationQueue::new();
    queue.insert(vec![at(5), at(2)]);
    queue.insert(vec![at(3), at(5)]);
    assert_eq!(queue.len(), 3);
    let order: Vec<u32> = queue
        .drain()
        .iter()
        .map(|operation| operation.lamport_timestamp().value)
        .collect();
    assert_eq!(order, vec![2, 3, 5]);
    assert_eq!(queue.len(), 0);
}

#[test]
fn wrappers() {
    let mut value = MainThread::new(5);
    assert_eq!(*value, 5);
    *value.deref_mut() = 6;
    assert_eq!(*value, 6);
    let nested: Result<Result<u8, Error>, Error> = Ok(Err(Error::NoFile));
    let flat: Result<u8, Error> = Flatten::<u8>::flatten(nested);
    assert_eq!(flat, Err(Error::NoFile));
    let outer: Result<Result<u8, Error>, Error> = Err(Error::MissingOperation);
    let flat: Result<u8, Error> = Flatten::<u8>::flatten(outer);
    assert_eq!(flat, Err(Error::MissingOperation));
    let plain: Result<u8, Error> = Ok(3);
    assert_eq!(Flatten::<u8>::flatten(plain), Ok(3));
    assert_eq!(SharedString::default().as_ref(), "");
    let text = SharedString::new("abc".to_string());
    assert_eq!(text.clone().as_ref(), "abc");
    assert_eq!(text, SharedString::new("abc".to_string()));
    let mut number = 1;
    let mut reference = Reference::Mutable(&mut number);
    *reference.deref_mut() = 2;
    assert_eq!(*reference.deref(), 2);
    assert_eq!(number, 2);
    assert_eq!(*Reference::Immutable(&number).deref(), 2);
}

#[test]
fn random_changes_keep_the_buffer_whole() {
    for seed in 0..20 {
        let mut rng = StdRng::seed_from_u64(seed);
        let mut cx = ModelContext::new(1, 0);
        let mut buffer = Buffer::new(1, "some text\nto start with".to_string(), &mut cx);
        for step in 0..12 {
            cx.now += 1_000_000_000;
            let before = buffer.text();
            let (ranges, text) = buffer.randomly_mutate(&mut rng, step * 5, &mut cx);
            assert!(ranges.len() == 5 || ranges.last().unwrap().end == before.len());
            let mut expected = before;
            for range in ranges.iter().rev() {
                expected.replace_range(range.clone(), &text);
            }
            assert_eq!(buffer.text(), expected);
            for (_, ranges) in buffer.all_selection_ranges() {
                for range in ranges {
                    assert!(range.start <= buffer.len());
                    assert!(range.end <= buffer.len());
                }
            }
        }
        let edited = buffer.text();
        buffer.randomly_undo_redo(&mut rng, &mut cx);
        assert_eq!(buffer.text().len(), buffer.len());
        let _ = edited;
    }
}

#[test]
fn random_numbers_differ() {
    let mut rng = StdRng::seed_from_u64(1);
    let mut cx = ModelContext::new(1, 0);
    let mut texts = Vec::new();
    for _ in 0..20 {
        let mut buffer = Buffer::new(1, "0123456789".to_string(), &mut cx);
        buffer.randomly_edit(&mut rng, 1, &mut cx);
        texts.push(buffer.text());
    }
    texts.sort();
    texts.dedup();
    assert!(texts.len() > 5);
}

#[test]
fn a_history_holds_its_first_text() {
    let history = History::new("abc".to_string());
    assert_eq!(history.base_text, "abc");
    assert_eq!(history.group_interval, 300_000_000);
    assert!(history.undo_stack.is_empty());
}

#[test]
fn points_beyond_the_largest() {
    let far = Point::new(u32::MAX - 1, u32::MAX - 1);
    assert_eq!(far.plus(Point::new(0, 1)), Point::new(u32::MAX - 1, u32::MAX));
    assert_eq!(far.plus(Point::new(0, 5)), Point::new(u32::MAX - 1, u32::MAX));
    assert_eq!(far.plus(Point::new(5, 3)), Point::new(u32::MAX, 3));
    assert_eq!(Point::new(2, 3).minus(Point::new(2, 1)), Point::new(0, 2));
    assert_eq!(Point::new(4, 3).minus(Point::new(2, 1)), Point::new(2, 3));
    assert_eq!(Point::new(1, 7).next(false), Point::new(1, 8));
    assert_eq!(Point::new(1, 7).next(true), Point::new(2, 0));
    let rope = Rope::from_text("ab\ncd\ne");
    assert_eq!(rope.lines_between(1, 4), Point::new(1, 1));
    assert_eq!(rope.lines_between(4, 5), Point::new(0, 1));
    assert_eq!(rope.to_offset(Point::new(1, 2)), 5);
    assert_eq!(rope.to_offset(Point::new(2, 1)), 7);
}
