use buffer::{Bias, Buffer, ModelContext, Point, ToOffset, ToPoint};

fn text_buffer(text: &str) -> (Buffer, ModelContext) {
    let mut cx = ModelContext::new(1, 0);
    let buffer = Buffer::new(0, text.to_string(), &mut cx);
    (buffer, cx)
}

#[test]
fn anchors_name_the_offset_they_were_made_for() {
    let (mut buffer, mut cx) = text_buffer("abcdef");
    buffer.edit(&vec![2usize..4], "XYZ", &mut cx);
    for offset in 0..=buffer.len() {
        let left = buffer.anchor_before(offset);
        let right = buffer.anchor_after(offset);
        assert_eq!(left.to_offset(&buffer.content()), offset);
        assert_eq!(right.to_offset(&buffer.content()), offset);
    }
}

#[test]
fn anchors_stay_next_to_their_text() {
    let (mut buffer, mut cx) = text_buffer("");
    buffer.edit(&vec![0usize..0], "abc", &mut cx);
    let left = buffer.anchor_before(2usize);
    let right = buffer.anchor_after(2usize);
    buffer.edit(&vec![1usize..1], "def\n", &mut cx);
    assert_eq!(buffer.text(), "adef\nbc");
    assert_eq!(left.to_offset(&buffer.content()), 6);
    assert_eq!(right.to_offset(&buffer.content()), 6);
    assert_eq!(left.to_point(&buffer.content()), Point::new(1, 1));
    buffer.edit(&vec![2usize..3], "", &mut cx);
    assert_eq!(buffer.text(), "adf\nbc");
    assert_eq!(left.to_offset(&buffer.content()), 5);
    assert_eq!(right.to_offset(&buffer.content()), 5);
    buffer.edit(&vec![5usize..5], "ghi\n", &mut cx);
    assert_eq!(buffer.text(), "adf\nbghi\nc");
    assert_eq!(left.to_offset(&buffer.content()), 5);
    assert_eq!(right.to_offset(&buffer.content()), 9);
    buffer.edit(&vec![7usize..9], "", &mut cx);
    assert_eq!(buffer.text(), "adf\nbghc");
    assert_eq!(left.to_offset(&buffer.content()), 5);
    assert_eq!(right.to_offset(&buffer.content()), 7);
    assert_eq!(right.to_point(&buffer.content()), Point::new(1, 3));
}

#[test]
fn anchors_at_the_ends() {
    let (mut buffer, mut cx) = text_buffer("");
    let before_start = buffer.anchor_before(0usize);
    let after_end = buffer.anchor_after(0usize);
    buffer.edit(&vec![0usize..0], "abc", &mut cx);
    assert_eq!(before_start.to_offset(&buffer.content()), 0);
    assert_eq!(after_end.to_offset(&buffer.content()), 3);
    let after_start = buffer.anchor_after(0usize);
    let before_end = buffer.anchor_before(3usize);
    buffer.edit(&vec![3usize..3], "def", &mut cx);
    buffer.edit(&vec![0usize..0], "ghi", &mut cx);
    assert_eq!(buffer.text(), "ghiabcdef");
    assert_eq!(before_start.to_offset(&buffer.content()), 0);
    assert_eq!(after_start.to_offset(&buffer.content()), 3);
    assert_eq!(before_end.to_offset(&buffer.content()), 6);
    assert_eq!(after_end.to_offset(&buffer.content()), 9);
}

#[test]
fn anchors_in_deleted_text() {
    let (mut buffer, mut cx) = text_buffer("abcdef");
    let left = buffer.anchor_before(3usize);
    let right = buffer.anchor_after(3usize);
    buffer.edit(&vec![1usize..5], "", &mut cx);
    assert_eq!(buffer.text(), "af");
    assert_eq!(left.to_offset(&buffer.content()), 1);
    assert_eq!(right.to_offset(&buffer.content()), 1);
    buffer.undo(&mut cx);
    assert_eq!(left.to_offset(&buffer.content()), 3);
    assert_eq!(right.to_offset(&buffer.content()), 3);
}

#[test]
fn maps_and_sets_of_anchors() {
    let (mut buffer, mut cx) = text_buffer("one two three");
    let map = buffer.content().anchor_map(vec![
        ((0, Bias::Left), "a"),
        ((4, Bias::Right), "b"),
        ((8, Bias::Left), "c"),
    ]);
    let ranges = buffer
        .content()
        .anchor_range_map(vec![((0, Bias::Left)..(3, Bias::Right), 1), ((4, Bias::Left)..(7, Bias::Right), 2)]);
    let set = buffer.content().anchor_set(&vec![(3, Bias::Left), (4, Bias::Right)]);
    let range_set = buffer
        .content()
        .anchor_range_set(&vec![(0, Bias::Left)..(3, Bias::Right)]);
    buffer.edit(&vec![4usize..4], "x ", &mut cx);
    let content = buffer.content();
    let found: Vec<(usize, &str)> = content
        .summaries_for_anchors(&map)
        .into_iter()
        .map(|(summary, value)| (summary.bytes, *value))
        .collect();
    assert_eq!(found, vec![(0, "a"), (6, "b"), (10, "c")]);
    let found: Vec<(usize, usize, i32)> = content
        .summaries_for_anchor_ranges(&ranges)
        .into_iter()
        .map(|(range, value)| (range.start.bytes, range.end.bytes, *value))
        .collect();
    assert_eq!(found, vec![(0, 3, 1), (4, 9, 2)]);
    let found: Vec<usize> = content
        .summaries_for_anchors(&set.0)
        .into_iter()
        .map(|(summary, _)| summary.bytes)
        .collect();
    assert_eq!(found, vec![3, 6]);
    let found: Vec<(usize, usize)> = content
        .summaries_for_anchor_ranges(&range_set.0)
        .into_iter()
        .map(|(range, _)| (range.start.bytes, range.end.bytes))
        .collect();
    assert_eq!(found, vec![(0, 3)]);
}

#[test]
fn snapshot_anchors() {
    let (mut buffer, _) = text_buffer("abc");
    let snapshot = buffer.snapshot();
    assert_eq!(snapshot.anchor_before(1usize).to_offset(&snapshot.content()), 1);
    assert_eq!(snapshot.anchor_after(2usize).to_offset(&snapshot.content()), 2);
    assert_eq!(snapshot.anchor_after(2usize).bias, Bias::Right);
}
