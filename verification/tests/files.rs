use buffer::{Buffer, Effect, Error, Event, File, History, ModelContext};

fn file_at(mtime: u64) -> File {
    File {
        worktree_id: 3,
        entry_id: Some(4),
        mtime,
        path: "src/a.rs".to_string(),
        deleted: false,
    }
}

fn file_buffer(text: &str) -> (Buffer, ModelContext) {
    let mut cx = ModelContext::new(9, 0);
    let buffer = Buffer::from_history(
        0,
        History::new(text.to_string()),
        Some(file_at(100)),
        None,
        &mut cx,
    );
    (buffer, cx)
}

fn events(cx: &mut ModelContext) -> Vec<Event> {
    std::mem::take(&mut cx.effects)
        .into_iter()
        .filter_map(|effect| match effect {
            Effect::Emit(event) => Some(event),
            _ => None,
        })
        .collect()
}

#[test]
fn saving() {
    let (mut buffer, mut cx) = file_buffer("abc");
    assert_eq!(buffer.remote_id(), 9);
    assert!(!buffer.is_dirty());
    buffer.edit(&vec![3usize..3], "d", &mut cx);
    assert!(buffer.is_dirty());
    let request = buffer.save().unwrap();
    assert_eq!(request.buffer_id, 9);
    assert_eq!(request.text.as_bytes(), b"abcd");
    events(&mut cx);
    buffer.did_save(request.version, 200, None, &mut cx);
    assert_eq!(events(&mut cx), vec![Event::Saved]);
    assert!(!buffer.is_dirty());
    assert!(!buffer.has_conflict());
    buffer.edit(&vec![0usize..1], "", &mut cx);
    assert!(buffer.is_dirty());
    assert!(!buffer.has_conflict());
}

#[test]
fn a_buffer_without_a_file_cannot_be_saved() {
    let mut cx = ModelContext::new(1, 0);
    let mut buffer = Buffer::new(0, "abc".to_string(), &mut cx);
    assert!(matches!(buffer.save(), Err(Error::NoFile)));
    assert!(buffer.file().is_none());
    buffer.did_save(buffer.version(), 7, Some(file_at(7)), &mut cx);
    assert_eq!(buffer.file().unwrap().path(), "src/a.rs");
}

#[test]
fn a_file_that_changes_on_disk() {
    let (mut buffer, mut cx) = file_buffer("one\ntwo\nthree\n");
    buffer.file_updated(
        "src/a.rs".to_string(),
        101,
        Some("one\n2\nthree\n".to_string()),
        &mut cx,
    );
    assert_eq!(cx.effects.len(), 2);
    assert!(matches!(cx.effects[0], Effect::Emit(Event::FileHandleChanged)));
    let mut reload = None;
    for effect in std::mem::take(&mut cx.effects) {
        if let Effect::Reload { new_text, mtime } = effect {
            reload = Some((new_text, mtime));
        }
    }
    let (new_text, mtime) = reload.unwrap();
    assert_eq!(mtime, 101);
    buffer.reload(new_text, mtime, &mut cx);
    assert_eq!(buffer.text(), "one\n2\nthree\n");
    assert!(!buffer.is_dirty());
    assert!(!buffer.has_conflict());
    assert!(events(&mut cx).contains(&Event::Reloaded));
}

#[test]
fn a_file_that_changes_under_unsaved_edits() {
    let (mut buffer, mut cx) = file_buffer("abc");
    buffer.edit(&vec![0usize..0], "x", &mut cx);
    events(&mut cx);
    buffer.file_updated("src/b.rs".to_string(), 101, Some("zzz".to_string()), &mut cx);
    assert_eq!(events(&mut cx), vec![Event::FileHandleChanged]);
    assert_eq!(buffer.text(), "xabc");
    assert!(buffer.has_conflict());
    assert_eq!(buffer.file().unwrap().path(), "src/b.rs");
}

#[test]
fn a_file_that_is_deleted() {
    let (mut buffer, mut cx) = file_buffer("abc");
    buffer.file_mut().unwrap().deleted = true;
    assert!(buffer.is_dirty());
    buffer.file_deleted(&mut cx);
    assert_eq!(events(&mut cx), vec![Event::Dirtied, Event::FileHandleChanged]);
    buffer.close(&mut cx);
    assert_eq!(events(&mut cx), vec![Event::Closed]);
    buffer.release(&mut cx);
    assert!(matches!(cx.effects[0], Effect::Removed));
}

#[test]
fn what_is_known_of_a_file() {
    let mut file = file_at(5);
    file.set_entry_id(None);
    file.set_mtime(6);
    file.set_path("b".to_string());
    assert_eq!(file.worktree_id(), 3);
    assert_eq!(file.entry_id(), None);
    assert_eq!(file.mtime(), 6);
    assert_eq!(file.path(), "b");
    assert!(!file.is_deleted());
    assert_eq!(file.clone().path(), "b");
}
