use std::sync::Arc;

use buffer::highlight::Highlights;
use buffer::buffer_syntax::{innermost_pair, smallest_other};
use buffer::indent::{RowMap, contiguous_ranges};
use buffer::syntax::{Capture, TreeEdit, parse_text};
use buffer::{
    Buffer, Effect, Event, HighlightId, HighlightMap, History, Language, ModelContext, Point, Rope,
};

fn rust() -> Arc<Language> {
    let ids = vec![HighlightId(1), HighlightId(2)];
    let language = Language::new(
        "Rust".to_string(),
        tree_sitter_rust::language(),
        "(function_item name: (identifier) @name) (string_literal) @string",
        "(\"{\" @open \"}\" @close) (\"(\" @open \")\" @close)",
        "(block \"}\" @end) @indent (_ \"(\" \")\" @end) @indent",
        HighlightMap { ids },
    );
    Arc::new(language.unwrap())
}

/// Parses what is to be parsed, and indents what is to be indented, until
/// nothing is left to do.
fn settle(buffer: &mut Buffer, cx: &mut ModelContext) -> Vec<Event> {
    let mut events = Vec::new();
    while !cx.effects.is_empty() {
        for effect in std::mem::take(&mut cx.effects) {
            match effect {
                Effect::Emit(event) => events.push(event),
                Effect::Parse(task) => {
                    let tree =
                        parse_text(&task.text, task.old_tree.as_ref(), &task.language).unwrap();
                    buffer.finish_parsing(tree, task.version, false, cx);
                }
                Effect::Autoindent(task) => buffer.finish_autoindent(&task.run(), cx),
                _ => {}
            }
        }
    }
    events
}

fn rust_buffer(text: &str) -> (Buffer, ModelContext) {
    let mut cx = ModelContext::new(1, 0);
    let mut buffer = Buffer::from_history(
        0,
        History::new(text.to_string()),
        None,
        Some(rust()),
        &mut cx,
    );
    assert!(buffer.is_parsing());
    settle(&mut buffer, &mut cx);
    assert!(!buffer.is_parsing());
    (buffer, cx)
}

fn tree_text(buffer: &mut Buffer) -> String {
    buffer.syntax_tree().unwrap().root_node().to_sexp()
}

#[test]
fn malformed_queries_make_no_language() {
    let language = Language::new(
        "Rust".to_string(),
        tree_sitter_rust::language(),
        "(no_such_node) @x",
        "",
        "",
        HighlightMap { ids: vec![] },
    );
    assert!(language.is_none());
}

#[test]
fn a_query_that_ends_with_an_unknown_name_makes_no_language() {
    for source in ["(foo", "(function_item foo:", "(function_item) (#eq? @foo", "foo", "(block) @"] {
        let language = Language::new(
            "Rust".to_string(),
            tree_sitter_rust::language(),
            "",
            "",
            source,
            HighlightMap { ids: vec![] },
        );
        assert!(language.is_none());
    }
}

#[test]
fn a_tree_of_another_language_does_not_help() {
    let json = Language::new(
        "JSON".to_string(),
        tree_sitter_json::language(),
        "",
        "",
        "",
        HighlightMap { ids: vec![] },
    )
    .unwrap();
    let text = Rope::from_text("[1, {\"a\": 2}]");
    let fresh = parse_text(&text, None, &json).unwrap();
    let other = parse_text(&text, None, &rust()).unwrap();
    let tree = parse_text(&text, Some(&other), &json).unwrap();
    assert_eq!(tree.root_node().to_sexp(), fresh.root_node().to_sexp());
    assert_eq!(tree.language(), tree_sitter_json::language());
    assert_eq!(other.language(), tree_sitter_rust::language());
    assert_ne!(other.root_node().to_sexp(), fresh.root_node().to_sexp());

    // A buffer that gets another language is parsed with that one.
    let (mut buffer, mut cx) = rust_buffer("fn a() {}");
    buffer.set_language(Some(Arc::new(json)), &mut cx);
    settle(&mut buffer, &mut cx);
    assert_eq!(buffer.syntax_tree().unwrap().language(), tree_sitter_json::language());
}

#[test]
fn the_text_is_parsed_again_after_edits() {
    let (mut buffer, mut cx) = rust_buffer("fn a() {}");
    assert_eq!(buffer.parse_count(), 1);
    assert!(tree_text(&mut buffer).contains("function_item"));
    assert!(!tree_text(&mut buffer).contains("parameter "));
    buffer.edit(&vec![5usize..5], "b: C", &mut cx);
    assert!(buffer.is_parsing());
    let events = settle(&mut buffer, &mut cx);
    assert!(events.contains(&Event::Reparsed));
    assert_eq!(buffer.parse_count(), 2);
    assert!(tree_text(&mut buffer).contains("type_identifier"));
}

#[test]
fn edits_while_parsing_ask_for_another_parse() {
    let (mut buffer, mut cx) = rust_buffer("fn a() {}");
    buffer.edit(&vec![9usize..9], " fn b() {}", &mut cx);
    let tasks: Vec<_> = std::mem::take(&mut cx.effects);
    buffer.edit(&vec![0usize..0], "struct S; ", &mut cx);
    for effect in tasks {
        if let Effect::Parse(task) = effect {
            let tree = parse_text(&task.text, task.old_tree.as_ref(), &task.language).unwrap();
            buffer.finish_parsing(tree, task.version, false, &mut cx);
        }
    }
    assert!(buffer.is_parsing());
    settle(&mut buffer, &mut cx);
    assert!(!buffer.is_parsing());
    assert!(tree_text(&mut buffer).contains("struct_item"));
    assert_eq!(buffer.parse_count(), 3);
}

#[test]
fn another_language_asks_for_another_parse() {
    let (mut buffer, mut cx) = rust_buffer("fn a() {}");
    let tree = buffer.syntax_tree().unwrap();
    let version = buffer.version();
    buffer.finish_parsing(tree, version, true, &mut cx);
    assert!(buffer.is_parsing());
    settle(&mut buffer, &mut cx);
    buffer.set_language(None, &mut cx);
    assert!(buffer.language().is_none());
    assert!(!buffer.is_parsing());
}

#[test]
fn an_old_tree_moves_with_the_text() {
    let (mut buffer, mut cx) = rust_buffer("fn a() {}");
    buffer.edit(&vec![0usize..0], "    ", &mut cx);
    let tree = buffer.syntax_tree().unwrap();
    let node = tree.root_node().child(0).unwrap();
    assert_eq!(node.kind(), "function_item");
    assert_eq!(node.start_byte(), 4);
    assert_eq!(node.start_position().column, 4);
    let edit = TreeEdit {
        start_byte: 0,
        old_end_byte: 0,
        new_end_byte: 4,
        start_position: Point::new(0, 0),
        old_end_position: Point::new(0, 0),
        new_end_position: Point::new(0, 4),
    };
    assert_eq!(edit.new_end_byte, 4);
}

#[test]
fn a_tree_that_was_brought_up_to_date_is_kept() {
    let (mut buffer, mut cx) = rust_buffer("fn a() {}");
    let first = buffer.version();
    // Asking for another parse brings the tree up to date.
    buffer.edit(&vec![0usize..0], "    ", &mut cx);
    let second = buffer.version();
    assert!(second.greater_than(&first));
    let kept = buffer.syntax_tree.as_ref().unwrap();
    assert!(kept.version.same_as(&second));
    assert_eq!(kept.tree.root_node().child(0).unwrap().start_byte(), 4);
    // A later edit, with that parse still on the way, leaves the tree alone.
    buffer.edit(&vec![0usize..2], "", &mut cx);
    assert!(buffer.syntax_tree.as_ref().unwrap().version.same_as(&second));
    // Looking at the tree brings it up to date once more.
    let tree = buffer.syntax_tree().unwrap();
    assert_eq!(tree.root_node().child(0).unwrap().start_byte(), 2);
    let third = buffer.version();
    assert!(buffer.syntax_tree.as_ref().unwrap().version.same_as(&third));
    let snapshot = buffer.snapshot();
    let node = snapshot.tree.as_ref().unwrap().root_node().child(0).unwrap();
    assert_eq!(node.start_byte(), 2);
}

#[test]
fn brackets_around_a_range() {
    let text = "mod x { fn f(a: B) { g(1) } }";
    let (mut buffer, _) = rust_buffer(text);
    let pair = buffer.enclosing_bracket_ranges(23usize..24).unwrap();
    assert_eq!(pair, (22..23, 24..25));
    let pair = buffer.enclosing_bracket_ranges(20usize..21).unwrap();
    assert_eq!(pair, (19..20, 26..27));
    let pair = buffer.enclosing_bracket_ranges(Point::new(0, 8)..Point::new(0, 10)).unwrap();
    assert_eq!(pair, (6..7, 28..29));
    let points = buffer.enclosing_bracket_point_ranges(8usize..10).unwrap();
    assert_eq!(points.0, Point::new(0, 6)..Point::new(0, 7));
    assert_eq!(points.1, Point::new(0, 28)..Point::new(0, 29));
    assert!(buffer.enclosing_bracket_ranges(1usize..2).is_none());
}

#[test]
fn the_innermost_of_some_pairs() {
    let at = |index: u32, start: usize, end: usize| Capture::new(index, start, end, (0, 0), (0, 0));
    let matches = vec![
        vec![at(0, 0, 1), at(1, 20, 21)],
        vec![at(0, 5, 6)],
        vec![at(1, 9, 10), at(0, 3, 4)],
        vec![at(0, 4, 5), at(1, 10, 11)],
    ];
    assert_eq!(innermost_pair(&matches, 0, 1), Some(((3, 4), (9, 10))));
    assert_eq!(innermost_pair(&vec![], 0, 1), None);
}

#[test]
fn larger_and_larger_nodes() {
    let text = "fn a() { b(|c| {}) }";
    let (mut buffer, _) = rust_buffer(text);
    let first = buffer.range_for_syntax_ancestor(12usize..12).unwrap();
    assert_eq!(&text[first.clone()], "c");
    let second = buffer.range_for_syntax_ancestor(first).unwrap();
    assert_eq!(&text[second.clone()], "|c|");
    let third = buffer.range_for_syntax_ancestor(second).unwrap();
    assert_eq!(&text[third.clone()], "|c| {}");
    let all = buffer.range_for_syntax_ancestor(0usize..text.len());
    assert_eq!(all, None);
    assert_eq!(smallest_other(&vec![(1, 2), (1, 2), (0, 4)], 1, 2), Some(0..4));
}

#[test]
fn highlighted_text() {
    let text = "fn abc() { \"x\" }";
    let (mut buffer, _) = rust_buffer(text);
    let snapshot = buffer.snapshot();
    let mut chunks = snapshot.highlighted_text_for_range(0usize..text.len());
    let mut found = Vec::new();
    while let Some((part, id)) = chunks.next() {
        found.push((part, id));
    }
    let none = HighlightId::default();
    assert_eq!(
        found,
        vec![
            ("fn ".to_string(), none),
            ("abc".to_string(), HighlightId(1)),
            ("() { ".to_string(), none),
            ("\"x\"".to_string(), HighlightId(2)),
            (" }".to_string(), none),
        ]
    );
    assert_eq!(chunks.offset(), text.len());
    let all: String = found.into_iter().map(|(part, _)| part).collect();
    assert_eq!(all, text);
}

#[test]
fn highlighted_text_from_the_middle() {
    let text = "fn abc() { \"xyz\" }";
    let (mut buffer, _) = rust_buffer(text);
    let snapshot = buffer.snapshot();
    let mut chunks = snapshot.highlighted_text_for_range(0usize..text.len());
    assert_eq!(chunks.next(), Some(("fn ".to_string(), HighlightId::default())));
    chunks.seek(13);
    assert_eq!(chunks.offset(), 13);
    assert_eq!(chunks.next(), Some(("yz\"".to_string(), HighlightId(2))));
    assert_eq!(chunks.next(), Some((" }".to_string(), HighlightId::default())));
    assert_eq!(chunks.next(), None);
    let mut part = snapshot.highlighted_text_for_range(4usize..8);
    assert_eq!(part.next(), Some(("bc".to_string(), HighlightId(1))));
    assert_eq!(part.next(), Some(("()".to_string(), HighlightId::default())));
    assert_eq!(part.next(), None);
}

#[test]
fn text_without_a_language_is_not_highlighted() {
    let mut cx = ModelContext::new(1, 0);
    let mut buffer = Buffer::new(0, "fn a() {}".to_string(), &mut cx);
    let snapshot = buffer.snapshot();
    let mut chunks = snapshot.highlighted_text_for_range(0usize..9);
    assert_eq!(chunks.next(), Some(("fn a() {}".to_string(), HighlightId(u32::MAX))));
    assert_eq!(chunks.next(), None);
    let map = HighlightMap { ids: vec![HighlightId(5)] };
    assert_eq!(map.get(0), HighlightId(5));
    assert_eq!(map.get(1), HighlightId::default());
    let _ = Highlights::new(vec![], 0, map);
}

#[test]
fn a_new_line_in_a_block_is_indented() {
    let (mut buffer, mut cx) = rust_buffer("fn a() {}");
    buffer.edit_with_autoindent(&vec![8usize..8], "\n\n", &mut cx);
    settle(&mut buffer, &mut cx);
    assert_eq!(buffer.text(), "fn a() {\n    \n}");
    buffer.edit_with_autoindent(
        &vec![Point::new(1, 4)..Point::new(1, 4)],
        "b()\n",
        &mut cx,
    );
    settle(&mut buffer, &mut cx);
    assert_eq!(buffer.text(), "fn a() {\n    b()\n    \n}");
}

#[test]
fn indenting_is_dropped_when_the_text_changes() {
    let (mut buffer, mut cx) = rust_buffer("fn a() {}");
    buffer.edit_with_autoindent(&vec![8usize..8], "\nx\n", &mut cx);
    let mut task = None;
    for effect in std::mem::take(&mut cx.effects) {
        if let Effect::Parse(parse) = effect {
            let tree = parse_text(&parse.text, parse.old_tree.as_ref(), &parse.language).unwrap();
            buffer.finish_parsing(tree, parse.version, false, &mut cx);
        }
    }
    for effect in std::mem::take(&mut cx.effects) {
        if let Effect::Autoindent(found) = effect {
            task = Some(found);
        }
    }
    let task = task.unwrap();
    assert!(task.has_few_rows());
    let columns = task.run();
    assert_eq!(columns.get(1), Some(4));
    buffer.edit(&vec![0usize..0], " ", &mut cx);
    buffer.finish_autoindent(&columns, &mut cx);
    assert_eq!(buffer.text(), " fn a() {\nx\n}");
}

#[test]
fn a_row_is_moved_to_a_column() {
    let mut cx = ModelContext::new(1, 0);
    let mut buffer = Buffer::new(0, "a\n  b\nc".to_string(), &mut cx);
    buffer.set_indent_column_for_line(1, 5, &mut cx);
    assert_eq!(buffer.text(), "a\n     b\nc");
    buffer.set_indent_column_for_line(1, 1, &mut cx);
    assert_eq!(buffer.text(), "a\n b\nc");
    buffer.set_indent_column_for_line(0, 2, &mut cx);
    assert_eq!(buffer.text(), "  a\n b\nc");
    buffer.set_indent_column_for_line(0, 2, &mut cx);
    assert_eq!(buffer.text(), "  a\n b\nc");
}

#[test]
fn rows_in_runs() {
    assert_eq!(
        contiguous_ranges(&vec![1, 2, 3, 5, 6, 9, 10, 11, 12], 100),
        vec![1..4, 5..7, 9..13]
    );
    assert_eq!(
        contiguous_ranges(&vec![1, 2, 3, 5, 6, 9, 10, 11, 12], 3),
        vec![1..4, 5..7, 9..12, 12..13]
    );
    let mut map = RowMap::new();
    map.insert(4, 1);
    map.insert(2, 7);
    map.insert(4, 3);
    assert_eq!(map.keys(), vec![2, 4]);
    assert_eq!(map.values(), vec![7, 3]);
    assert_eq!(map.get(3), None);
}

#[test]
fn how_long_a_change_waits_for_the_tree() {
    let (mut buffer, _) = rust_buffer("fn a() {}");
    assert_eq!(buffer.sync_parse_timeout, 1_000_000);
    buffer.set_sync_parse_timeout(50);
    assert_eq!(buffer.sync_parse_timeout, 50);
    assert_eq!(Rope::from_text("é").len(), 2);
}
