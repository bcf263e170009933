//! Syntax trees, and the languages they are made with.

use tree_sitter::Language as Grammar;
use tree_sitter::{Query, Tree};
use vstd::prelude::*;
use vstd::utf8::*;

use crate::clock::Global;
use crate::point::Point;

verus! {

#[verifier::external_type_specification]
#[verifier::external_body]
pub struct ExTree(tree_sitter::Tree);

#[verifier::external_type_specification]
#[verifier::external_body]
pub struct ExQuery(tree_sitter::Query);

#[verifier::external_type_specification]
#[verifier::external_body]
pub struct ExGrammar(Grammar);

/// A node that a pattern of a query named: the name, and where the node lies,
/// in bytes and in rows and columns.
#[derive(Clone, Copy, Debug, PartialEq, Eq, Structural)]
pub struct Capture {
    pub index: u32,
    pub start_byte: usize,
    pub end_byte: usize,
    pub start_point: Point,
    pub end_point: Point,
}

impl Capture {
    pub fn new(
        index: u32,
        start_byte: usize,
        end_byte: usize,
        start: (usize, usize),
        end: (usize, usize),
    ) -> (capture: Capture)
        ensures
            capture == (Capture {
                index,
                start_byte,
                end_byte,
                start_point: Point { row: start.0 as u32, column: start.1 as u32 },
                end_point: Point { row: end.0 as u32, column: end.1 as u32 },
            }),
    {
        Capture {
            index,
            start_byte,
            end_byte,
            start_point: Point {
                row: #[verifier::truncate] (start.0 as u32),
                column: #[verifier::truncate] (start.1 as u32),
            },
            end_point: Point {
                row: #[verifier::truncate] (end.0 as u32),
                column: #[verifier::truncate] (end.1 as u32),
            },
        }
    }
}

/// An edit of a text whose syntax tree is kept up to date: where it starts,
/// and where the text that it replaced and the text in its place end.
#[derive(Clone, Copy, Debug, PartialEq, Eq, Structural)]
pub struct TreeEdit {
    pub start_byte: usize,
    pub old_end_byte: usize,
    pub new_end_byte: usize,
    pub start_position: Point,
    pub old_end_position: Point,
    pub new_end_position: Point,
}

/// The grammar that a tree was made with.
pub uninterp spec fn grammar_of(tree: Tree) -> Grammar;

/// The tree that parsing a text gives.
pub uninterp spec fn parsed(
    grammar: Grammar,
    text: Seq<u8>,
    old_tree: Option<Tree>,
) -> Option<Tree>;

/// The tree that is left after an edit of its text.
pub uninterp spec fn edited_tree(tree: Tree, edit: TreeEdit) -> Tree;

/// The query that a source text stands for.
pub uninterp spec fn compiled(grammar: Grammar, source: Seq<char>) -> Option<Query>;

/// The number of a capture name in a query.
pub uninterp spec fn capture_index(query: Query, name: Seq<char>) -> Option<u32>;

/// The byte ranges of the smallest node that spans a range, and of the nodes
/// around it, going outwards.
pub uninterp spec fn enclosing_nodes(tree: Tree, start: usize, end: usize) -> Seq<(usize, usize)>;

/// The matches of a query in a range of bytes.
pub uninterp spec fn matches_in_bytes(
    query: Query,
    tree: Tree,
    text: Seq<u8>,
    start: usize,
    end: usize,
) -> Seq<Seq<Capture>>;

/// The matches of a query from the start of a row to the start of another.
pub uninterp spec fn matches_in_rows(
    query: Query,
    tree: Tree,
    text: Seq<u8>,
    start: u32,
    end: u32,
) -> Seq<Seq<Capture>>;

/// The captures of a query in a range of bytes.
pub uninterp spec fn captures_in_bytes(
    query: Query,
    tree: Tree,
    text: Seq<u8>,
    start: usize,
    end: usize,
) -> Seq<Capture>;

/// What an optional tree means.
pub open spec fn tree_of(tree: Option<&Tree>) -> Option<Tree> {
    match tree {
        Some(tree) => Some(*tree),
        None => None,
    }
}

/// Calls `tree_sitter::Tree::language`, which names the grammar that the tree was
/// made with.
#[verifier::external_body]
fn tree_grammar(tree: &Tree) -> (grammar: Grammar)
    ensures
        grammar == grammar_of(*tree),
{
    tree.language()
}

/// Calls `tree_sitter::Language::eq`, which says whether two grammars are the
/// same one.
#[verifier::external_body]
fn same_grammar(a: Grammar, b: Grammar) -> (same: bool)
    ensures
        same == (a == b),
{
    a == b
}

/// Calls `tree_sitter::Parser::parse` with a fresh parser for the grammar: the
/// result depends on the grammar, the text and the old tree alone, there is none
/// if the grammar does not fit the parser, and a tree knows its grammar. An old
/// tree has to be one of the same grammar: the parser looks its symbols up there.
/// It counts bytes in 32 bits, so the text has to be short enough for that.
#[verifier::external_body]
fn parse(grammar: Grammar, text: &[u8], old_tree: Option<&Tree>) -> (tree: Option<
    Tree,
>)
    requires
        text@.len() <= u32::MAX,
        old_tree is Some ==> grammar_of(*old_tree->0) == grammar,
    ensures
        tree == parsed(grammar, text@, tree_of(old_tree)),
        tree is Some ==> grammar_of(tree->0) == grammar,
{
    let mut parser = tree_sitter::Parser::new();
    match parser.set_language(grammar) {
        Ok(()) => parser.parse(text, old_tree),
        Err(_) => None,
    }
}

/// Calls `tree_sitter::Tree::clone`, which gives a tree that is equal to the
/// one given.
#[verifier::external_body]
pub(crate) fn clone_tree(tree: &Tree) -> (copy: Tree)
    ensures
        copy == *tree,
{
    tree.clone()
}

/// Calls `tree_sitter::Tree::edit`, which moves the nodes of the tree as the
/// edit moves the text, and leaves it a tree of the same grammar.
#[verifier::external_body]
pub(crate) fn edit_tree(tree: &mut Tree, edit: TreeEdit)
    ensures
        *final(tree) == edited_tree(*old(tree), edit),
        grammar_of(*final(tree)) == grammar_of(*old(tree)),
{
    let point = |p: Point| tree_sitter::Point { row: p.row as usize, column: p.column as usize };
    tree.edit(
        &tree_sitter::InputEdit {
            start_byte: edit.start_byte,
            old_end_byte: edit.old_end_byte,
            new_end_byte: edit.new_end_byte,
            start_position: point(edit.start_position),
            old_end_position: point(edit.old_end_position),
            new_end_position: point(edit.new_end_position),
        },
    )
}

/// Calls `tree_sitter::Query::new`, which compiles the patterns of a source
/// text; there is no query if the source is malformed. To report an unknown name
/// it looks for the end of the name, so the source has to end with something that
/// is not part of a name.
#[verifier::external_body]
fn compile(grammar: Grammar, source: &str) -> (query: Option<Query>)
    requires
        source@.len() > 0,
        source@.last() == '\n',
    ensures
        query == compiled(grammar, source@),
{
    match Query::new(grammar, source) {
        Ok(query) => Some(query),
        Err(_) => None,
    }
}

/// Calls `tree_sitter::Query::capture_index_for_name`, which numbers the names
/// that a query gives to nodes.
#[verifier::external_body]
pub(crate) fn capture_index_for_name(query: &Query, name: &str) -> (index: Option<u32>)
    ensures
        index == capture_index(*query, name@),
{
    query.capture_index_for_name(name)
}

/// Calls `tree_sitter::Node::descendant_for_byte_range` on the root, and
/// `tree_sitter::Node::parent` on what it gives and on, and hands the byte
/// ranges of these nodes back.
#[verifier::external_body]
pub(crate) fn nodes_around(tree: &Tree, start: usize, end: usize) -> (ranges: Vec<(usize, usize)>)
    ensures
        ranges@ == enclosing_nodes(*tree, start, end),
{
    let node = tree.root_node().descendant_for_byte_range(start, end);
    std::iter::successors(node, |node| node.parent())
        .map(|node| (node.start_byte(), node.end_byte()))
        .collect()
}

/// What a list of matches means.
pub open spec fn match_models(matches: Seq<Vec<Capture>>) -> Seq<Seq<Capture>> {
    matches.map_values(|m: Vec<Capture>| m@)
}

/// Calls `tree_sitter::QueryCursor::matches` for a range of bytes, and hands
/// over where the nodes of each match lie.
#[verifier::external_body]
pub(crate) fn query_bytes(
    query: &Query,
    tree: &Tree,
    text: &[u8],
    start: usize,
    end: usize,
) -> (matches: Vec<Vec<Capture>>)
    ensures
        match_models(matches@) == matches_in_bytes(*query, *tree, text@, start, end),
{
    let at = |p: tree_sitter::Point| (p.row, p.column);
    let place = |c: &tree_sitter::QueryCapture| {
        let r = c.node.range();
        Capture::new(c.index, r.start_byte, r.end_byte, at(r.start_point), at(r.end_point))
    };
    let text = |n: tree_sitter::Node| text.get(n.byte_range()).into_iter();
    let mut cursor = tree_sitter::QueryCursor::new();
    let matches = cursor.set_byte_range(start..end).matches(query, tree.root_node(), text);
    matches.map(|m| m.captures.iter().map(place).collect()).collect()
}

/// Calls `tree_sitter::QueryCursor::matches` from the start of one row
/// to the start of another, and hands over where the nodes of each match lie.
#[verifier::external_body]
pub(crate) fn query_rows(
    query: &Query,
    tree: &Tree,
    text: &[u8],
    start: u32,
    end: u32,
) -> (matches: Vec<Vec<Capture>>)
    ensures
        match_models(matches@) == matches_in_rows(*query, *tree, text@, start, end),
{
    let at = |p: tree_sitter::Point| (p.row, p.column);
    let place = |c: &tree_sitter::QueryCapture| {
        let r = c.node.range();
        Capture::new(c.index, r.start_byte, r.end_byte, at(r.start_point), at(r.end_point))
    };
    let text = |n: tree_sitter::Node| text.get(n.byte_range()).into_iter();
    let row = |row: u32| tree_sitter::Point::new(row as usize, 0);
    let mut cursor = tree_sitter::QueryCursor::new();
    cursor.set_point_range(row(start)..row(end));
    let matches = cursor.matches(query, tree.root_node(), text);
    matches.map(|m| m.captures.iter().map(place).collect()).collect()
}

/// Calls `tree_sitter::QueryCursor::captures` for a range of bytes, and hands
/// over where the nodes lie, in the order in which they appear.
#[verifier::external_body]
pub(crate) fn query_captures(
    query: &Query,
    tree: &Tree,
    text: &[u8],
    start: usize,
    end: usize,
) -> (captures: Vec<Capture>)
    ensures
        captures@ == captures_in_bytes(*query, *tree, text@, start, end),
{
    let at = |p: tree_sitter::Point| (p.row, p.column);
    let place = |c: &tree_sitter::QueryCapture| {
        let r = c.node.range();
        Capture::new(c.index, r.start_byte, r.end_byte, at(r.start_point), at(r.end_point))
    };
    let text = |n: tree_sitter::Node| text.get(n.byte_range()).into_iter();
    let mut cursor = tree_sitter::QueryCursor::new();
    let captures = cursor.set_byte_range(start..end).captures(query, tree.root_node(), text);
    captures.map(|(m, i)| place(&m.captures[i])).collect()
}

/// How a piece of text is highlighted.
#[derive(Clone, Copy, Debug, PartialEq, Eq, Structural)]
pub struct HighlightId(pub u32);

impl Default for HighlightId {
    fn default() -> (id: Self)
        ensures
            id == no_highlight(),
    {
        HighlightId(u32::MAX)
    }
}

/// No highlighting.
pub open spec fn no_highlight() -> HighlightId {
    HighlightId(u32::MAX)
}

/// How each capture of a highlighting query is highlighted.
#[derive(Debug)]
pub struct HighlightMap {
    pub ids: Vec<HighlightId>,
}

/// How a capture is highlighted; not at all if the map does not say.
pub open spec fn highlight_of(ids: Seq<HighlightId>, capture: u32) -> HighlightId {
    if capture < ids.len() {
        ids[capture as int]
    } else {
        no_highlight()
    }
}

impl HighlightMap {
    pub fn get(&self, capture: u32) -> (id: HighlightId)
        ensures
            id == highlight_of(self.ids@, capture),
    {
        if (capture as usize) < self.ids.len() {
            self.ids[capture as usize]
        } else {
            HighlightId(u32::MAX)
        }
    }
}

impl Clone for HighlightMap {
    fn clone(&self) -> (copy: Self)
        ensures
            copy.ids@ == self.ids@,
    {
        let ids = self.ids.clone();
        assert(ids@ =~= self.ids@);
        HighlightMap { ids }
    }
}

/// A language: its grammar, and the queries that find its brackets, its indents
/// and what to highlight.
pub struct Language {
    pub name: String,
    pub grammar: Grammar,
    pub highlights_query: Query,
    pub brackets_query: Query,
    pub indents_query: Query,
    pub highlight_map: HighlightMap,
}

/// A source text with the end of its last line.
pub open spec fn ended_line(source: Seq<char>) -> Seq<char> {
    source.push('\n')
}

/// Compiles a source text, once its last line has been ended.
fn compile_lines(grammar: Grammar, source: &str) -> (query: Option<Query>)
    ensures
        query == compiled(grammar, ended_line(source@)),
{
    let mut lines = String::new();
    lines.append(source);
    lines.append("\n");
    proof {
        reveal_strlit("\n");
        assert(lines@ =~= ended_line(source@));
    }
    compile(grammar, lines.as_str())
}

impl Language {
    /// A language with the given grammar and the given sources of its queries;
    /// none if one of them is malformed.
    pub fn new(
        name: String,
        grammar: Grammar,
        highlights: &str,
        brackets: &str,
        indents: &str,
        highlight_map: HighlightMap,
    ) -> (language: Option<Language>)
        ensures
            match language {
                Some(language) => {
                    &&& language.name == name
                    &&& language.grammar == grammar
                    &&& compiled(grammar, ended_line(highlights@)) == Some(
                        language.highlights_query,
                    )
                    &&& compiled(grammar, ended_line(brackets@)) == Some(language.brackets_query)
                    &&& compiled(grammar, ended_line(indents@)) == Some(language.indents_query)
                    &&& language.highlight_map == highlight_map
                },
                None => compiled(grammar, ended_line(highlights@)) is None || compiled(
                    grammar,
                    ended_line(brackets@),
                ) is None || compiled(grammar, ended_line(indents@)) is None,
            },
    {
        let highlights_query = compile_lines(grammar, highlights);
        let brackets_query = compile_lines(grammar, brackets);
        let indents_query = compile_lines(grammar, indents);
        match (highlights_query, brackets_query, indents_query) {
            (Some(highlights_query), Some(brackets_query), Some(indents_query)) => Some(
                Language {
                    name,
                    grammar,
                    highlights_query,
                    brackets_query,
                    indents_query,
                    highlight_map,
                },
            ),
            _ => None,
        }
    }

    pub fn highlight_map(&self) -> (map: HighlightMap)
        ensures
            map.ids@ == self.highlight_map.ids@,
    {
        self.highlight_map.clone()
    }
}

/// A syntax tree, and the version of the text it was made for.
pub struct SyntaxTree {
    pub tree: Tree,
    pub version: Global,
}

impl Clone for SyntaxTree {
    fn clone(&self) -> (copy: Self)
        ensures
            copy.tree == self.tree,
            copy.version@ == self.version@,
    {
        SyntaxTree { tree: clone_tree(&self.tree), version: self.version.clone() }
    }
}

/// The tree, if it was made with the grammar.
pub open spec fn tree_for(tree: Option<Tree>, grammar: Grammar) -> Option<Tree> {
    match tree {
        Some(tree) => if grammar_of(tree) == grammar {
            Some(tree)
        } else {
            None
        },
        None => None,
    }
}

/// Parses a text with the help of an earlier tree, if that is one of the same
/// language; gives nothing if the language's grammar does not fit the parser.
pub fn parse_text(text: &crate::rope::Rope, old_tree: Option<&Tree>, language: &Language) -> (tree:
    Option<Tree>)
    requires
        text@.len() <= u32::MAX,
    ensures
        tree == parsed(
            language.grammar,
            text@,
            tree_for(tree_of(old_tree), language.grammar),
        ),
        tree is Some ==> grammar_of(tree->0) == language.grammar,
{
    let usable = match old_tree {
        Some(tree) => if same_grammar(tree_grammar(tree), language.grammar) {
            Some(tree)
        } else {
            None
        },
        None => None,
    };
    parse(language.grammar, text.as_bytes(), usable)
}

} // verus!
