use tree_sitter::{Parser, Query, QueryCursor};
use vstd::prelude::*;

verus! {

/// One node of the syntax tree that a query has captured: the name of the
/// capture, the kind of the node in the grammar, and the bytes `start..end`
/// that the node takes.
#[derive(PartialEq, Eq, Debug)]
pub struct Capture {
    pub name: String,
    pub kind: String,
    pub start: usize,
    pub end: usize,
}

/// A capture with its two names as texts.
pub struct CapturedNode {
    pub name: Seq<char>,
    pub kind: Seq<char>,
    pub start: usize,
    pub end: usize,
}

impl View for Capture {
    type V = CapturedNode;

    open spec fn view(&self) -> CapturedNode {
        CapturedNode { name: self.name@, kind: self.kind@, start: self.start, end: self.end }
    }
}

impl Capture {
    /// The capture named `name` of a node of the kind `kind` that takes the
    /// bytes `start..end`.
    pub fn new(name: &str, kind: &str, start: usize, end: usize) -> (capture: Capture)
        ensures
            capture@ == (CapturedNode { name: name@, kind: kind@, start, end }),
    {
        Capture { name: name.to_owned(), kind: kind.to_owned(), start, end }
    }
}

/// The captures, each as its view.
pub open spec fn capture_views(captures: Seq<Capture>) -> Seq<CapturedNode> {
    Seq::new(captures.len(), |i: int| captures[i]@)
}

/// What the query `query` captures in the Rust source `text`, match by
/// match and, within a match, capture by capture; `None` where the query
/// cannot be compiled or the parser gives no tree.
pub uninterp spec fn query_captures(query: Seq<char>, text: Seq<char>) -> Option<Seq<CapturedNode>>;

/// Parses `text` with the Rust grammar of `tree_sitter_rust`, compiles `query`
/// with `Query::new`, and runs it over the whole tree with
/// `QueryCursor::matches`. The parser is new, has no time limit and works on
/// `text` alone, so what it captures depends on the two texts only.
#[verifier::external_body]
pub(crate) fn run_query(query: &str, text: &str) -> (found: Option<Vec<Capture>>)
    ensures
        match found {
            Some(captures) => query_captures(query@, text@) == Some(capture_views(captures@)),
            None => query_captures(query@, text@) is None,
        },
{
    let grammar = tree_sitter_rust::language();
    let mut parser = Parser::new();
    parser.set_language(&grammar).ok()?;
    let query = Query::new(&grammar, query).ok()?;
    let tree = parser.parse(text, None)?;
    let names = query.capture_names();
    let mut found = Vec::new();
    for matched in QueryCursor::new().matches(&query, tree.root_node(), text.as_bytes()) {
        for c in matched.captures {
            let node = c.node;
            found.push(Capture::new(names[c.index as usize], node.grammar_name(), node.start_byte(), node.end_byte()));
        }
    }
    Some(found)
}

} // verus!
