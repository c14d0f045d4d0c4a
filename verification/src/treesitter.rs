//! The Markdown syntax tree, through tree-sitter. A tree value is opaque;
//! the uninterpreted `tree_source` records which text the tree is a parse
//! of: a fresh parse pins it directly, and an incremental reparse with an
//! exact edit descriptor pins it to the edited text, which is tree-sitter's
//! documented equivalence between the two paths. What the logic reads off
//! the tree — the top-level sections and the paragraph/list blocks — is
//! selected by tree-sitter's query engine and named as a function of the
//! parsed text (`md_sections`, `md_blocks`), since the parse is
//! deterministic in the text.

use vstd::prelude::*;
use vstd::string::StringSliceAdditionalSpecFns;
use tree_sitter::StreamingIterator;
use crate::text::{line_at, line_start_of, splice_bytes};

verus! {

#[verifier::external_type_specification]
#[verifier::external_body]
pub struct ExTree(tree_sitter::Tree);

/// The bytes the tree is a parse of, under the Markdown block grammar.
pub uninterp spec fn tree_source(t: tree_sitter::Tree) -> Seq<u8>;

/// The spans the query engine reports for the paragraph and list nodes of
/// the parse of `src`, in the order matches are found (the traversal
/// order, so a nested block follows the block containing it).
pub uninterp spec fn md_blocks(src: Seq<u8>) -> Seq<(usize, usize)>;

/// The spans the query engine reports for the top-level sections of the
/// parse of `src` that open with a heading: for each, the heading's title
/// span and the section node's own span, in match order.
pub uninterp spec fn md_sections(src: Seq<u8>) -> Seq<(usize, usize, usize, usize)>;

/// Relies on tree_sitter::Parser::parse with the tree-sitter-md block
/// grammar: with a language set and no cancellation configured, it returns
/// a (possibly error-carrying) tree for the given text.
#[verifier::external_body]
pub fn md_parse(text: &str) -> (t: tree_sitter::Tree)
    ensures
        tree_source(t) == text.spec_bytes(),
{
    let mut parser = tree_sitter::Parser::new();
    parser
        .set_language(&tree_sitter_md::LANGUAGE.into())
        .expect("the Markdown grammar is version-compatible");
    parser.parse(text.as_bytes(), None).expect("no cancellation is configured")
}

/// Relies on tree_sitter::Tree::edit and Parser::parse with an old tree:
/// once the tree is told the exact byte/point span of the edit, reparsing
/// the edited text with it as the hint yields a tree equivalent to a fresh
/// parse of that text. The point rows are line numbers and the point
/// columns are byte offsets within the line, as tree-sitter expects.
#[verifier::external_body]
pub fn md_reparse(
    old: tree_sitter::Tree,
    start_byte: usize,
    old_end_byte: usize,
    new_end_byte: usize,
    start_point: (usize, usize),
    old_end_point: (usize, usize),
    new_end_point: (usize, usize),
    new_text: &str,
) -> (t: tree_sitter::Tree)
    requires
        start_byte <= old_end_byte <= tree_source(old).len(),
        new_text.spec_bytes() == splice_bytes(
            tree_source(old),
            start_byte as int,
            old_end_byte as int,
            new_text.spec_bytes().subrange(start_byte as int, new_end_byte as int),
        ),
        start_byte <= new_end_byte <= new_text.spec_bytes().len(),
        start_point.0 == line_at(tree_source(old), start_byte as int),
        start_point.1 == start_byte - line_start_of(tree_source(old), start_byte as int),
        old_end_point.0 == line_at(tree_source(old), old_end_byte as int),
        old_end_point.1 == old_end_byte - line_start_of(
            tree_source(old),
            old_end_byte as int,
        ),
        new_end_point.0 == line_at(new_text.spec_bytes(), new_end_byte as int),
        new_end_point.1 == new_end_byte - line_start_of(
            new_text.spec_bytes(),
            new_end_byte as int,
        ),
    ensures
        tree_source(t) == new_text.spec_bytes(),
{
    let mut old = old;
    let (s, o, n) = (start_point, old_end_point, new_end_point);
    old.edit(&tree_sitter::InputEdit {
        start_byte,
        old_end_byte,
        new_end_byte,
        start_position: tree_sitter::Point { row: s.0, column: s.1 },
        old_end_position: tree_sitter::Point { row: o.0, column: o.1 },
        new_end_position: tree_sitter::Point { row: n.0, column: n.1 },
    });
    let mut parser = tree_sitter::Parser::new();
    parser.set_language(&tree_sitter_md::LANGUAGE.into()).expect("compatible grammar");
    parser.parse(new_text.as_bytes(), Some(&old)).expect("no cancellation is configured")
}

/// Relies on tree_sitter::Query and QueryCursor::matches: the fixed
/// pattern selects every `paragraph` and `list` node of the tree, and each
/// match hands out one captured node, whose byte span is copied.
#[verifier::external_body]
pub fn tree_blocks(t: &tree_sitter::Tree, text: &str) -> (r: Vec<(usize, usize)>)
    requires
        text.spec_bytes() == tree_source(*t),
    ensures
        r@ == md_blocks(tree_source(*t)),
{
    let q = tree_sitter::Query::new(
        &tree_sitter_md::LANGUAGE.into(),
        "[(paragraph) (list)] @block",
    ).expect("the pattern fits the grammar");
    let mut cursor = tree_sitter::QueryCursor::new();
    let mut ms = cursor.matches(&q, t.root_node(), text.as_bytes());
    let mut out = Vec::new();
    while let Some(m) = ms.next() {
        out.push((m.captures()[0].node.start_byte(), m.captures()[0].node.end_byte()));
    }
    out
}

/// Relies on tree_sitter::Query and QueryCursor::matches: the fixed
/// pattern selects every `section` node directly under the document root
/// whose first child is an ATX heading, capturing the heading's `inline`
/// title node and the section node; both byte spans are copied.
#[verifier::external_body]
pub fn tree_sections(t: &tree_sitter::Tree, text: &str) -> (r: Vec<
    (usize, usize, usize, usize),
>)
    requires
        text.spec_bytes() == tree_source(*t),
    ensures
        r@ == md_sections(tree_source(*t)),
{
    let q = tree_sitter::Query::new(
        &tree_sitter_md::LANGUAGE.into(),
        "(document (section . (atx_heading (inline) @title)) @sec)",
    ).expect("the pattern fits the grammar");
    let mut cursor = tree_sitter::QueryCursor::new();
    let mut ms = cursor.matches(&q, t.root_node(), text.as_bytes());
    let mut out = Vec::new();
    while let Some(m) = ms.next() {
        if let (Some(ti), Some(se)) =
            (m.nodes_for_capture_index(0).next(), m.nodes_for_capture_index(1).next()) {
            out.push((ti.start_byte(), ti.end_byte(), se.start_byte(), se.end_byte()));
        }
    }
    out
}

} // verus!
