//! The trusted boundary to the outside parsing library.
//!
//! The parser, its grammars and its trees are opaque here: a parse is turned
//! into a plain tree of node kinds and byte-addressed coordinates, and
//! everything this crate claims about syntax context is proved downstream of
//! that conversion, for every tree the parser could hand back.

use vstd::prelude::*;

verus! {

#[verifier::external_type_specification]
#[verifier::external_body]
pub struct ExParser(tree_sitter::Parser);

#[verifier::external_type_specification]
#[verifier::external_body]
pub struct ExLanguage(tree_sitter::Language);

#[verifier::external_type_specification]
#[verifier::external_body]
pub struct ExNode<'a>(tree_sitter::Node<'a>);

/// The identifier of the language whose grammar a `Language` value carries.
/// A naming device for the opaque grammar objects: each registry constructor
/// states which identifier its grammar answers to.
pub uninterp spec fn language_of(l: tree_sitter::Language) -> Seq<char>;

/// The identifier of the language a parser is set up for. A naming device
/// for the opaque parser: assigning a grammar fixes it, and parsing keeps it.
pub uninterp spec fn parser_for(p: tree_sitter::Parser) -> Seq<char>;

/// The parse tree that the grammar for `language` produces on `text`, as
/// plain values. For a fixed grammar the parser is deterministic: the same
/// text always yields the same tree, so the result is a function of the
/// language identifier and the text alone.
pub uninterp spec fn parse_of(language: Seq<char>, text: Seq<char>) -> crate::syntax::RawView;

/// One freshly converted parse-tree node: its kind, its byte-addressed
/// start and end coordinates as the parser reports them, and its children
/// in order. Nothing is assumed about these values; they are checked against
/// the document before use.
pub(crate) struct RawNode {
    pub kind: String,
    pub start_row: usize,
    pub start_bcol: usize,
    pub end_row: usize,
    pub end_bcol: usize,
    pub children: Vec<RawNode>,
}

/// Relies on `tree_sitter::Parser::new`: a fresh parser with no language
/// assigned.
#[verifier::external_body]
pub(crate) fn parser_new() -> tree_sitter::Parser {
    tree_sitter::Parser::new()
}

/// Relies on `tree_sitter::Parser::set_language`: assigns a grammar to the
/// parser; reports failure when the grammar was built for an incompatible
/// library version. On success the parser is set up for the grammar's
/// language.
#[verifier::external_body]
pub(crate) fn parser_set_language(p: &mut tree_sitter::Parser, language: &tree_sitter::Language) -> (r:
    bool)
    ensures
        r ==> parser_for(*final(p)) == language_of(*language),
{
    p.set_language(language).is_ok()
}

/// Relies on `tree_sitter::Parser::parse`, `tree_sitter::Tree::root_node`
/// and `tree_sitter::Node::{kind, range, child_count, child}`: a full parse
/// of `text` from scratch, copied over as plain values, or nothing when the
/// parser has no language assigned. Parsing is deterministic for a fixed
/// grammar, so whatever tree comes back is the one named `parse_of` for the
/// parser's language and this text.
#[verifier::external_body]
pub(crate) fn parser_parse_raw(p: &mut tree_sitter::Parser, text: &str) -> (r: Option<RawNode>)
    ensures
        parser_for(*final(p)) == parser_for(*old(p)),
        (match r {
            Some(raw) => crate::syntax::raw_view(raw) == parse_of(parser_for(*old(p)), text@),
            None => true,
        }),
{
    match p.parse(text, None) {
        None => None,
        Some(t) => Some(node_to_raw(t.root_node())),
    }
}

/// Relies on `tree_sitter::Node::{kind, range, child_count, child}`: copies
/// a node's kind, its byte-addressed coordinates and its children, in order,
/// into plain values.
#[verifier::external_body]
fn node_to_raw(node: tree_sitter::Node) -> RawNode {
    let mut children = Vec::new();
    for i in 0..node.child_count() {
        children.push(node_to_raw(node.child(i).unwrap()));
    }
    let range = node.range();
    RawNode {
        kind: node.kind().to_owned(),
        start_row: range.start_point.row,
        start_bcol: range.start_point.column,
        end_row: range.end_point.row,
        end_bcol: range.end_point.column,
        children,
    }
}

} // verus!
