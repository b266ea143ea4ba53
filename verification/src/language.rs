//! The language registry: maps a language identifier (a file name
//! extension) to a parser for its grammar.

use crate::ts;
use vstd::prelude::*;

verus! {

/// Relies on `tree_sitter::Language::new` and `tree_sitter_rust::LANGUAGE`:
/// the Rust grammar.
#[verifier::external_body]
fn grammar_rust() -> (r: tree_sitter::Language)
    ensures
        crate::ts::language_of(r) == "rs"@,
{
    tree_sitter::Language::new(tree_sitter_rust::LANGUAGE)
}

/// Relies on `tree_sitter::Language::new` and `tree_sitter_cpp::LANGUAGE`:
/// the C++ grammar.
#[verifier::external_body]
fn grammar_cpp() -> (r: tree_sitter::Language)
    ensures
        crate::ts::language_of(r) == "cpp"@,
{
    tree_sitter::Language::new(tree_sitter_cpp::LANGUAGE)
}

/// Relies on `tree_sitter::Language::new` and `tree_sitter_java::LANGUAGE`:
/// the Java grammar.
#[verifier::external_body]
fn grammar_java() -> (r: tree_sitter::Language)
    ensures
        crate::ts::language_of(r) == "java"@,
{
    tree_sitter::Language::new(tree_sitter_java::LANGUAGE)
}

/// Relies on `tree_sitter::Language::new` and
/// `tree_sitter_javascript::LANGUAGE`: the JavaScript grammar.
#[verifier::external_body]
fn grammar_javascript() -> (r: tree_sitter::Language)
    ensures
        crate::ts::language_of(r) == "js"@,
{
    tree_sitter::Language::new(tree_sitter_javascript::LANGUAGE)
}

/// Relies on `tree_sitter::Language::new` and
/// `tree_sitter_python::LANGUAGE`: the Python grammar.
#[verifier::external_body]
fn grammar_python() -> (r: tree_sitter::Language)
    ensures
        crate::ts::language_of(r) == "py"@,
{
    tree_sitter::Language::new(tree_sitter_python::LANGUAGE)
}

/// Relies on `tree_sitter::Language::new` and
/// `tree_sitter_typescript::LANGUAGE_TYPESCRIPT`: the TypeScript grammar.
#[verifier::external_body]
fn grammar_typescript() -> (r: tree_sitter::Language)
    ensures
        crate::ts::language_of(r) == "ts"@,
{
    tree_sitter::Language::new(tree_sitter_typescript::LANGUAGE_TYPESCRIPT)
}

/// Relies on `tree_sitter::Language::new` and
/// `tree_sitter_typescript::LANGUAGE_TSX`: the TSX grammar.
#[verifier::external_body]
fn grammar_tsx() -> (r: tree_sitter::Language)
    ensures
        crate::ts::language_of(r) == "tsx"@,
{
    tree_sitter::Language::new(tree_sitter_typescript::LANGUAGE_TSX)
}

/// Relies on `tree_sitter::Language::new` and `tree_sitter_bash::LANGUAGE`:
/// the Bash grammar.
#[verifier::external_body]
fn grammar_bash() -> (r: tree_sitter::Language)
    ensures
        crate::ts::language_of(r) == "sh"@,
{
    tree_sitter::Language::new(tree_sitter_bash::LANGUAGE)
}

/// The language identifiers for which a grammar is registered.
pub open spec fn registered(lang: Seq<char>) -> bool {
    ||| lang == "rs"@
    ||| lang == "cpp"@
    ||| lang == "java"@
    ||| lang == "js"@
    ||| lang == "py"@
    ||| lang == "ts"@
    ||| lang == "tsx"@
    ||| lang == "sh"@
}

/// True when `s` reads exactly like the literal `lit`.
fn str_is(s: &str, lit: &str) -> (r: bool)
    ensures
        r == (s@ == lit@),
{
    let a = s.to_owned();
    let b = lit.to_owned();
    a == b
}

/// Returns the grammar registered for `lang_str`, a file name extension, or
/// `None` exactly when no grammar is registered for it.
fn grammar_for(lang_str: &str) -> (r: Option<tree_sitter::Language>)
    ensures
        (match r {
            Some(l) => crate::ts::language_of(l) == lang_str@ && registered(lang_str@),
            None => !registered(lang_str@),
        }),
{
    if str_is(lang_str, "rs") {
        Some(grammar_rust())
    } else if str_is(lang_str, "cpp") {
        Some(grammar_cpp())
    } else if str_is(lang_str, "java") {
        Some(grammar_java())
    } else if str_is(lang_str, "js") {
        Some(grammar_javascript())
    } else if str_is(lang_str, "py") {
        Some(grammar_python())
    } else if str_is(lang_str, "ts") {
        Some(grammar_typescript())
    } else if str_is(lang_str, "tsx") {
        Some(grammar_tsx())
    } else if str_is(lang_str, "sh") {
        Some(grammar_bash())
    } else {
        None
    }
}

/// Renders `node`'s subtree in `doc` as an indented listing: each line shows
/// a node's kind and its byte-addressed span, and, for a node on a single
/// row, the text it spans.
pub fn pretty_print(node: &crate::syntax::SynNode, doc: &crate::document::Document) -> (r: String)
    requires
        doc.repr_wf(),
        crate::syntax::syn_wf(*node, doc.model().lines),
    ensures
        r@ == crate::syntax::pp_spec(*node, Seq::<char>::empty(), doc.model().lines),
{
    let mut out = String::new();
    proof {
        reveal_strlit("");
        assert(""@ =~= Seq::<char>::empty());
    }
    crate::syntax::render_node(node, "", doc.lines(), &mut out);
    out
}

/// Returns a parser set up for `lang_str`, which can be a file name
/// extension, or `None` when no grammar is registered for it or the grammar
/// cannot be loaded.
pub fn get_parser(lang_str: &str) -> (r: Option<tree_sitter::Parser>)
    ensures
        (match r {
            Some(p) => crate::ts::parser_for(p) == lang_str@ && registered(lang_str@),
            None => true,
        }),
        !registered(lang_str@) ==> r is None,
{
    match grammar_for(lang_str) {
        None => None,
        Some(lang) => {
            let mut parser = ts::parser_new();
            if ts::parser_set_language(&mut parser, &lang) {
                Some(parser)
            } else {
                None
            }
        },
    }
}

} // verus!
