use ls_core::document::{Document, InsertOptions, Position, Range, RemoveOptions};

#[test]
fn parsing() {
    let mut document = Document::from_with_language("use hello;", "rs");
    assert_eq!(
        document.parse_tree_pretty_print().unwrap(),
        r#"source_file (0.0 - 0.10) "use hello;"
   use_declaration (0.0 - 0.10) "use hello;"
      use (0.0 - 0.3) "use"
      identifier (0.4 - 0.9) "hello"
      ; (0.9 - 0.10) ";"
"#
    );

    document.checkpoint();
    document.set_cursor_and_mark(&Position::from(0, 9)).unwrap();
    document.insert("::world", &InsertOptions::exact()).unwrap();

    assert_eq!(
        document.parse_tree_pretty_print().unwrap(),
        r#"source_file (0.0 - 0.17) "use hello::world;"
   use_declaration (0.0 - 0.17) "use hello::world;"
      use (0.0 - 0.3) "use"
      scoped_identifier (0.4 - 0.16) "hello::world"
         identifier (0.4 - 0.9) "hello"
         :: (0.9 - 0.11) "::"
         identifier (0.11 - 0.16) "world"
      ; (0.16 - 0.17) ";"
"#
    );

    document.undo(1).unwrap();
    assert_eq!(
        document.parse_tree_pretty_print().unwrap(),
        r#"source_file (0.0 - 0.10) "use hello;"
   use_declaration (0.0 - 0.10) "use hello;"
      use (0.0 - 0.3) "use"
      identifier (0.4 - 0.9) "hello"
      ; (0.9 - 0.10) ";"
"#
    );

    document.checkpoint();
    document.set_language("js").unwrap();
    assert_eq!(
        document.parse_tree_pretty_print().unwrap(),
        r#"program (0.0 - 0.10) "use hello;"
   ERROR (0.0 - 0.3) "use"
      identifier (0.0 - 0.3) "use"
   expression_statement (0.4 - 0.10) "hello;"
      identifier (0.4 - 0.9) "hello"
      ; (0.9 - 0.10) ";"
"#
    );

    document.undo(1).unwrap();
    assert_eq!(
        document.parse_tree_pretty_print().unwrap(),
        r#"source_file (0.0 - 0.10) "use hello;"
   use_declaration (0.0 - 0.10) "use hello;"
      use (0.0 - 0.3) "use"
      identifier (0.4 - 0.9) "hello"
      ; (0.9 - 0.10) ";"
"#
    );
}

#[test]
fn chains() {
    let document = Document::from_with_language(
        r#"
pub fn isPrime(x: u32) -> bool {
    for k in 2..x {
        if x % k == 0 {
            return false;
        }
    }
    true
}
"#,
        "rs",
    );

    assert_eq!(
        &document.get_context_at(&Position::from(9, 0)).unwrap().render(),
        r#"source_file (1, 0)-(9, 0)
"#
    );

    assert_eq!(
        &document.get_context_at(&Position::from(4, 15)).unwrap().render(),
        r#"source_file (1, 0)-(9, 0)
function_item (1, 0)-(8, 1)
block (1, 31)-(8, 1)
expression_statement (2, 4)-(6, 5)
for_expression (2, 4)-(6, 5)
block (2, 18)-(6, 5)
expression_statement (3, 8)-(5, 9)
if_expression (3, 8)-(5, 9)
block (3, 22)-(5, 9)
expression_statement (4, 12)-(4, 25)
return_expression (4, 12)-(4, 24)
return (4, 12)-(4, 18)
"#
    );

    assert_eq!(
        &document.get_context_at(&Position::from(1, 21)).unwrap().render(),
        r#"source_file (1, 0)-(9, 0)
function_item (1, 0)-(8, 1)
parameters (1, 14)-(1, 22)
parameter (1, 15)-(1, 21)
primitive_type (1, 18)-(1, 21)
"#
    );
}

#[test]
fn test_tree_sitter() {
    let code = r#"let 兄弟 = vec!["Ken"];"#;
    let mut doc = Document::from(code);

    doc.insert(r#", "Chad""#, &InsertOptions::exact_at(&Range::from(0, 19, 0, 19))).unwrap();
    assert_eq!(doc.text(), r#"let 兄弟 = vec!["Ken", "Chad"];"#);
}

#[test]
fn context_errors() {
    let no_language = Document::from("Hello");
    match no_language.get_context_at(&Position::from(0, 0)) {
        Err(ls_core::oops::Oops::CannotParse(_)) => {}
        other => panic!("expected CannotParse, got {:?}", other),
    }

    let parsed = Document::from_with_language("use hello;", "rs");
    match parsed.get_context_at(&Position::from(5, 0)) {
        Err(ls_core::oops::Oops::InvalidPosition(p, _)) => {
            assert_eq!(p, Position::from(5, 0));
        }
        other => panic!("expected InvalidPosition, got {:?}", other),
    }

    let unknown = Document::from_with_language("use hello;", "nosuchlang");
    assert!(unknown.parse_tree_pretty_print().is_none());
    match unknown.get_context_at(&Position::from(0, 0)) {
        Err(ls_core::oops::Oops::CannotParse(_)) => {}
        other => panic!("expected CannotParse, got {:?}", other),
    }
}

#[test]
fn remove_splitting_emoji_updates_tree() {
    // A document with multi-codepoint text still parses and reports
    // byte-addressed spans in its listing.
    let document = Document::from_with_language("let a = 1;", "rs");
    let listing = document.parse_tree_pretty_print().unwrap();
    assert!(listing.starts_with("source_file (0.0 - 0.10)"));
}
