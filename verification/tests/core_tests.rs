use ls_core::document::{
    Anchor, Change, Document, Indentation, InsertOptions, Position, Range, RemoveOptions,
};
use ls_core::oops::Oops;
use ls_core::util::{byte_index_to_cp, cp_index_to_byte, push_all_at, slice, substring};

#[test]
fn indentation_measure() {
    let indent = Indentation::spaces(2);
    assert_eq!(indent.measure("    "), (4, 4));
    assert_eq!(indent.measure("\t\t Hello \t there"), (5, 3));
    assert_eq!(indent.measure(""), (0, 0));
    assert_eq!(indent.measure("x"), (0, 0));
}

#[test]
fn indentation_produce() {
    assert_eq!(Indentation::spaces(3).produce(6), "      ");
    assert_eq!(Indentation::tabs(3).produce(6), "\t\t");
    assert_eq!(Indentation::tabs(3).produce(11), "\t\t\t  ");
    assert_eq!(Indentation::tabs(4).produce(0), "");
}

#[test]
fn indentation_indent() {
    assert_eq!(Indentation::spaces(4).indent("    Hello", -1, true), "Hello");
    assert_eq!(Indentation::spaces(4).indent("    Hello", -1, false), "");
    assert_eq!(Indentation::spaces(4).indent("    Hello", 1, true), "        Hello");
    assert_eq!(Indentation::spaces(4).indent("    Hello", 1, false), "        ");
    assert_eq!(Indentation::tabs(4).indent("     Hello", -1, true), " Hello");
    assert_eq!(Indentation::tabs(4).indent("     Hello", -1, false), " ");
    assert_eq!(Indentation::tabs(4).indent("     Hello", 1, true), "\t\t Hello");
    assert_eq!(Indentation::tabs(4).indent("     Hello", 1, false), "\t\t ");
    // A dedent past the left edge clamps at an empty margin.
    assert_eq!(Indentation::spaces(4).indent("  x", -5, true), "x");
}

#[test]
fn string_utilities() {
    let s = "Ɣa🙈◧"; // UTF-8 widths: 2, 1, 4, 3
    assert_eq!(byte_index_to_cp(s, 0), Some(0));
    assert_eq!(byte_index_to_cp(s, 1), None);
    assert_eq!(byte_index_to_cp(s, 2), Some(1));
    assert_eq!(byte_index_to_cp(s, 3), Some(2));
    assert_eq!(byte_index_to_cp(s, 4), None);
    assert_eq!(byte_index_to_cp(s, 5), None);
    assert_eq!(byte_index_to_cp(s, 6), None);
    assert_eq!(byte_index_to_cp(s, 7), Some(3));
    assert_eq!(byte_index_to_cp(s, 8), None);
    assert_eq!(byte_index_to_cp(s, 9), None);
    assert_eq!(byte_index_to_cp(s, 10), Some(4));
    assert_eq!(byte_index_to_cp(s, 11), None);

    assert_eq!(cp_index_to_byte(s, 0), Some(0));
    assert_eq!(cp_index_to_byte(s, 1), Some(2));
    assert_eq!(cp_index_to_byte(s, 2), Some(3));
    assert_eq!(cp_index_to_byte(s, 3), Some(7));
    assert_eq!(cp_index_to_byte(s, 4), Some(10));
    assert_eq!(cp_index_to_byte(s, 5), None);

    assert_eq!(substring("hello", 1, 3), "ell");
    assert_eq!(substring("hello", 4, 10), "o");
    assert_eq!(substring("hello", 9, 2), "");
    assert_eq!(substring("Ɣa🙈◧", 1, 2), "a🙈");
    assert_eq!(slice("hello", 1, 4), "ell");
    assert_eq!(slice("hello", 0, 5), "hello");

    let mut items = vec![3, 7, 1];
    push_all_at(&mut items, 0, &[0, 2]);
    assert_eq!(items, &[0, 2, 3, 7, 1]);
    push_all_at(&mut items, 0, &[]);
    assert_eq!(items, &[0, 2, 3, 7, 1]);
    push_all_at(&mut items, 3, &[10, 11]);
    assert_eq!(items, &[0, 2, 3, 10, 11, 7, 1]);
    push_all_at(&mut items, 7, &[12, 13]);
    assert_eq!(items, &[0, 2, 3, 10, 11, 7, 1, 12, 13]);

    // Inserting nothing is a no-op whatever the offset.
    push_all_at(&mut items, 99, &[]);
    assert_eq!(items, &[0, 2, 3, 10, 11, 7, 1, 12, 13]);

    // Everything can be inserted into an empty vector whatever the offset.
    let mut empty: Vec<i32> = vec![];
    push_all_at(&mut empty, 5, &[8, 9]);
    assert_eq!(empty, &[8, 9]);
}

#[test]
fn document_construction() {
    let document = Document::new();
    assert_eq!(document.text(), "");
    assert_eq!(document.anchors().len(), 2);
    assert_eq!(document.cursor().position, Position { row: 0, column: 0 });
    assert_eq!(document.undo_redo().depth(), (0, 0));

    let empty = Document::from("");
    assert_eq!(empty.text(), Document::new().text());
    assert_eq!(empty.rows(), 1);

    let multi = Document::from("\nHello\n  there!\n");
    assert_eq!(multi.rows(), 4);
    assert_eq!(multi.lines()[0].content, "");
    assert_eq!(multi.lines()[1].content, "Hello");
    assert_eq!(multi.lines()[2].content, "  there!");
    assert_eq!(multi.lines()[3].content, "");
}

#[test]
fn position_and_range_validity() {
    let document = Document::from("Hello\n  there!");
    assert_eq!(true, document.position_valid(&Position { row: 0, column: 0 }));
    assert_eq!(true, document.position_valid(&Position { row: 0, column: 5 }));
    assert_eq!(false, document.position_valid(&Position { row: 0, column: 6 }));
    assert_eq!(false, document.position_valid(&Position { row: 2, column: 0 }));

    let p_1 = Position { row: 0, column: 0 };
    let p_2 = Position { row: 0, column: 5 };
    let p_3 = Position { row: 0, column: 6 };
    let p_4 = Position { row: 1, column: 2 };
    let p_5 = Position { row: 2, column: 0 };

    assert_eq!(true, document.range_valid(&Range { beginning: p_1, ending: p_1 }));
    assert_eq!(true, document.range_valid(&Range { beginning: p_1, ending: p_4 }));
    assert_eq!(true, document.range_valid(&Range { beginning: p_2, ending: p_4 }));
    assert_eq!(false, document.range_valid(&Range { beginning: p_2, ending: p_1 }));
    assert_eq!(false, document.range_valid(&Range { beginning: p_2, ending: p_3 }));
    assert_eq!(false, document.range_valid(&Range { beginning: p_5, ending: p_5 }));
}

#[test]
fn text_range_examples() {
    let document = Document::from("Hello\nthere\ncaptain!");
    assert_eq!(document.text_range(&Range::from(0, 0, 0, 0)), Some("".to_string()));
    assert_eq!(document.text_range(&Range::from(0, 0, 0, 1)), Some("H".to_string()));
    assert_eq!(document.text_range(&Range::from(0, 2, 0, 5)), Some("llo".to_string()));
    assert_eq!(document.text_range(&Range::from(0, 0, 1, 0)), Some("Hello\n".to_string()));
    assert_eq!(
        document.text_range(&Range::from(0, 2, 2, 3)),
        Some("llo\nthere\ncap".to_string())
    );
    assert_eq!(document.text_range(&Range::from(0, 5, 1, 0)), Some("\n".to_string()));
    assert_eq!(document.text_range(&Range::from(0, 0, 0, 10)), None);
    assert_eq!(document.text_range(&Range::from(1, 1, 0, 2)), None);
}

#[test]
fn scenario_simple_text() {
    // A document built from text hands the same text back.
    let document = Document::from("Hello\nthere");
    assert_eq!(document.text(), "Hello\nthere");
}

#[test]
fn scenario_insert_inverse() {
    // Inserting one character records exactly the removal that undoes it.
    let mut document = Document::from("AB");
    let inverse = document.insert_untracked(&vec!["X".to_string()], &Position::from(0, 0));
    assert_eq!(document.text(), "XAB");
    assert_eq!(inverse, Change::Remove { range: Range::from(0, 0, 0, 1) });
    inverse.apply_untracked(&mut document);
    assert_eq!(document.text(), "AB");
}

#[test]
fn scenario_anchor_rebase() {
    // An anchor on the insertion row shifts with the inserted text: the
    // third character of the first row sits after the inserted tail.
    let mut document = Document::from("AAA\nBBB");
    let h = document.create_anchor(&Anchor::from(0, 2)).unwrap();
    document.insert("Z\nY", &InsertOptions::exact_at(&Range::from(0, 0, 0, 0))).unwrap();
    assert_eq!(document.text(), "Z\nYAAA\nBBB");
    assert_eq!(document.anchor(h).unwrap().position, Position::from(1, 3));
}

#[test]
fn scenario_remove_undo_restores_anchors() {
    // Removing a span over two rows and undoing restores text and anchors.
    let mut document = Document::from("AAA\nBBB");
    let h = document.create_anchor(&Anchor::from(1, 2)).unwrap();
    document.checkpoint();
    document.remove(&RemoveOptions::exact_at(&Range::from(0, 1, 1, 1))).unwrap();
    assert_eq!(document.text(), "ABB");
    assert_eq!(document.anchor(h).unwrap().position, Position::from(0, 2));
    document.undo(1).unwrap();
    assert_eq!(document.text(), "AAA\nBBB");
    assert_eq!(document.anchor(h).unwrap().position, Position::from(1, 2));
    assert_eq!(document.cursor().position, Position::from(0, 0));
}

#[test]
fn checkpoint_grouping() {
    // Two inserts separated by one checkpoint undo as two separate steps.
    let mut document = Document::from("");
    document.insert("one", &InsertOptions::exact()).unwrap();
    document.checkpoint();
    document.insert("two", &InsertOptions::exact()).unwrap();
    assert_eq!(document.text(), "onetwo");
    assert_eq!(document.undo_redo().depth(), (2, 0));
    document.undo(1).unwrap();
    assert_eq!(document.text(), "one");
    document.undo(1).unwrap();
    assert_eq!(document.text(), "");

    // Two inserts with no checkpoint between them undo as one step.
    let mut document = Document::from("");
    document.insert("one", &InsertOptions::exact()).unwrap();
    document.insert("two", &InsertOptions::exact()).unwrap();
    assert_eq!(document.text(), "onetwo");
    assert_eq!(document.undo_redo().depth(), (1, 0));
    document.undo(1).unwrap();
    assert_eq!(document.text(), "");
}

#[test]
fn checkpoint_idempotent() {
    let mut document = Document::from("");
    document.checkpoint();
    document.checkpoint();
    document.insert("a", &InsertOptions::exact()).unwrap();
    document.checkpoint();
    document.checkpoint();
    document.insert("b", &InsertOptions::exact()).unwrap();
    assert_eq!(document.undo_redo().depth(), (2, 0));
}

#[test]
fn unicode_emoji_columns() {
    // A 2-codepoint emoji takes two columns, and a removal may split it.
    let mut document = Document::from("ab");
    document.insert("👋🏻", &InsertOptions::exact_at(&Range::from(0, 1, 0, 1))).unwrap();
    assert_eq!(document.lines()[0].length, 4);
    document.remove(&RemoveOptions::exact_at(&Range::from(0, 1, 0, 2))).unwrap();
    assert_eq!(document.lines()[0].length, 3);
    assert_eq!(document.text(), "a\u{1F3FB}b");
}

#[test]
fn undo_redo_symmetry() {
    // Redoing after undoing restores the exact pre-undo document.
    let mut document = Document::from_with_language("fn main() {}", "rs");
    let h = document.create_anchor(&Anchor::from(0, 4)).unwrap();
    document.checkpoint();
    document
        .insert("pub ", &InsertOptions::exact_at(&Range::from(0, 0, 0, 0)))
        .unwrap();
    document.checkpoint();
    document.set_language("js").unwrap();
    let text_before = document.text();
    let anchor_before = document.anchor(h).unwrap().position;

    document.undo(2).unwrap();
    assert_eq!(document.text(), "fn main() {}");
    assert_eq!(document.anchor(h).unwrap().position, Position::from(0, 4));

    document.redo(2).unwrap();
    assert_eq!(document.text(), text_before);
    assert_eq!(document.anchor(h).unwrap().position, anchor_before);
}

#[test]
fn error_variants() {
    let mut document = Document::from("Hello");
    assert_eq!(
        document.set_anchor(99, &Anchor::from(0, 0)).unwrap_err(),
        Oops::NonexistentAnchor(99)
    );
    assert_eq!(document.remove_anchor(0).unwrap_err(), Oops::CannotRemoveAnchor(0));
    assert_eq!(document.remove_anchor(77).unwrap_err(), Oops::NonexistentAnchor(77));
    match document.set_cursor(&Position::from(9, 9)).unwrap_err() {
        Oops::InvalidPosition(p, _) => assert_eq!(p, Position::from(9, 9)),
        other => panic!("expected InvalidPosition, got {:?}", other),
    }
    match document
        .insert("x", &InsertOptions::exact_at(&Range::from(0, 0, 0, 9)))
        .unwrap_err()
    {
        Oops::InvalidRange(g, _) => assert_eq!(g, Range::from(0, 0, 0, 9)),
        other => panic!("expected InvalidRange, got {:?}", other),
    }
    match document.insert("", &InsertOptions::exact()).unwrap_err() {
        Oops::EmptyString(_) => {}
        other => panic!("expected EmptyString, got {:?}", other),
    }
    match document.remove(&RemoveOptions::exact()).unwrap_err() {
        Oops::InvalidRange(g, _) => assert_eq!(g, Range::from(0, 0, 0, 0)),
        other => panic!("expected InvalidRange, got {:?}", other),
    }
    match document
        .set_selection(&Range { beginning: Position::from(0, 4), ending: Position::from(0, 1) })
        .unwrap_err()
    {
        Oops::InvalidRange(_, _) => {}
        other => panic!("expected InvalidRange, got {:?}", other),
    }
    assert_eq!(document.redo(1).unwrap_err(), Oops::NoMoreRedos(0));
}

#[test]
fn selection_driven_editing() {
    let mut document = Document::from("Hello world");
    document.set_selection(&Range::from(0, 5, 0, 11)).unwrap();
    assert_eq!(document.mark().position, Position::from(0, 5));
    assert_eq!(document.cursor().position, Position::from(0, 11));
    assert_eq!(document.selection(), Range::from(0, 5, 0, 11));
    document.insert(", friend", &InsertOptions::exact()).unwrap();
    assert_eq!(document.text(), "Hello, friend");
}

#[test]
fn round_trip_from_text() {
    // Splitting on construction and joining on rendering are exact inverses.
    for text in ["", "a", "a\nb", "\n", "a\n", "\nb", "one\n\nthree\n"] {
        let document = Document::from(text);
        assert_eq!(document.text(), text);
    }
}

#[test]
fn insert_remove_inverse() {
    // Removing exactly the span an insertion produced restores the text and
    // every anchor to its pre-insert position.
    let mut document = Document::from("AAA\nBBB");
    let h = document.create_anchor(&Anchor::from(1, 2)).unwrap();
    let before = document.text();
    document.insert("X\nYZ", &InsertOptions::exact_at(&Range::from(0, 1, 0, 1))).unwrap();
    assert_eq!(document.text(), "AX\nYZAA\nBBB");
    assert_eq!(document.anchor(h).unwrap().position, Position::from(2, 2));
    document.remove(&RemoveOptions::exact_at(&Range::from(0, 1, 1, 2))).unwrap();
    assert_eq!(document.text(), before);
    assert_eq!(document.anchor(h).unwrap().position, Position::from(1, 2));
}

#[test]
fn empty_insert_still_removes_selection() {
    // Inserting nothing is rejected, but only after the non-empty target
    // range has already been removed as its own tracked step.
    let mut document = Document::from("Hello");
    document.set_selection(&Range::from(0, 0, 0, 2)).unwrap();
    document.checkpoint();
    match document.insert("", &InsertOptions::exact()) {
        Err(Oops::EmptyString(_)) => {}
        other => panic!("expected EmptyString, got {:?}", other),
    }
    assert_eq!(document.text(), "llo");
    document.undo(1).unwrap();
    assert_eq!(document.text(), "Hello");
}

#[test]
fn line_lookup() {
    let document = Document::from("Hello\nthere");
    assert_eq!(document.line(0), Some(&"Hello".to_string()));
    assert_eq!(document.line(1), Some(&"there".to_string()));
    assert_eq!(document.line(2), None);
}
