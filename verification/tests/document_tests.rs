use ls_core::document::{
    Anchor, Anchors, Change, Document, InsertOptions, Position, Range, RemoveOptions,
};
use ls_core::oops::Oops;

#[test]
fn set_anchor_untracked() {
    let mut document = Document::from("AAA\nBBB");
    let inverse = document.set_anchor_untracked(
        Anchors::CURSOR,
        &Anchor { position: Position { row: 1, column: 3 } },
    );

    assert_eq!(document.cursor().position, Position { row: 1, column: 3 });

    assert_eq!(
        inverse,
        Change::AnchorSet {
            handle: Anchors::CURSOR,
            value: Anchor { position: Position { row: 0, column: 0 } }
        }
    );
}

#[test]
fn insert_remove_anchor_untracked() {
    let mut document = Document::from("AAA\nBBB");
    let inverse =
        document.insert_anchor_untracked(2, &Anchor { position: Position { row: 1, column: 3 } });

    assert_eq!(document.anchor(2).unwrap().position, Position { row: 1, column: 3 });
    assert_eq!(inverse, Change::AnchorRemove { handle: 2 });

    let inverse_2 = inverse.apply_untracked(&mut document);

    assert_eq!(document.anchors().len(), 2);
    assert_eq!(
        inverse_2,
        Change::AnchorInsert { handle: 2, value: Anchor { position: Position { row: 1, column: 3 } } }
    );
}

#[test]
fn insert_untracked() {
    let mut document = Document::from("AAA\nBBB");

    assert_eq!(
        document.insert_untracked(&vec!["hello".to_string()], &Position { row: 0, column: 0 }),
        Change::Remove {
            range: Range {
                beginning: Position { row: 0, column: 0 },
                ending: Position { row: 0, column: 5 }
            }
        }
    );
    assert_eq!(document.text(), "helloAAA\nBBB");

    assert_eq!(
        document.insert_untracked(
            &vec!["there".to_string(), "friend".to_string()],
            &Position { row: 1, column: 2 }
        ),
        Change::Remove {
            range: Range {
                beginning: Position { row: 1, column: 2 },
                ending: Position { row: 2, column: 6 }
            }
        }
    );
    assert_eq!(document.text(), "helloAAA\nBBthere\nfriendB");

    document.insert_untracked(&vec!["ly".to_string()], &Position { row: 2, column: 7 });
    assert_eq!(document.text(), "helloAAA\nBBthere\nfriendBly");
}

#[test]
fn unicode() {
    let mut document = Document::from("🙈我爱unicode🦄\n매우 짜증나");
    assert_eq!(document.lines()[0].content, "🙈我爱unicode🦄");
    assert_eq!(document.lines()[1].content, "매우 짜증나");
    assert_eq!(document.lines()[0].length, 11);
    assert_eq!(document.lines()[1].length, 6);

    assert_eq!(document.text(), "🙈我爱unicode🦄\n매우 짜증나");

    let chg = document.insert_untracked(
        &vec![
            "👋🏻🤚🏻🖐🏻✋🏻🖖🏻👌🏻".to_string(),
            "⌚️📱📲💻⌨️".to_string(),
            "".to_string(),
        ],
        &Position::from(1, 0),
    );
    assert_eq!(document.text(), "🙈我爱unicode🦄\n👋🏻🤚🏻🖐🏻✋🏻🖖🏻👌🏻\n⌚️📱📲💻⌨️\n매우 짜증나");
    assert_eq!(document.lines()[0].length, 11);
    assert_eq!(document.lines()[1].length, 12);
    assert_eq!(document.lines()[2].length, 7);
    assert_eq!(document.lines()[3].length, 6);

    // Some emojis are two codepoints in a row; those are not protected as an
    // atomic unit. (1, 6) is just after the third hand, (2, 3) just after the
    // second device.
    let chg_2 = document.remove_untracked(&Range::from(1, 6, 2, 3));
    assert_eq!(document.text(), "🙈我爱unicode🦄\n👋🏻🤚🏻🖐🏻📲💻⌨️\n매우 짜증나");
    assert_eq!(document.lines()[0].length, 11);
    assert_eq!(document.lines()[1].length, 10);
    assert_eq!(document.lines()[2].length, 6);

    chg_2.apply_untracked(&mut document);
    assert_eq!(document.text(), "🙈我爱unicode🦄\n👋🏻🤚🏻🖐🏻✋🏻🖖🏻👌🏻\n⌚️📱📲💻⌨️\n매우 짜증나");

    chg.apply_untracked(&mut document);
    assert_eq!(document.text(), "🙈我爱unicode🦄\n매우 짜증나");
    assert_eq!(document.lines()[0].length, 11);
    assert_eq!(document.lines()[1].length, 6);
}

#[test]
fn remove_untracked() {
    let mut document = Document::from("01234\nabcde\nABCDE");

    assert_eq!(
        document.remove_untracked(&Range::from(1, 2, 1, 2)),
        Change::Insert { text: vec!["".to_string()], position: Position::from(1, 2) }
    );
    assert_eq!(document.text(), "01234\nabcde\nABCDE");

    assert_eq!(
        document.remove_untracked(&Range::from(1, 2, 1, 4)),
        Change::Insert { text: vec!["cd".to_string()], position: Position::from(1, 2) }
    );
    assert_eq!(document.text(), "01234\nabe\nABCDE");

    assert_eq!(
        document.remove_untracked(&Range::from(0, 4, 1, 1)),
        Change::Insert {
            text: vec!["4".to_string(), "a".to_string()],
            position: Position::from(0, 4)
        }
    );
    assert_eq!(document.text(), "0123be\nABCDE");
}

#[test]
fn insert_remove_undo_redo() {
    let mut document = Document::from("");

    document.insert("Hello", &InsertOptions::exact()).unwrap();
    assert_eq!(document.text(), "Hello");
    assert_eq!(document.undo_redo().depth(), (1, 0));
    assert_eq!(document.cursor().position, Position::from(0, 5));
    assert_eq!(document.mark().position, Position::from(0, 5));

    document.checkpoint();
    document.insert("\nthere\ncaptain", &InsertOptions::exact()).unwrap();
    assert_eq!(document.text(), "Hello\nthere\ncaptain");
    assert_eq!(document.undo_redo().depth(), (2, 0));
    assert_eq!(document.cursor().position, Position::from(2, 7));
    assert_eq!(document.mark().position, Position::from(2, 7));

    assert_eq!(document.undo(1).unwrap(), 1);
    assert_eq!(document.text(), "Hello");
    assert_eq!(document.undo_redo().depth(), (1, 1));
    assert_eq!(document.cursor().position, Position::from(0, 5));
    assert_eq!(document.mark().position, Position::from(0, 5));

    assert_eq!(document.undo(1).unwrap(), 1);
    assert_eq!(document.text(), "");
    assert_eq!(document.undo_redo().depth(), (0, 2));
    assert_eq!(document.cursor().position, Position::from(0, 0));
    assert_eq!(document.mark().position, Position::from(0, 0));

    assert_eq!(document.undo(1).unwrap_err(), Oops::NoMoreUndos(0));

    assert_eq!(document.undo_redo().depth(), (0, 2));
    assert_eq!(document.redo(100).unwrap_err(), Oops::NoMoreRedos(2));
    assert_eq!(document.undo_redo().depth(), (2, 0));
    assert_eq!(document.text(), "Hello\nthere\ncaptain");
    assert_eq!(document.undo_redo().depth(), (2, 0));
    assert_eq!(document.cursor().position, Position::from(2, 7));
    assert_eq!(document.mark().position, Position::from(2, 7));

    document.checkpoint();
    document.remove(&RemoveOptions::exact_at(&Range::from(0, 2, 2, 1))).unwrap();
    assert_eq!(document.undo_redo().depth(), (3, 0));
    assert_eq!(document.text(), "Heaptain");
    assert_eq!(document.cursor().position, Position::from(0, 8));
    assert_eq!(document.mark().position, Position::from(0, 8));

    assert_eq!(document.undo(1).unwrap(), 1);
    assert_eq!(document.text(), "Hello\nthere\ncaptain");
    assert_eq!(document.cursor().position, Position::from(2, 7));

    document.insert("ooo", &InsertOptions::exact_at(&Range::from(1, 1, 2, 3))).unwrap();
    assert_eq!(document.text(), "Hello\ntoootain");
    assert_eq!(document.undo_redo().depth(), (2, 0));
    assert_eq!(document.cursor().position, Position::from(1, 8));

    document.forget_undo_redo().unwrap();
    assert_eq!(document.undo_redo().depth(), (0, 0));
}

#[test]
fn anchors() {
    let mut document = Document::from_with_language("🙈火A\n日BB\nCC魔", "rs");

    let a = document.create_anchor(&Anchor::from(0, 0)).unwrap();
    let b = document.create_anchor(&Anchor::from(0, 2)).unwrap();
    let c = document.create_anchor(&Anchor::from(1, 1)).unwrap();
    let d = document.create_anchor(&Anchor::from(1, 3)).unwrap();
    let e = document.create_anchor(&Anchor::from(2, 0)).unwrap();
    let f = document.create_anchor(&Anchor::from(2, 2)).unwrap();
    document
        .insert("Hello\nThere", &InsertOptions::exact_at(&Range::from(1, 0, 1, 0)))
        .unwrap();

    document.checkpoint();
    assert_eq!(document.text(), "🙈火A\nHello\nThere日BB\nCC魔");
    assert_eq!(document.anchor(a).unwrap().position, Position::from(0, 0));
    assert_eq!(document.anchor(b).unwrap().position, Position::from(0, 2));
    assert_eq!(document.anchor(c).unwrap().position, Position::from(2, 6));
    assert_eq!(document.anchor(d).unwrap().position, Position::from(2, 8));
    assert_eq!(document.anchor(e).unwrap().position, Position::from(3, 0));
    assert_eq!(document.anchor(f).unwrap().position, Position::from(3, 2));

    assert_eq!(document.indentation(), ls_core::document::Indentation::spaces(4));
    document.set_indentation(&ls_core::document::Indentation::tabs(2)).unwrap();
    assert_eq!(document.indentation(), ls_core::document::Indentation::tabs(2));

    document.remove(&RemoveOptions::exact_at(&Range::from(2, 5, 2, 6))).unwrap();
    assert_eq!(document.text(), "🙈火A\nHello\nThereBB\nCC魔");
    assert_eq!(document.anchor(a).unwrap().position, Position::from(0, 0));
    assert_eq!(document.anchor(b).unwrap().position, Position::from(0, 2));
    assert_eq!(document.anchor(c).unwrap().position, Position::from(2, 5));
    assert_eq!(document.anchor(d).unwrap().position, Position::from(2, 7));
    assert_eq!(document.anchor(e).unwrap().position, Position::from(3, 0));
    assert_eq!(document.anchor(f).unwrap().position, Position::from(3, 2));

    document.remove(&RemoveOptions::exact_at(&Range::from(0, 1, 1, 0))).unwrap();
    document.remove_anchor(a).unwrap();

    assert_eq!(document.text(), "🙈Hello\nThereBB\nCC魔");
    assert_eq!(document.anchor(b).unwrap().position, Position::from(0, 1));
    assert_eq!(document.anchor(c).unwrap().position, Position::from(1, 5));
    assert_eq!(document.anchor(d).unwrap().position, Position::from(1, 7));
    assert_eq!(document.anchor(e).unwrap().position, Position::from(2, 0));
    assert_eq!(document.anchor(f).unwrap().position, Position::from(2, 2));

    document.remove(&RemoveOptions::exact_at(&Range::from(1, 5, 2, 1))).unwrap();
    assert_eq!(document.text(), "🙈Hello\nThereC魔");
    assert_eq!(document.anchor(b).unwrap().position, Position::from(0, 1));
    assert_eq!(document.anchor(c).unwrap().position, Position::from(1, 5));
    assert_eq!(document.anchor(d).unwrap().position, Position::from(1, 5));
    assert_eq!(document.anchor(e).unwrap().position, Position::from(1, 5));
    assert_eq!(document.anchor(f).unwrap().position, Position::from(1, 6));

    document.undo(1).unwrap();
    assert_eq!(document.undo_redo().depth(), (1, 1));
    assert_eq!(document.text(), "🙈火A\nHello\nThere日BB\nCC魔");
    assert_eq!(document.anchor(a).unwrap().position, Position::from(0, 0));
    assert_eq!(document.anchor(b).unwrap().position, Position::from(0, 2));
    assert_eq!(document.anchor(c).unwrap().position, Position::from(2, 6));
    assert_eq!(document.anchor(d).unwrap().position, Position::from(2, 8));
    assert_eq!(document.anchor(e).unwrap().position, Position::from(3, 0));
    assert_eq!(document.anchor(f).unwrap().position, Position::from(3, 2));

    assert_eq!(document.indentation(), ls_core::document::Indentation::spaces(4));
}
