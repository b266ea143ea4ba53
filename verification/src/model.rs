//! The mathematical model of a document and of the reversible changes that
//! act on it.
//!
//! A document state is a sequence of terminator-free lines, a handle-to-
//! position map of anchors, an indentation policy and a language tag. Every
//! primitive change is a function from one state to the next that also yields
//! the change undoing it; [`lemma_change_roundtrip`] proves that applying a
//! change and then its inverse restores the state exactly, which is what the
//! undo and redo machinery rests on.

use crate::indentation::Indentation;
use crate::position::{pos_le, pos_lt, Position, Range};
use crate::textops::{all_nl_free, nl_free};
use vstd::prelude::*;

verus! {

/// The state of a document as the change machinery sees it: the parse tree
/// is recomputed from the text and takes no part in reversibility.
#[verifier::ext_equal]
pub struct DocModel {
    pub lines: Seq<Seq<char>>,
    pub anchors: Map<u32, Position>,
    pub next_id: u32,
    pub indentation: Indentation,
    pub language: Seq<char>,
}

/// One reversible primitive change, at the model level.
#[verifier::ext_equal]
pub enum ChangeModel {
    Insert { text: Seq<Seq<char>>, position: Position },
    Remove { range: Range },
    AnchorSet { handle: u32, value: Position },
    AnchorInsert { handle: u32, value: Position },
    AnchorRemove { handle: u32 },
    IndentationChange { value: Indentation },
    LanguageChange { value: Seq<char> },
}

/// A position is valid when its row exists and its column does not pass the
/// end of that row's line.
pub open spec fn pos_valid_model(lines: Seq<Seq<char>>, p: Position) -> bool {
    p.row < lines.len() && p.column <= lines[p.row as int].len()
}

/// A range is valid when both ends are valid and it is not reversed.
pub open spec fn range_valid_model(lines: Seq<Seq<char>>, r: Range) -> bool {
    pos_valid_model(lines, r.beginning) && pos_valid_model(lines, r.ending) && pos_le(
        r.beginning,
        r.ending,
    )
}

/// Structural well-formedness of a state, anchors' positions aside: at least
/// one line, no terminator inside a line, a sane indentation policy, the
/// reserved anchors present, and every handle below the counter.
pub open spec fn text_wf(m: DocModel) -> bool {
    &&& m.lines.len() >= 1
    &&& all_nl_free(m.lines)
    &&& m.indentation.spaces_per_tab >= 1
    &&& m.anchors.dom().contains(0)
    &&& m.anchors.dom().contains(1)
    &&& forall|h: u32| m.anchors.dom().contains(h) ==> h < m.next_id
    &&& m.next_id >= 2
}

/// Every anchor stands at a valid position. This holds at rest, between
/// public calls; in the middle of a change packet it may be broken.
pub open spec fn anchors_ok(m: DocModel) -> bool {
    forall|h: u32| m.anchors.dom().contains(h) ==> pos_valid_model(
        m.lines,
        #[trigger] m.anchors[h],
    )
}

/// Full well-formedness of a state at rest.
pub open spec fn model_wf(m: DocModel) -> bool {
    text_wf(m) && anchors_ok(m)
}

/// The end position of inserting `text` at `pos`: on the same row for a
/// one-line text, else at the end of the last inserted line.
pub open spec fn insert_end_pos(pos: Position, text: Seq<Seq<char>>) -> Position {
    if text.len() == 1 {
        Position { row: pos.row, column: (pos.column + text[0].len()) as usize }
    } else {
        Position {
            row: (pos.row + text.len() - 1) as usize,
            column: text.last().len() as usize,
        }
    }
}

/// The computed end position of an insertion fits the machine's word.
pub open spec fn insert_fits(pos: Position, text: Seq<Seq<char>>) -> bool {
    &&& pos.row + text.len() - 1 <= usize::MAX
    &&& (if text.len() == 1 {
        pos.column + text[0].len() <= usize::MAX
    } else {
        text.last().len() <= usize::MAX
    })
}

/// The lines after inserting `text` (one or more lines) at `pos`: the target
/// line is cut at the insertion column, the first inserted line extends its
/// head, the last inserted line is extended by its tail, and full inserted
/// lines stand in between.
pub open spec fn splice_insert(
    lines: Seq<Seq<char>>,
    pos: Position,
    text: Seq<Seq<char>>,
) -> Seq<Seq<char>> {
    let r = pos.row as int;
    let c = pos.column as int;
    let before = lines[r].subrange(0, c);
    let after = lines[r].subrange(c, lines[r].len() as int);
    if text.len() == 1 {
        lines.update(r, before + text[0] + after)
    } else {
        lines.subrange(0, r) + seq![before + text[0]] + text.subrange(1, text.len() - 1) + seq![
            text.last() + after,
        ] + lines.subrange(r + 1, lines.len() as int)
    }
}

/// The text removed by clearing `range`, as a list of lines.
pub open spec fn removed_lines(lines: Seq<Seq<char>>, range: Range) -> Seq<Seq<char>> {
    let r1 = range.beginning.row as int;
    let c1 = range.beginning.column as int;
    let r2 = range.ending.row as int;
    let c2 = range.ending.column as int;
    if r1 == r2 {
        seq![lines[r1].subrange(c1, c2)]
    } else {
        seq![lines[r1].subrange(c1, lines[r1].len() as int)] + lines.subrange(r1 + 1, r2) + seq![
            lines[r2].subrange(0, c2),
        ]
    }
}

/// The lines after clearing `range`: the head of the first row is glued to
/// the tail of the last row, and the rows in between disappear.
pub open spec fn splice_remove(lines: Seq<Seq<char>>, range: Range) -> Seq<Seq<char>> {
    let r1 = range.beginning.row as int;
    let c1 = range.beginning.column as int;
    let r2 = range.ending.row as int;
    let c2 = range.ending.column as int;
    if r1 == r2 {
        lines.update(r1, lines[r1].subrange(0, c1) + lines[r1].subrange(c2, lines[r1].len() as int))
    } else {
        lines.subrange(0, r1) + seq![
            lines[r1].subrange(0, c1) + lines[r2].subrange(c2, lines[r2].len() as int),
        ] + lines.subrange(r2 + 1, lines.len() as int)
    }
}

/// Whether `c` may be applied to `m`: the exact condition under which the
/// corresponding primitive neither fails nor breaks the state's structure.
pub open spec fn change_valid(m: DocModel, c: ChangeModel) -> bool {
    match c {
        ChangeModel::Insert { text, position } => {
            &&& text.len() >= 1
            &&& all_nl_free(text)
            &&& pos_valid_model(m.lines, position)
            &&& insert_fits(position, text)
        },
        ChangeModel::Remove { range } => range_valid_model(m.lines, range),
        ChangeModel::AnchorSet { handle, value } => m.anchors.dom().contains(handle),
        ChangeModel::AnchorInsert { handle, value } => !m.anchors.dom().contains(handle) && handle
            < m.next_id,
        ChangeModel::AnchorRemove { handle } => m.anchors.dom().contains(handle) && handle != 0
            && handle != 1,
        ChangeModel::IndentationChange { value } => value.spaces_per_tab >= 1,
        ChangeModel::LanguageChange { value } => true,
    }
}

/// Applies `c` to `m`, returning the next state and the exact inverse change.
pub open spec fn apply_change(m: DocModel, c: ChangeModel) -> (DocModel, ChangeModel) {
    match c {
        ChangeModel::Insert { text, position } => (
            DocModel { lines: splice_insert(m.lines, position, text), ..m },
            ChangeModel::Remove {
                range: Range { beginning: position, ending: insert_end_pos(position, text) },
            },
        ),
        ChangeModel::Remove { range } => (
            DocModel { lines: splice_remove(m.lines, range), ..m },
            ChangeModel::Insert {
                text: removed_lines(m.lines, range),
                position: range.beginning,
            },
        ),
        ChangeModel::AnchorSet { handle, value } => (
            DocModel { anchors: m.anchors.insert(handle, value), ..m },
            ChangeModel::AnchorSet { handle, value: m.anchors[handle] },
        ),
        ChangeModel::AnchorInsert { handle, value } => (
            DocModel { anchors: m.anchors.insert(handle, value), ..m },
            ChangeModel::AnchorRemove { handle },
        ),
        ChangeModel::AnchorRemove { handle } => (
            DocModel { anchors: m.anchors.remove(handle), ..m },
            ChangeModel::AnchorInsert { handle, value: m.anchors[handle] },
        ),
        ChangeModel::IndentationChange { value } => (
            DocModel { indentation: value, ..m },
            ChangeModel::IndentationChange { value: m.indentation },
        ),
        ChangeModel::LanguageChange { value } => (
            DocModel { language: value, ..m },
            ChangeModel::LanguageChange { value: m.language },
        ),
    }
}

/// Inserting and then removing the inserted span restores the lines and
/// recovers the inserted text; the span is valid in the new state.
pub proof fn lemma_insert_then_remove(lines: Seq<Seq<char>>, pos: Position, text: Seq<Seq<char>>)
    requires
        lines.len() >= 1,
        all_nl_free(lines),
        text.len() >= 1,
        all_nl_free(text),
        pos_valid_model(lines, pos),
        insert_fits(pos, text),
    ensures
        ({
            let out = splice_insert(lines, pos, text);
            let rng = Range { beginning: pos, ending: insert_end_pos(pos, text) };
            &&& out.len() == lines.len() + text.len() - 1
            &&& all_nl_free(out)
            &&& range_valid_model(out, rng)
            &&& splice_remove(out, rng) == lines
            &&& removed_lines(out, rng) == text
        }),
{
    let r = pos.row as int;
    let c = pos.column as int;
    let line = lines[r];
    let before = line.subrange(0, c);
    let after = line.subrange(c, line.len() as int);
    let out = splice_insert(lines, pos, text);
    let end = insert_end_pos(pos, text);
    let rng = Range { beginning: pos, ending: end };
    assert(nl_free(line));
    if text.len() == 1 {
        let newline = before + text[0] + after;
        assert(out == lines.update(r, newline));
        assert(out.len() == lines.len());
        assert(all_nl_free(out)) by {
            assert(nl_free(text[0]));
            assert(forall|i: int| 0 <= i < out.len() && i != r ==> out[i] == lines[i]);
            assert(forall|j: int| 0 <= j < newline.len() ==> newline[j] != '\n');
        }
        assert(end.row == pos.row && end.column == c + text[0].len());
        assert(range_valid_model(out, rng)) by {
            assert(out[r].len() == newline.len());
            assert(c + text[0].len() <= newline.len());
        }
        assert(splice_remove(out, rng) == lines) by {
            let back = newline.subrange(0, c) + newline.subrange(
                c + text[0].len(),
                newline.len() as int,
            );
            assert(newline.subrange(0, c) =~= before);
            assert(newline.subrange(c + text[0].len(), newline.len() as int) =~= after);
            assert(back =~= line);
            assert(splice_remove(out, rng) =~= lines);
        }
        assert(removed_lines(out, rng) == text) by {
            assert(newline.subrange(c, c + text[0].len()) =~= text[0]);
            assert(removed_lines(out, rng) =~= text);
        }
    } else {
        let k = text.len() as int;
        let mid = text.subrange(1, k - 1);
        let firstline = before + text[0];
        let lastline = text.last() + after;
        assert(out == lines.subrange(0, r) + seq![firstline] + mid + seq![lastline]
            + lines.subrange(r + 1, lines.len() as int));
        assert(out.len() == lines.len() + k - 1);
        assert(end.row == r + k - 1 && end.column == text.last().len());
        assert(all_nl_free(out)) by {
            assert(forall|i: int|
                0 <= i < out.len() ==> #[trigger] out[i] == (if i < r {
                    lines[i]
                } else if i == r {
                    firstline
                } else if i < r + k - 1 {
                    text[i - r]
                } else if i == r + k - 1 {
                    lastline
                } else {
                    lines[i - k + 1]
                }));
            assert(forall|j: int| 0 <= j < firstline.len() ==> firstline[j] != '\n') by {
                assert(nl_free(text[0]));
            }
            assert(forall|j: int| 0 <= j < lastline.len() ==> lastline[j] != '\n') by {
                assert(nl_free(text[k - 1]));
            }
        }
        assert(out[r] == firstline);
        assert(out[r + k - 1] == lastline);
        assert(range_valid_model(out, rng)) by {
            assert(c <= firstline.len());
            assert(text.last().len() <= lastline.len());
            assert(pos_lt(rng.beginning, rng.ending));
        }
        assert(splice_remove(out, rng) == lines) by {
            let glued = out[r].subrange(0, c) + out[r + k - 1].subrange(
                text.last().len() as int,
                out[r + k - 1].len() as int,
            );
            assert(out[r].subrange(0, c) =~= before);
            assert(out[r + k - 1].subrange(text.last().len() as int, out[r + k - 1].len() as int)
                =~= after);
            assert(glued =~= line);
            assert(out.subrange(0, r) =~= lines.subrange(0, r));
            assert(out.subrange(r + k, out.len() as int) =~= lines.subrange(
                r + 1,
                lines.len() as int,
            ));
            assert(splice_remove(out, rng) =~= lines);
        }
        assert(removed_lines(out, rng) == text) by {
            assert(out[r].subrange(c, out[r].len() as int) =~= text[0]);
            assert(out.subrange(r + 1, r + k - 1) =~= mid);
            assert(out[r + k - 1].subrange(0, text.last().len() as int) =~= text.last());
            assert(removed_lines(out, rng) =~= text);
        }
    }
}

/// Removing a span and then inserting the removed text at its beginning
/// restores the lines, and the insertion ends exactly where the span ended.
pub proof fn lemma_remove_then_insert(lines: Seq<Seq<char>>, range: Range)
    requires
        lines.len() >= 1,
        all_nl_free(lines),
        range_valid_model(lines, range),
    ensures
        ({
            let out = splice_remove(lines, range);
            let text = removed_lines(lines, range);
            &&& text.len() == range.ending.row - range.beginning.row + 1
            &&& all_nl_free(text)
            &&& out.len() == lines.len() - (range.ending.row - range.beginning.row)
            &&& all_nl_free(out)
            &&& pos_valid_model(out, range.beginning)
            &&& insert_fits(range.beginning, text)
            &&& insert_end_pos(range.beginning, text) == range.ending
            &&& splice_insert(out, range.beginning, text) == lines
        }),
{
    let r1 = range.beginning.row as int;
    let c1 = range.beginning.column as int;
    let r2 = range.ending.row as int;
    let c2 = range.ending.column as int;
    let out = splice_remove(lines, range);
    let text = removed_lines(lines, range);
    if r1 == r2 {
        let line = lines[r1];
        let back = line.subrange(0, c1) + line.subrange(c2, line.len() as int);
        assert(out == lines.update(r1, back));
        assert(text == seq![line.subrange(c1, c2)]);
        assert(text.len() == 1);
        assert(nl_free(line));
        assert(all_nl_free(text)) by {
            assert(forall|j: int| 0 <= j < text[0].len() ==> text[0][j] != '\n');
        }
        assert(all_nl_free(out)) by {
            assert(forall|i: int| 0 <= i < out.len() && i != r1 ==> out[i] == lines[i]);
            assert(forall|j: int| 0 <= j < back.len() ==> back[j] != '\n');
        }
        assert(pos_valid_model(out, range.beginning)) by {
            assert(out[r1].len() == back.len());
        }
        assert(insert_end_pos(range.beginning, text) == range.ending) by {
            assert(text[0].len() == c2 - c1);
        }
        assert(splice_insert(out, range.beginning, text) == lines) by {
            let again = back.subrange(0, c1) + text[0] + back.subrange(c1, back.len() as int);
            assert(back.subrange(0, c1) =~= line.subrange(0, c1));
            assert(back.subrange(c1, back.len() as int) =~= line.subrange(c2, line.len() as int));
            assert(again =~= line);
            assert(splice_insert(out, range.beginning, text) =~= lines);
        }
    } else {
        let k = r2 - r1 + 1;
        let head = lines[r1].subrange(c1, lines[r1].len() as int);
        let tail = lines[r2].subrange(0, c2);
        let glued = lines[r1].subrange(0, c1) + lines[r2].subrange(c2, lines[r2].len() as int);
        assert(text == seq![head] + lines.subrange(r1 + 1, r2) + seq![tail]);
        assert(text.len() == k);
        assert(out == lines.subrange(0, r1) + seq![glued] + lines.subrange(
            r2 + 1,
            lines.len() as int,
        ));
        assert(out.len() == lines.len() - (r2 - r1));
        assert(forall|i: int|
            0 <= i < out.len() ==> #[trigger] out[i] == (if i < r1 {
                lines[i]
            } else if i == r1 {
                glued
            } else {
                lines[i + (r2 - r1)]
            }));
        assert(forall|i: int|
            0 <= i < text.len() ==> #[trigger] text[i] == (if i == 0 {
                head
            } else if i < k - 1 {
                lines[r1 + i]
            } else {
                tail
            }));
        assert(all_nl_free(text)) by {
            assert(nl_free(lines[r1]));
            assert(nl_free(lines[r2]));
            assert(forall|j: int| 0 <= j < head.len() ==> head[j] != '\n');
            assert(forall|j: int| 0 <= j < tail.len() ==> tail[j] != '\n');
        }
        assert(all_nl_free(out)) by {
            assert(forall|j: int| 0 <= j < glued.len() ==> glued[j] != '\n');
        }
        assert(pos_valid_model(out, range.beginning)) by {
            assert(out[r1] == glued);
        }
        assert(insert_end_pos(range.beginning, text) == range.ending) by {
            assert(text.last() == tail);
            assert(tail.len() == c2);
        }
        assert(splice_insert(out, range.beginning, text) == lines) by {
            let before = glued.subrange(0, c1);
            let after = glued.subrange(c1, glued.len() as int);
            assert(before =~= lines[r1].subrange(0, c1));
            assert(after =~= lines[r2].subrange(c2, lines[r2].len() as int));
            let first_back = before + text[0];
            let last_back = text.last() + after;
            assert(first_back =~= lines[r1]);
            assert(last_back =~= lines[r2]);
            assert(out.subrange(0, r1) =~= lines.subrange(0, r1));
            assert(out.subrange(r1 + 1, out.len() as int) =~= lines.subrange(
                r2 + 1,
                lines.len() as int,
            ));
            assert(text.subrange(1, k - 1) =~= lines.subrange(r1 + 1, r2));
            assert(splice_insert(out, range.beginning, text) =~= lines);
        }
    }
}

/// The round trip at the heart of undo: a valid change keeps the state's
/// structure, its inverse is valid in the new state, and applying the
/// inverse restores the old state and the original change exactly.
pub proof fn lemma_change_roundtrip(m: DocModel, c: ChangeModel)
    requires
        text_wf(m),
        change_valid(m, c),
    ensures
        ({
            let (m1, inv) = apply_change(m, c);
            &&& text_wf(m1)
            &&& change_valid(m1, inv)
            &&& apply_change(m1, inv).0 == m
            &&& apply_change(m1, inv).1 == c
        }),
{
    let (m1, inv) = apply_change(m, c);
    match c {
        ChangeModel::Insert { text, position } => {
            lemma_insert_then_remove(m.lines, position, text);
            assert(apply_change(m1, inv).0 =~~= m);
        },
        ChangeModel::Remove { range } => {
            lemma_remove_then_insert(m.lines, range);
            assert(apply_change(m1, inv).0 =~~= m);
        },
        ChangeModel::AnchorSet { handle, value } => {
            assert(m1.anchors.insert(handle, m.anchors[handle]) =~= m.anchors);
            assert(apply_change(m1, inv).0 =~~= m);
        },
        ChangeModel::AnchorInsert { handle, value } => {
            assert(m1.anchors.remove(handle) =~= m.anchors);
            assert(apply_change(m1, inv).0 =~~= m);
        },
        ChangeModel::AnchorRemove { handle } => {
            assert(m1.anchors.insert(handle, m.anchors[handle]) =~= m.anchors);
            assert(apply_change(m1, inv).0 =~~= m);
        },
        ChangeModel::IndentationChange { value } => {
            assert(apply_change(m1, inv).0 =~~= m);
        },
        ChangeModel::LanguageChange { value } => {
            assert(apply_change(m1, inv).0 =~~= m);
        },
    }
}

/// Validity of a packet's changes, applied from the last to the first.
pub open spec fn packet_valid_rev(m: DocModel, cs: Seq<ChangeModel>) -> bool
    decreases cs.len(),
{
    if cs.len() == 0 {
        true
    } else {
        change_valid(m, cs.last()) && packet_valid_rev(
            apply_change(m, cs.last()).0,
            cs.drop_last(),
        )
    }
}

/// The state after applying a packet's changes from the last to the first.
pub open spec fn apply_packet_rev(m: DocModel, cs: Seq<ChangeModel>) -> DocModel
    decreases cs.len(),
{
    if cs.len() == 0 {
        m
    } else {
        apply_packet_rev(apply_change(m, cs.last()).0, cs.drop_last())
    }
}

/// Validity of a stack of packets, applied from the top down; every state a
/// whole packet reaches is a state that was once at rest, so its anchors are
/// all valid there.
pub open spec fn stack_valid(m: DocModel, packets: Seq<Seq<ChangeModel>>) -> bool
    decreases packets.len(),
{
    if packets.len() == 0 {
        true
    } else {
        let m1 = apply_packet_rev(m, packets.last());
        packet_valid_rev(m, packets.last()) && anchors_ok(m1) && stack_valid(
            m1,
            packets.drop_last(),
        )
    }
}

/// The state after applying the top `n` packets of a stack.
pub open spec fn apply_packets(m: DocModel, packets: Seq<Seq<ChangeModel>>, n: nat) -> DocModel
    decreases n,
{
    if n == 0 || packets.len() == 0 {
        m
    } else {
        apply_packets(apply_packet_rev(m, packets.last()), packets.drop_last(), (n - 1) as nat)
    }
}

/// Applying a concatenated packet applies the right part first.
pub proof fn lemma_packet_concat(m: DocModel, a: Seq<ChangeModel>, b: Seq<ChangeModel>)
    ensures
        packet_valid_rev(m, a + b) == (packet_valid_rev(m, b) && packet_valid_rev(
            apply_packet_rev(m, b),
            a,
        )),
        apply_packet_rev(m, a + b) == apply_packet_rev(apply_packet_rev(m, b), a),
    decreases b.len(),
{
    if b.len() == 0 {
        assert(a + b =~= a);
    } else {
        assert((a + b).last() == b.last());
        assert((a + b).drop_last() =~= a + b.drop_last());
        lemma_packet_concat(apply_change(m, b.last()).0, a, b.drop_last());
    }
}

/// The undo stack after recording one more change: a pending checkpoint or an
/// empty stack opens a new packet, otherwise the top packet grows.
pub open spec fn stacks_after_push(
    u: Seq<Seq<ChangeModel>>,
    cp: bool,
    c: ChangeModel,
) -> Seq<Seq<ChangeModel>> {
    if u.len() == 0 || cp {
        u.push(seq![c])
    } else {
        u.update(u.len() - 1, u.last().push(c))
    }
}

/// The undo stack after recording a whole run of changes from one operation:
/// the first change may open a new packet, the rest always extend it.
pub open spec fn stacks_after_push_seq(
    u: Seq<Seq<ChangeModel>>,
    cp: bool,
    cs: Seq<ChangeModel>,
) -> Seq<Seq<ChangeModel>>
    decreases cs.len(),
{
    if cs.len() == 0 {
        u
    } else if cs.len() == 1 {
        stacks_after_push(u, cp, cs[0])
    } else {
        stacks_after_push(stacks_after_push_seq(u, cp, cs.drop_last()), false, cs.last())
    }
}

/// After an operation that moved the state from `m0` to `m1` and recorded
/// the run `cs` of inverses that restores `m0`, the undo stack is coherent
/// again.
pub proof fn lemma_stack_valid_after_op(
    m0: DocModel,
    u0: Seq<Seq<ChangeModel>>,
    cp0: bool,
    m1: DocModel,
    cs: Seq<ChangeModel>,
)
    requires
        stack_valid(m0, u0),
        anchors_ok(m0),
        packet_valid_rev(m1, cs),
        apply_packet_rev(m1, cs) == m0,
        cs.len() >= 1,
    ensures
        stack_valid(m1, stacks_after_push_seq(u0, cp0, cs)),
    decreases cs.len(),
{
    if cs.len() == 1 {
        let u1 = stacks_after_push(u0, cp0, cs[0]);
        assert(cs =~= seq![cs[0]]);
        if u0.len() == 0 || cp0 {
            assert(u1 == u0.push(cs));
            assert(u1.last() == cs);
            assert(u1.drop_last() =~= u0);
            assert(stack_valid(m1, u1));
        } else {
            let top = u0.last().push(cs[0]);
            assert(u1 == u0.update(u0.len() - 1, top));
            assert(u1.last() == top);
            assert(u1.drop_last() =~= u0.drop_last());
            assert(top =~= u0.last() + cs);
            lemma_packet_concat(m1, u0.last(), cs);
            assert(packet_valid_rev(m1, top));
            assert(apply_packet_rev(m1, top) == apply_packet_rev(m0, u0.last()));
            assert(stack_valid(m1, u1));
        }
    } else {
        let c = cs.last();
        let rest = cs.drop_last();
        let mmid = apply_change(m1, c).0;
        assert(cs =~= rest + seq![c]);
        lemma_packet_concat(m1, rest, seq![c]);
        assert(seq![c].last() == c);
        assert(seq![c].drop_last() =~= Seq::<ChangeModel>::empty());
        assert(apply_packet_rev(mmid, Seq::<ChangeModel>::empty()) == mmid);
        assert(apply_packet_rev(m1, seq![c]) == mmid);
        assert(packet_valid_rev(mmid, rest));
        assert(apply_packet_rev(mmid, rest) == m0);
        lemma_stack_valid_after_op(m0, u0, cp0, mmid, rest);
        let umid = stacks_after_push_seq(u0, cp0, rest);
        assert(umid.len() >= 1) by {
            if rest.len() == 1 {
            } else {
            }
        }
        let u1 = stacks_after_push(umid, false, c);
        assert(u1 == stacks_after_push_seq(u0, cp0, cs));
        let top = umid.last().push(c);
        assert(u1 == umid.update(umid.len() - 1, top));
        assert(u1.last() == top);
        assert(u1.drop_last() =~= umid.drop_last());
        assert(top =~= umid.last() + seq![c]);
        lemma_packet_concat(m1, umid.last(), seq![c]);
        assert(packet_valid_rev(m1, top));
        assert(apply_packet_rev(m1, top) == apply_packet_rev(mmid, umid.last()));
        assert(stack_valid(m1, u1));
    }
}

/// Applying one more packet applies the next one down the stack.
pub proof fn lemma_apply_packets_step(m: DocModel, packets: Seq<Seq<ChangeModel>>, i: nat)
    requires
        i < packets.len(),
    ensures
        apply_packets(m, packets, i + 1) == apply_packet_rev(
            apply_packets(m, packets, i),
            packets[packets.len() - 1 - i],
        ),
    decreases i,
{
    let m1 = apply_packet_rev(m, packets.last());
    if i == 0 {
        assert(apply_packets(m, packets, 1) == apply_packets(m1, packets.drop_last(), 0));
        assert(apply_packets(m1, packets.drop_last(), 0) == m1);
        assert(apply_packets(m, packets, 0) == m);
        assert(packets[packets.len() - 1] == packets.last());
    } else {
        lemma_apply_packets_step(m1, packets.drop_last(), (i - 1) as nat);
        assert(packets.drop_last()[packets.drop_last().len() - 1 - (i - 1)] == packets[
            packets.len() - 1 - i
        ]);
        assert(apply_packets(m, packets, i + 1) == apply_packets(m1, packets.drop_last(), i));
        assert(apply_packets(m, packets, i) == apply_packets(
            m1,
            packets.drop_last(),
            (i - 1) as nat,
        ));
    }
}

/// One operation applied one change and recorded its inverse.
pub proof fn lemma_single_change_op(
    m0: DocModel,
    u0: Seq<Seq<ChangeModel>>,
    cp0: bool,
    c: ChangeModel,
)
    requires
        text_wf(m0),
        anchors_ok(m0),
        change_valid(m0, c),
        stack_valid(m0, u0),
    ensures
        ({
            let (m1, inv) = apply_change(m0, c);
            &&& text_wf(m1)
            &&& change_valid(m1, inv)
            &&& packet_valid_rev(m1, seq![inv])
            &&& apply_packet_rev(m1, seq![inv]) == m0
            &&& stacks_after_push_seq(u0, cp0, seq![inv]) == stacks_after_push(u0, cp0, inv)
            &&& stack_valid(m1, stacks_after_push(u0, cp0, inv))
        }),
{
    let (m1, inv) = apply_change(m0, c);
    lemma_change_roundtrip(m0, c);
    assert(seq![inv].last() == inv);
    assert(seq![inv].drop_last() =~= Seq::<ChangeModel>::empty());
    assert(apply_packet_rev(apply_change(m1, inv).0, Seq::<ChangeModel>::empty())
        == apply_change(m1, inv).0);
    assert(packet_valid_rev(apply_change(m1, inv).0, Seq::<ChangeModel>::empty()));
    assert(apply_packet_rev(m1, seq![inv]) == m0);
    assert(packet_valid_rev(m1, seq![inv]));
    lemma_stack_valid_after_op(m0, u0, cp0, m1, seq![inv]);
    assert(stacks_after_push_seq(u0, cp0, seq![inv]) == stacks_after_push(u0, cp0, seq![inv][0]));
}

/// In the middle of an operation that has already recorded the run `cs`,
/// applying one more valid change and recording its inverse keeps the run
/// restoring the original state.
pub proof fn lemma_mid_op_push(
    m0: DocModel,
    u0: Seq<Seq<ChangeModel>>,
    cp0: bool,
    mcur: DocModel,
    cs: Seq<ChangeModel>,
    c: ChangeModel,
)
    requires
        cs.len() >= 1,
        packet_valid_rev(mcur, cs),
        apply_packet_rev(mcur, cs) == m0,
        change_valid(mcur, c),
        text_wf(mcur),
    ensures
        ({
            let (m2, inv) = apply_change(mcur, c);
            &&& text_wf(m2)
            &&& packet_valid_rev(m2, cs.push(inv))
            &&& apply_packet_rev(m2, cs.push(inv)) == m0
            &&& stacks_after_push_seq(u0, cp0, cs.push(inv)) == stacks_after_push(
                stacks_after_push_seq(u0, cp0, cs),
                false,
                inv,
            )
        }),
{
    let (m2, inv) = apply_change(mcur, c);
    lemma_change_roundtrip(mcur, c);
    assert(cs.push(inv).last() == inv);
    assert(cs.push(inv).drop_last() =~= cs);
    assert(apply_change(m2, inv).0 == mcur);
    assert(packet_valid_rev(m2, cs.push(inv)));
    assert(apply_packet_rev(m2, cs.push(inv)) == m0);
}

/// The same state with a different handle counter.
pub open spec fn with_next(m: DocModel, n: u32) -> DocModel {
    DocModel { next_id: n, ..m }
}

/// Raising the handle counter preserves a change's validity and commutes
/// with applying it.
pub proof fn lemma_change_next_id(m: DocModel, c: ChangeModel, n: u32)
    requires
        m.next_id <= n,
        change_valid(m, c),
    ensures
        change_valid(with_next(m, n), c),
        apply_change(with_next(m, n), c).0 == with_next(apply_change(m, c).0, n),
        apply_change(with_next(m, n), c).1 == apply_change(m, c).1,
{
    assert(apply_change(with_next(m, n), c).0 =~~= with_next(apply_change(m, c).0, n));
}

/// Raising the handle counter commutes with applying a whole packet.
pub proof fn lemma_packet_next_id(m: DocModel, cs: Seq<ChangeModel>, n: u32)
    requires
        m.next_id <= n,
        packet_valid_rev(m, cs),
    ensures
        packet_valid_rev(with_next(m, n), cs),
        apply_packet_rev(with_next(m, n), cs) == with_next(apply_packet_rev(m, cs), n),
    decreases cs.len(),
{
    if cs.len() == 0 {
        assert(apply_packet_rev(with_next(m, n), cs) =~~= with_next(apply_packet_rev(m, cs), n));
    } else {
        lemma_change_next_id(m, cs.last(), n);
        assert(apply_change(m, cs.last()).0.next_id == m.next_id);
        lemma_packet_next_id(apply_change(m, cs.last()).0, cs.drop_last(), n);
    }
}

/// Raising the handle counter preserves the coherence of a stack.
pub proof fn lemma_stack_next_id(m: DocModel, u: Seq<Seq<ChangeModel>>, n: u32)
    requires
        m.next_id <= n,
        stack_valid(m, u),
    ensures
        stack_valid(with_next(m, n), u),
    decreases u.len(),
{
    if u.len() > 0 {
        lemma_packet_next_id(m, u.last(), n);
        let m1 = apply_packet_rev(m, u.last());
        assert(anchors_ok(with_next(m1, n)));
        assert(m1.next_id == m.next_id) by {
            lemma_packet_keeps_next_id(m, u.last());
        }
        lemma_stack_next_id(m1, u.drop_last(), n);
    }
}

/// No change touches the handle counter.
pub proof fn lemma_packet_keeps_next_id(m: DocModel, cs: Seq<ChangeModel>)
    ensures
        apply_packet_rev(m, cs).next_id == m.next_id,
    decreases cs.len(),
{
    if cs.len() > 0 {
        lemma_packet_keeps_next_id(apply_change(m, cs.last()).0, cs.drop_last());
    }
}

/// All line lengths and the line count fit the machine's word: true of every
/// document that exists in memory.
pub open spec fn lines_fit(ls: Seq<Seq<char>>) -> bool {
    &&& ls.len() <= usize::MAX
    &&& forall|i: int| 0 <= i < ls.len() ==> (#[trigger] ls[i]).len() <= usize::MAX
}

/// Where an anchor lands after inserting `text` at `beg`: anchors before the
/// insertion point stay, anchors at or after it shift down by the added rows
/// and, on the insertion row, right past the inserted tail.
pub open spec fn insert_rebase_pos(p: Position, beg: Position, text: Seq<Seq<char>>) -> Position {
    if !pos_le(beg, p) {
        p
    } else {
        let row2 = (p.row + text.len() - 1) as usize;
        let col2 = if p.row == beg.row {
            if text.len() == 1 {
                (p.column + text[0].len()) as usize
            } else {
                (text.last().len() + (if p.column > beg.column {
                    p.column - beg.column
                } else {
                    0
                })) as usize
            }
        } else {
            p.column
        };
        Position { row: row2, column: col2 }
    }
}

/// The rebased positions fit the machine's word.
pub open spec fn insert_rebase_fits(p: Position, beg: Position, text: Seq<Seq<char>>) -> bool {
    pos_le(beg, p) ==> {
        &&& p.row + text.len() - 1 <= usize::MAX
        &&& (p.row == beg.row && text.len() == 1 ==> p.column + text[0].len() <= usize::MAX)
        &&& (p.row == beg.row && text.len() > 1 ==> text.last().len() + (if p.column
            > beg.column {
            p.column - beg.column
        } else {
            0
        }) <= usize::MAX)
    }
}

/// All anchors rebased for an insertion at `beg`.
pub open spec fn insert_rebase_map(
    a: Map<u32, Position>,
    beg: Position,
    text: Seq<Seq<char>>,
) -> Map<u32, Position> {
    Map::new(|h: u32| a.dom().contains(h), |h: u32| insert_rebase_pos(a[h], beg, text))
}

/// The full effect of a public insertion at `beg`: the lines spliced and
/// every anchor rebased.
pub open spec fn doc_insert_model(m: DocModel, text: Seq<Seq<char>>, beg: Position) -> DocModel {
    DocModel {
        lines: splice_insert(m.lines, beg, text),
        anchors: insert_rebase_map(m.anchors, beg, text),
        ..m
    }
}

/// Where an anchor lands after removing `range`: anchors past the removed
/// span shift up and, on its last row, left; anchors inside the span clamp
/// to its beginning; anchors before it stay.
pub open spec fn remove_rebase_pos(p: Position, range: Range) -> Position {
    if pos_lt(range.ending, p) {
        Position {
            row: (p.row - (range.ending.row - range.beginning.row)) as usize,
            column: if p.row == range.ending.row {
                (range.beginning.column + p.column - range.ending.column) as usize
            } else {
                p.column
            },
        }
    } else if pos_lt(range.beginning, p) {
        range.beginning
    } else {
        p
    }
}

/// All anchors rebased for a removal of `range`.
pub open spec fn remove_rebase_map(a: Map<u32, Position>, range: Range) -> Map<u32, Position> {
    Map::new(|h: u32| a.dom().contains(h), |h: u32| remove_rebase_pos(a[h], range))
}

/// The full effect of a public removal of `range`: the lines spliced and
/// every anchor rebased.
pub open spec fn doc_remove_model(m: DocModel, range: Range) -> DocModel {
    DocModel {
        lines: splice_remove(m.lines, range),
        anchors: remove_rebase_map(m.anchors, range),
        ..m
    }
}

/// The anchor store after every entry is rebased in place for a removal.
pub open spec fn rebased_entries_remove(
    entries: Seq<(u32, crate::anchors::Anchor)>,
    range: Range,
) -> Seq<(u32, crate::anchors::Anchor)> {
    Seq::new(
        entries.len(),
        |j: int|
            (
                entries[j].0,
                crate::anchors::Anchor {
                    position: remove_rebase_pos(entries[j].1.position, range),
                },
            ),
    )
}

/// The anchor store after every entry is rebased in place for an insertion.
pub open spec fn rebased_entries_insert(
    entries: Seq<(u32, crate::anchors::Anchor)>,
    pos: Position,
    text: Seq<Seq<char>>,
) -> Seq<(u32, crate::anchors::Anchor)> {
    Seq::new(
        entries.len(),
        |j: int|
            (
                entries[j].0,
                crate::anchors::Anchor {
                    position: insert_rebase_pos(entries[j].1.position, pos, text),
                },
            ),
    )
}

/// The run of anchor inverses a removal records: one `AnchorSet` restoring
/// the old position, in store order, for every anchor strictly after the
/// removed span's beginning.
pub open spec fn remove_anchor_invs(
    entries: Seq<(u32, crate::anchors::Anchor)>,
    range: Range,
) -> Seq<ChangeModel>
    decreases entries.len(),
{
    if entries.len() == 0 {
        Seq::<ChangeModel>::empty()
    } else {
        remove_anchor_invs(entries.drop_last(), range) + (if pos_lt(
            range.beginning,
            entries.last().1.position,
        ) {
            seq![
                ChangeModel::AnchorSet {
                    handle: entries.last().0,
                    value: entries.last().1.position,
                },
            ]
        } else {
            Seq::<ChangeModel>::empty()
        })
    }
}

/// The run of anchor inverses an insertion records: one `AnchorSet`
/// restoring the old position, in store order, for every anchor at or after
/// the insertion point.
pub open spec fn insert_anchor_invs(
    entries: Seq<(u32, crate::anchors::Anchor)>,
    pos: Position,
) -> Seq<ChangeModel>
    decreases entries.len(),
{
    if entries.len() == 0 {
        Seq::<ChangeModel>::empty()
    } else {
        insert_anchor_invs(entries.drop_last(), pos) + (if pos_le(
            pos,
            entries.last().1.position,
        ) {
            seq![
                ChangeModel::AnchorSet {
                    handle: entries.last().0,
                    value: entries.last().1.position,
                },
            ]
        } else {
            Seq::<ChangeModel>::empty()
        })
    }
}

/// The whole run of inverses a removal records, the text restorer first.
pub open spec fn remove_recorded(
    m: DocModel,
    entries: Seq<(u32, crate::anchors::Anchor)>,
    range: Range,
) -> Seq<ChangeModel> {
    seq![apply_change(m, ChangeModel::Remove { range }).1] + remove_anchor_invs(entries, range)
}

/// Rebasing for an insertion neither overflows nor produces an invalid
/// position, and the rebased state is well formed.
pub proof fn lemma_insert_rebase(m: DocModel, text: Seq<Seq<char>>, beg: Position)
    requires
        model_wf(m),
        text.len() >= 1,
        all_nl_free(text),
        pos_valid_model(m.lines, beg),
        insert_fits(beg, text),
        lines_fit(splice_insert(m.lines, beg, text)),
    ensures
        forall|p: Position| pos_valid_model(m.lines, p) ==> #[trigger] insert_rebase_fits(
            p,
            beg,
            text,
        ) && pos_valid_model(
            splice_insert(m.lines, beg, text),
            insert_rebase_pos(p, beg, text),
        ),
        model_wf(doc_insert_model(m, text, beg)),
        doc_insert_model(m, text, beg).anchors.dom() == m.anchors.dom(),
{
    let out = splice_insert(m.lines, beg, text);
    let k = text.len() as int;
    let r = beg.row as int;
    let c = beg.column as int;
    lemma_insert_then_remove(m.lines, beg, text);
    assert(out.len() == m.lines.len() + k - 1);
    assert forall|p: Position| pos_valid_model(m.lines, p) implies #[trigger] insert_rebase_fits(
        p,
        beg,
        text,
    ) && pos_valid_model(out, insert_rebase_pos(p, beg, text)) by {
        if pos_le(beg, p) {
            assert(p.row + k - 1 < out.len());
            let q = insert_rebase_pos(p, beg, text);
            if p.row == beg.row {
                assert(p.column >= beg.column);
                if k == 1 {
                    let newline = m.lines[r].subrange(0, c) + text[0] + m.lines[r].subrange(
                        c,
                        m.lines[r].len() as int,
                    );
                    assert(out[r] == newline);
                    assert(p.column + text[0].len() <= newline.len());
                    assert(q.row == p.row && q.column == p.column + text[0].len());
                } else {
                    let lastline = text.last() + m.lines[r].subrange(
                        c,
                        m.lines[r].len() as int,
                    );
                    assert(out[r + k - 1] == lastline);
                    let past: int = if p.column > beg.column {
                        p.column - beg.column
                    } else {
                        0
                    };
                    assert(past <= m.lines[r].len() - c);
                    assert(text.last().len() + past <= lastline.len());
                    assert(q.row == r + k - 1 && q.column == text.last().len() + past);
                }
            } else {
                assert(p.row > beg.row);
                assert(out[p.row + k - 1] == m.lines[p.row as int]);
                assert(insert_rebase_fits(p, beg, text));
            }
        } else {
            if p.row < beg.row {
                assert(out[p.row as int] == m.lines[p.row as int]);
            } else {
                assert(p.row == beg.row && p.column < beg.column);
                if k == 1 {
                    assert(out[r].len() >= m.lines[r].len());
                } else {
                    assert(out[r] == m.lines[r].subrange(0, c) + text[0]);
                    assert(out[r].len() >= c);
                }
            }
        }
    }
    let mm = doc_insert_model(m, text, beg);
    assert(mm.anchors.dom() =~= m.anchors.dom());
    assert(anchors_ok(mm)) by {
        assert(forall|h: u32| mm.anchors.dom().contains(h) ==> #[trigger] mm.anchors[h]
            == insert_rebase_pos(m.anchors[h], beg, text));
    }
    assert(text_wf(mm));
}

/// Rebasing for a removal neither underflows nor produces an invalid
/// position, and the rebased state is well formed.
pub proof fn lemma_remove_rebase(m: DocModel, range: Range)
    requires
        model_wf(m),
        range_valid_model(m.lines, range),
        lines_fit(splice_remove(m.lines, range)),
    ensures
        forall|p: Position| pos_valid_model(m.lines, p) ==> pos_valid_model(
            splice_remove(m.lines, range),
            #[trigger] remove_rebase_pos(p, range),
        ) && (pos_lt(range.ending, p) && p.row == range.ending.row
            ==> range.beginning.column + p.column - range.ending.column <= usize::MAX),
        model_wf(doc_remove_model(m, range)),
        doc_remove_model(m, range).anchors.dom() == m.anchors.dom(),
{
    let out = splice_remove(m.lines, range);
    let r1 = range.beginning.row as int;
    let c1 = range.beginning.column as int;
    let r2 = range.ending.row as int;
    let c2 = range.ending.column as int;
    lemma_remove_then_insert(m.lines, range);
    assert(out.len() == m.lines.len() - (r2 - r1));
    assert forall|p: Position| pos_valid_model(m.lines, p) implies pos_valid_model(
        out,
        #[trigger] remove_rebase_pos(p, range),
    ) && (pos_lt(range.ending, p) && p.row == range.ending.row ==> range.beginning.column
        + p.column - range.ending.column <= usize::MAX) by {
        let q = remove_rebase_pos(p, range);
        if pos_lt(range.ending, p) {
            if p.row == r2 {
                assert(p.column > c2);
                if r1 == r2 {
                    let back = m.lines[r1].subrange(0, c1) + m.lines[r1].subrange(
                        c2,
                        m.lines[r1].len() as int,
                    );
                    assert(out[r1] == back);
                    assert(c1 + p.column - c2 <= back.len());
                } else {
                    let glued = m.lines[r1].subrange(0, c1) + m.lines[r2].subrange(
                        c2,
                        m.lines[r2].len() as int,
                    );
                    assert(out[r1] == glued);
                    assert(c1 + p.column - c2 <= glued.len());
                }
                assert(q.row == r1);
            } else {
                assert(p.row > r2);
                assert(out[p.row - (r2 - r1)] == m.lines[p.row as int]);
            }
        } else if pos_lt(range.beginning, p) {
            assert(q == range.beginning);
            if r1 == r2 {
                assert(out[r1].len() >= c1);
            } else {
                assert(out[r1].len() >= c1);
            }
        } else {
            assert(q == p);
            assert(pos_le(p, range.beginning));
            if p.row < r1 {
                assert(out[p.row as int] == m.lines[p.row as int]);
            } else {
                assert(p.row == r1 && p.column <= c1);
                assert(out[r1].len() >= c1);
            }
        }
    }
    let mm = doc_remove_model(m, range);
    assert(mm.anchors.dom() =~= m.anchors.dom());
    assert(anchors_ok(mm)) by {
        assert(forall|h: u32| mm.anchors.dom().contains(h) ==> #[trigger] mm.anchors[h]
            == remove_rebase_pos(m.anchors[h], range));
    }
    assert(text_wf(mm));
}

/// Unicode column semantics: a one-line insertion grows the target line by
/// exactly the codepoint count of the inserted text, so a two-codepoint
/// emoji adds two columns, whatever its byte width or rendered shape. No
/// span is protected as an atomic grapheme: any range whose ends are valid
/// positions may be removed, including one splitting such an emoji.
pub proof fn lemma_insert_column_growth(m: DocModel, text: Seq<char>, pos: Position)
    requires
        model_wf(m),
        pos_valid_model(m.lines, pos),
        pos.column + text.len() <= usize::MAX,
    ensures
        ({
            let out = splice_insert(m.lines, pos, seq![text]);
            &&& out.len() == m.lines.len()
            &&& out[pos.row as int].len() == m.lines[pos.row as int].len() + text.len()
        }),
{
    let out = splice_insert(m.lines, pos, seq![text]);
    let r = pos.row as int;
    let c = pos.column as int;
    assert(out[r] == m.lines[r].subrange(0, c) + text + m.lines[r].subrange(
        c,
        m.lines[r].len() as int,
    ));
}

/// Recording a run of changes takes this shape: a fresh packet when the
/// stack is empty or a checkpoint is pending, otherwise the top packet
/// extended.
pub proof fn lemma_push_seq_shape(u: Seq<Seq<ChangeModel>>, cp: bool, cs: Seq<ChangeModel>)
    requires
        cs.len() >= 1,
    ensures
        stacks_after_push_seq(u, cp, cs) == (if u.len() == 0 || cp {
            u.push(cs)
        } else {
            u.update(u.len() - 1, u.last() + cs)
        }),
    decreases cs.len(),
{
    if cs.len() == 1 {
        assert(seq![cs[0]] =~= cs);
        if u.len() == 0 || cp {
            assert(stacks_after_push_seq(u, cp, cs) =~~= u.push(cs));
        } else {
            assert(u.last().push(cs[0]) =~= u.last() + cs);
            assert(stacks_after_push_seq(u, cp, cs) =~~= u.update(
                u.len() - 1,
                u.last() + cs,
            ));
        }
    } else {
        let dl = cs.drop_last();
        lemma_push_seq_shape(u, cp, dl);
        let rmid = stacks_after_push_seq(u, cp, dl);
        if u.len() == 0 || cp {
            assert(rmid == u.push(dl));
            assert(rmid.last() == dl);
            assert(rmid.last().push(cs.last()) =~= cs);
            assert(stacks_after_push_seq(u, cp, cs) =~~= u.push(cs));
        } else {
            assert(rmid == u.update(u.len() - 1, u.last() + dl));
            assert(rmid.last() == u.last() + dl);
            assert((u.last() + dl).push(cs.last()) =~= u.last() + cs);
            assert(stacks_after_push_seq(u, cp, cs) =~~= u.update(
                u.len() - 1,
                u.last() + cs,
            ));
        }
    }
}

/// Checkpoint grouping: two runs of changes recorded with a checkpoint
/// requested between them land in two separate packets, so they undo as two
/// steps; with no checkpoint between them they land in one packet, so they
/// undo as one step.
pub proof fn lemma_checkpoint_grouping(
    u: Seq<Seq<ChangeModel>>,
    cp: bool,
    cs1: Seq<ChangeModel>,
    cs2: Seq<ChangeModel>,
)
    requires
        cs1.len() >= 1,
        cs2.len() >= 1,
    ensures
        ({
            let u1 = stacks_after_push_seq(u, cp, cs1);
            &&& u1.len() >= 1
            &&& u1.last().len() >= 1
            &&& stacks_after_push_seq(u1, true, cs2) == u1.push(cs2)
            &&& stacks_after_push_seq(u1, true, cs2).len() == u1.len() + 1
            &&& stacks_after_push_seq(u1, false, cs2) == u1.update(
                u1.len() - 1,
                u1.last() + cs2,
            )
            &&& stacks_after_push_seq(u1, false, cs2).len() == u1.len()
        }),
{
    lemma_push_seq_shape(u, cp, cs1);
    let u1 = stacks_after_push_seq(u, cp, cs1);
    assert(u1.last().len() >= 1) by {
        if u.len() == 0 || cp {
        } else {
        }
    }
    lemma_push_seq_shape(u1, true, cs2);
    lemma_push_seq_shape(u1, false, cs2);
}

/// Insert/remove inverse: removing exactly the span that an insertion
/// produced restores both the text and every anchor to their state before
/// the insertion. The one excluded input is inserting nothing at all (a
/// single empty line), which the public interface rejects anyway.
pub proof fn lemma_insert_remove_inverse(m: DocModel, text: Seq<Seq<char>>, at: Position)
    requires
        model_wf(m),
        text.len() >= 1,
        text.len() > 1 || text[0].len() > 0,
        all_nl_free(text),
        pos_valid_model(m.lines, at),
        insert_fits(at, text),
        lines_fit(splice_insert(m.lines, at, text)),
    ensures
        ({
            let m1 = doc_insert_model(m, text, at);
            let rng = Range { beginning: at, ending: insert_end_pos(at, text) };
            doc_remove_model(m1, rng) == m
        }),
{
    let m1 = doc_insert_model(m, text, at);
    let ending = insert_end_pos(at, text);
    let rng = Range { beginning: at, ending };
    let k = text.len() as int;
    lemma_insert_then_remove(m.lines, at, text);
    lemma_insert_rebase(m, text, at);
    assert(splice_remove(m1.lines, rng) == m.lines);
    assert forall|p: Position| pos_valid_model(m.lines, p) implies remove_rebase_pos(
        #[trigger] insert_rebase_pos(p, at, text),
        rng,
    ) == p by {
        assert(insert_rebase_fits(p, at, text));
        if pos_le(at, p) {
            let q = insert_rebase_pos(p, at, text);
            if p.row == at.row {
                assert(p.column >= at.column);
                if k == 1 {
                    assert(ending.column == at.column + text[0].len());
                    assert(q.row == at.row && q.column == p.column + text[0].len());
                    if p.column == at.column {
                        assert(!pos_lt(ending, q));
                        assert(pos_lt(rng.beginning, q));
                        assert(remove_rebase_pos(q, rng) == at);
                        assert(at == p);
                    } else {
                        assert(pos_lt(ending, q));
                        assert(remove_rebase_pos(q, rng) == p);
                    }
                } else {
                    assert(ending.row == at.row + k - 1 && ending.column == text.last().len());
                    if p.column == at.column {
                        assert(q.row == ending.row && q.column == ending.column);
                        assert(!pos_lt(ending, q));
                        assert(pos_lt(rng.beginning, q));
                        assert(remove_rebase_pos(q, rng) == at);
                        assert(at == p);
                    } else {
                        assert(q.row == ending.row && q.column == text.last().len() + (
                        p.column - at.column));
                        assert(pos_lt(ending, q));
                        assert(remove_rebase_pos(q, rng) == p);
                    }
                }
            } else {
                assert(p.row > at.row);
                assert(q.row == p.row + k - 1 > ending.row);
                assert(pos_lt(ending, q));
                assert(remove_rebase_pos(q, rng) == p);
            }
        } else {
            assert(pos_lt(p, at));
            assert(insert_rebase_pos(p, at, text) == p);
            assert(pos_le(at, ending));
            assert(!pos_lt(ending, p));
            assert(!pos_lt(rng.beginning, p));
            assert(remove_rebase_pos(p, rng) == p);
        }
    }
    assert(remove_rebase_map(m1.anchors, rng) =~= m.anchors) by {
        assert forall|h: u32| #[trigger] m.anchors.dom().contains(h) implies remove_rebase_map(
            m1.anchors,
            rng,
        )[h] == m.anchors[h] by {
            assert(m1.anchors[h] == insert_rebase_pos(m.anchors[h], at, text));
            assert(pos_valid_model(m.lines, m.anchors[h]));
        }
    }
    assert(doc_remove_model(m1, rng) =~~= m);
}

} // verus!
