//! A buffer of text organized into lines, equipped with undo, redo, and
//! anchors. The top-level type of this crate.

use crate::anchors::has_key;
use crate::model::{
    anchors_ok, apply_change, change_valid, model_wf, pos_valid_model, range_valid_model,
    stack_valid, text_wf, ChangeModel, DocModel,
};
use crate::oops::Oops;
use crate::position::{pos_le, pos_lt};
use crate::textops::{join_text, lemma_join_snoc, split_lines, split_text};
use vstd::prelude::*;

use crate::anchors::pairs_map;
pub use crate::anchors::{Anchor, AnchorHandle, Anchors};
pub use crate::change::{Change, ChangePacket, UndoRedoStacks};
pub use crate::indentation::Indentation;
pub use crate::position::{Position, Range};
pub use crate::syntax::{Chain, ChainRegion};
pub use crate::util::push_all_at;

verus! {

/// A line of text stored in a document. It maintains its own codepoint count
/// so that length queries need not walk the text.
#[derive(PartialEq, Eq, Clone, Debug)]
pub struct Line {
    pub content: String,
    pub length: usize,
}

impl Line {
    /// The cached length always equals the codepoint count of the content.
    pub open spec fn wf(&self) -> bool {
        self.length == self.content@.len()
    }

    /// Returns the line containing `content`.
    pub fn from(content: String) -> (r: Line)
        ensures
            r.content@ == content@,
            r.wf(),
    {
        let length = content.as_str().unicode_len();
        Line { content, length }
    }
}

/// The text of a sequence of lines, line by line.
pub open spec fn lines_view(ls: Seq<Line>) -> Seq<Seq<char>> {
    Seq::new(ls.len(), |i: int| ls[i].content@)
}

/// Viewing lines commutes with inserting one.
pub proof fn lemma_lines_view_insert(v: Seq<Line>, i: int, l: Line)
    requires
        0 <= i <= v.len(),
    ensures
        lines_view(v.insert(i, l)) == lines_view(v).insert(i, l.content@),
{
    assert(lines_view(v.insert(i, l)) =~= lines_view(v).insert(i, l.content@));
}

/// Viewing lines commutes with updating one.
pub proof fn lemma_lines_view_update(v: Seq<Line>, i: int, l: Line)
    requires
        0 <= i < v.len(),
    ensures
        lines_view(v.update(i, l)) == lines_view(v).update(i, l.content@),
{
    assert(lines_view(v.update(i, l)) =~= lines_view(v).update(i, l.content@));
}

/// Viewing lines commutes with removing one.
pub proof fn lemma_lines_view_remove(v: Seq<Line>, i: int)
    requires
        0 <= i < v.len(),
    ensures
        lines_view(v.remove(i)) == lines_view(v).remove(i),
{
    assert(lines_view(v.remove(i)) =~= lines_view(v).remove(i));
}

/// Options for [`Document::insert`].
#[derive(PartialEq, Eq, Clone, Copy, Debug)]
pub struct InsertOptions {
    /// Should the insert operation expand escape commands? Recognized but
    /// unimplemented: only the exact path is supported.
    pub escapes: bool,
    /// Should the insert automatically indent lines after the first?
    /// Recognized but unimplemented.
    pub indent: bool,
    /// Should the insert adjust whitespace around the inserted content?
    /// Recognized but unimplemented.
    pub spacing: bool,
    /// If `None`, the insert takes place between the cursor and mark.
    /// Otherwise, the insert takes place at this range.
    pub range: Option<Range>,
}

impl InsertOptions {
    /// Insert options placing the text exactly as given at the current
    /// selection: no escapes, indentation, or spacing.
    pub fn exact() -> (r: InsertOptions)
        ensures
            r == (InsertOptions { escapes: false, indent: false, spacing: false, range: None }),
    {
        InsertOptions { escapes: false, indent: false, spacing: false, range: None }
    }

    /// Insert options placing the text exactly as given at `range`.
    pub fn exact_at(range: &Range) -> (r: InsertOptions)
        ensures
            r == (InsertOptions {
                escapes: false,
                indent: false,
                spacing: false,
                range: Some(*range),
            }),
    {
        InsertOptions { escapes: false, indent: false, spacing: false, range: Some(*range) }
    }
}

/// Options for [`Document::remove`].
#[derive(PartialEq, Eq, Clone, Copy, Debug)]
pub struct RemoveOptions {
    /// If `None`, the removal takes place between the cursor and mark.
    /// Otherwise, this range is removed.
    pub range: Option<Range>,
}

impl RemoveOptions {
    /// Remove options for a normal removal of the current selection.
    pub fn exact() -> (r: RemoveOptions)
        ensures
            r == (RemoveOptions { range: None }),
    {
        RemoveOptions { range: None }
    }

    /// Remove options for a normal removal at `range`.
    pub fn exact_at(range: &Range) -> (r: RemoveOptions)
        ensures
            r == (RemoveOptions { range: Some(*range) }),
    {
        RemoveOptions { range: Some(*range) }
    }
}

/// The anchor map of a freshly created document: cursor and mark at (0, 0).
pub open spec fn initial_anchors() -> Map<AnchorHandle, Position> {
    Map::empty().insert(0, Position { row: 0, column: 0 }).insert(
        1,
        Position { row: 0, column: 0 },
    )
}

/// The selection of a state: the range between its cursor and mark, in
/// document order.
pub open spec fn sel_model(m: DocModel) -> Range {
    if pos_le(m.anchors[0], m.anchors[1]) {
        Range { beginning: m.anchors[0], ending: m.anchors[1] }
    } else {
        Range { beginning: m.anchors[1], ending: m.anchors[0] }
    }
}

/// The range a public edit acts on: the one given, or the selection.
pub open spec fn resolved_range(m: DocModel, opt: Option<Range>) -> Range {
    match opt {
        None => sel_model(m),
        Some(r) => r,
    }
}

/// A buffer of text organized into lines. Equipped with undo, redo, and
/// anchors.
pub struct Document {
    lines: Vec<Line>,
    anchors: Anchors,
    indentation: Indentation,
    undo_redo: UndoRedoStacks,
    language: String,
    parser: Option<tree_sitter::Parser>,
    syntax: Option<crate::syntax::SynNode>,
}

impl Document {
    /// The state of the document: its lines, anchors, indentation policy and
    /// language, as the change machinery sees them.
    pub closed spec fn model(&self) -> DocModel {
        DocModel {
            lines: lines_view(self.lines@),
            anchors: self.anchors.amap(),
            next_id: self.anchors.spec_next_id(),
            indentation: self.indentation,
            language: self.language@,
        }
    }

    /// The packets of the undo stack, oldest first.
    pub closed spec fn undo_models(&self) -> Seq<Seq<ChangeModel>> {
        self.undo_redo.undo_packets()
    }

    /// The packets of the redo stack, oldest first.
    pub closed spec fn redo_models(&self) -> Seq<Seq<ChangeModel>> {
        self.undo_redo.redo_packets()
    }

    /// Whether a checkpoint is pending, so that the next tracked change
    /// opens a new packet.
    pub closed spec fn checkpoint_pending(&self) -> bool {
        self.undo_redo.checkpoint_pending()
    }

    /// The cached line lengths are correct and the anchor store is sound.
    pub closed spec fn repr_wf(&self) -> bool {
        &&& forall|i: int| 0 <= i < self.lines@.len() ==> (#[trigger] self.lines@[i]).wf()
        &&& self.anchors.wf()
    }

    /// The entries of the anchor store, in storage order.
    pub closed spec fn anchors_entries(&self) -> Seq<(AnchorHandle, Anchor)> {
        self.anchors@
    }

    /// The validated parse tree currently held, if any.
    pub closed spec fn syntax_model(&self) -> Option<crate::syntax::SynNode> {
        self.syntax
    }

    /// Any held parser is set up for the document's current language, which
    /// is then a registered one.
    pub closed spec fn parser_ok(&self) -> bool {
        match self.parser {
            Some(p) => crate::ts::parser_for(p) == self.language@
                && crate::language::registered(self.language@),
            None => true,
        }
    }

    /// Whatever parse tree is held is current: it is the validated parse of
    /// the document's own language and text, so its spans are valid in the
    /// current lines, and it exists only for a registered language.
    pub open spec fn syntax_wf(&self) -> bool {
        match self.syntax_model() {
            None => true,
            Some(t) => {
                &&& crate::syntax::syn_wf(t, self.model().lines)
                &&& crate::language::registered(self.model().language)
                &&& (match crate::syntax::validate_view(
                    crate::ts::parse_of(
                        self.model().language,
                        join_text(self.model().lines),
                    ),
                    self.model().lines,
                ) {
                    Some(v) => crate::syntax::node_matches(t, v),
                    None => false,
                })
            },
        }
    }

    /// Everything that must hold of a document except that its anchors sit
    /// at valid positions and that its history is coherent: used in the
    /// middle of applying a packet.
    pub open spec fn core_wf(&self) -> bool {
        &&& self.repr_wf()
        &&& self.parser_ok()
        &&& text_wf(self.model())
    }

    /// The full invariant of a document at rest: valid anchors, and undo and
    /// redo stacks whose packets can actually be applied, each restoring a
    /// state whose anchors are all valid.
    pub open spec fn wf(&self) -> bool {
        &&& self.core_wf()
        &&& self.syntax_wf()
        &&& anchors_ok(self.model())
        &&& stack_valid(self.model(), self.undo_models())
        &&& stack_valid(self.model(), self.redo_models())
    }

    /// Returns an empty document with one empty line, a cursor and a mark at
    /// (0, 0), four-space indentation, and no language.
    pub fn new() -> (r: Document)
        ensures
            r.wf(),
            r.model() == (DocModel {
                lines: seq![Seq::<char>::empty()],
                anchors: initial_anchors(),
                next_id: 2u32,
                indentation: Indentation { use_spaces: true, spaces_per_tab: 4 },
                language: Seq::<char>::empty(),
            }),
            r.undo_models() == Seq::<Seq<ChangeModel>>::empty(),
            r.redo_models() == Seq::<Seq<ChangeModel>>::empty(),
            !r.checkpoint_pending(),
    {
        let mut lines: Vec<Line> = Vec::new();
        lines.push(Line::from(String::new()));
        let r = Document {
            lines,
            anchors: Anchors::new(),
            indentation: Indentation::spaces(4),
            undo_redo: UndoRedoStacks::new(),
            language: String::new(),
            parser: None,
            syntax: None,
        };
        proof {
            assert(lines_view(r.lines@) =~= seq![Seq::<char>::empty()]);
            crate::anchors::lemma_pairs_map_two(
                (0u32, Anchor { position: Position { row: 0, column: 0 } }),
                (1u32, Anchor { position: Position { row: 0, column: 0 } }),
            );
            assert(r.anchors.amap() =~= initial_anchors());
            assert(r.model() =~~= (DocModel {
                lines: seq![Seq::<char>::empty()],
                anchors: initial_anchors(),
                next_id: 2u32,
                indentation: Indentation { use_spaces: true, spaces_per_tab: 4 },
                language: Seq::<char>::empty(),
            }));
            assert(r.wf()) by {
                assert(r.model().anchors.dom().contains(0));
                assert(r.model().anchors.dom().contains(1));
                assert(forall|h: u32| r.model().anchors.dom().contains(h) ==> h < 2);
                assert(pos_valid_model(r.model().lines, Position { row: 0, column: 0 }));
            }
        }
        r
    }

    /// Returns a document initialized from `text`, split into lines on every
    /// line terminator. The result always has at least one line, even for
    /// empty input.
    pub fn from(text: &str) -> (r: Document)
        ensures
            r.wf(),
            r.model() == (DocModel {
                lines: split_text(text@),
                anchors: initial_anchors(),
                next_id: 2u32,
                indentation: Indentation { use_spaces: true, spaces_per_tab: 4 },
                language: Seq::<char>::empty(),
            }),
            r.undo_models() == Seq::<Seq<ChangeModel>>::empty(),
            r.redo_models() == Seq::<Seq<ChangeModel>>::empty(),
            !r.checkpoint_pending(),
    {
        let parts = split_lines(text);
        let ghost parts0 = parts.deep_view();
        let mut lines: Vec<Line> = Vec::new();
        proof {
            assert(lines_view(lines@) =~= parts0.subrange(0, 0));
        }
        let n = parts.len();
        let mut i: usize = 0;
        while i < n
            invariant
                i <= n,
                n == parts@.len(),
                parts0 == parts.deep_view(),
                lines_view(lines@) =~= parts0.subrange(0, i as int),
                forall|j: int| 0 <= j < lines@.len() ==> (#[trigger] lines@[j]).wf(),
            decreases n - i,
        {
            let s = parts[i].clone();
            let ghost lv0 = lines_view(lines@);
            lines.push(Line::from(s));
            proof {
                assert(s@ == parts0[i as int]);
                assert(lines_view(lines@) =~= lv0.push(s@));
                assert(lines_view(lines@) =~= parts0.subrange(0, i + 1));
            }
            i = i + 1;
        }
        proof {
            assert(lines_view(lines@) =~= parts0);
        }
        let r = Document {
            lines,
            anchors: Anchors::new(),
            indentation: Indentation::spaces(4),
            undo_redo: UndoRedoStacks::new(),
            language: String::new(),
            parser: None,
            syntax: None,
        };
        proof {
            crate::textops::lemma_split_nl_free(text@);
            crate::textops::lemma_split_len(text@);
            crate::anchors::lemma_pairs_map_two(
                (0u32, Anchor { position: Position { row: 0, column: 0 } }),
                (1u32, Anchor { position: Position { row: 0, column: 0 } }),
            );
            assert(r.anchors.amap() =~= initial_anchors());
            assert(r.model() =~~= (DocModel {
                lines: split_text(text@),
                anchors: initial_anchors(),
                next_id: 2u32,
                indentation: Indentation { use_spaces: true, spaces_per_tab: 4 },
                language: Seq::<char>::empty(),
            }));
            assert(r.wf()) by {
                assert(r.model().anchors.dom().contains(0));
                assert(r.model().anchors.dom().contains(1));
                assert(forall|h: u32| r.model().anchors.dom().contains(h) ==> h < 2);
                assert(pos_valid_model(r.model().lines, Position { row: 0, column: 0 }));
            }
        }
        r
    }

    /// Returns whether `position` is legal in this document. A line of 5
    /// characters admits columns 0 through 5, inclusive.
    pub fn position_valid(&self, position: &Position) -> (r: bool)
        requires
            self.core_wf(),
        ensures
            r == pos_valid_model(self.model().lines, *position),
    {
        position.row < self.lines.len() && position.column <= self.lines[position.row].length
    }

    /// Returns whether `range` is legal in this document: both ends valid,
    /// and the beginning not after the ending.
    pub fn range_valid(&self, range: &Range) -> (r: bool)
        requires
            self.core_wf(),
        ensures
            r == range_valid_model(self.model().lines, *range),
    {
        self.position_valid(&range.beginning) && self.position_valid(&range.ending)
            && range.beginning.le(&range.ending)
    }

    /// Returns the `index`th line, or `None` if out of bounds.
    pub fn line(&self, index: usize) -> (r: Option<&String>)
        ensures
            (match r {
                Some(s) => index < self.model().lines.len() && s@ == self.model().lines[
                    index as int
                ],
                None => index >= self.model().lines.len(),
            }),
    {
        if index >= self.lines.len() {
            None
        } else {
            Some(&self.lines[index].content)
        }
    }

    /// Returns the lines of the document. There is always at least one.
    pub fn lines(&self) -> (r: &Vec<Line>)
        requires
            self.repr_wf(),
        ensures
            lines_view(r@) == self.model().lines,
            forall|i: int| 0 <= i < r@.len() ==> (#[trigger] r@[i]).content@
                == self.model().lines[i],
            forall|i: int| 0 <= i < r@.len() ==> (#[trigger] r@[i]).wf(),
    {
        &self.lines
    }

    /// Returns the number of rows in the document, always at least 1.
    pub fn rows(&self) -> (r: usize)
        ensures
            r == self.model().lines.len(),
    {
        self.lines.len()
    }

    /// Returns the indentation policy of this document.
    pub fn indentation(&self) -> (r: Indentation)
        ensures
            r == self.model().indentation,
    {
        self.indentation
    }

    /// Returns all (handle, anchor) pairs, in storage order.
    pub fn anchors(&self) -> (r: Vec<(AnchorHandle, Anchor)>)
        requires
            self.repr_wf(),
        ensures
            r@.len() == self.model().anchors.dom().len(),
            forall|i: int| 0 <= i < r@.len() ==> self.model().anchors.dom().contains(
                (#[trigger] r@[i]).0,
            ) && self.model().anchors[r@[i].0] == r@[i].1.position,
    {
        let n = self.anchors.len();
        let mut r: Vec<(AnchorHandle, Anchor)> = Vec::new();
        let mut i: usize = 0;
        proof {
            crate::anchors::lemma_pairs_len(self.anchors@);
        }
        while i < n
            invariant
                i <= n,
                n == self.anchors@.len(),
                self.repr_wf(),
                r@.len() == i,
                forall|j: int| 0 <= j < i ==> r@[j] == self.anchors@[j],
            decreases n - i,
        {
            let p = self.anchors.entry(i);
            r.push(p);
            i = i + 1;
        }
        proof {
            assert(forall|j: int| 0 <= j < r@.len() ==> r@[j] == self.anchors@[j]);
            assert forall|j: int| 0 <= j < r@.len() implies self.model().anchors.dom().contains(
                (#[trigger] r@[j]).0,
            ) && self.model().anchors[r@[j].0] == r@[j].1.position by {
                crate::anchors::lemma_pairs_map_index(self.anchors@, j);
            }
        }
        r
    }

    /// Returns anchor `handle`, or `None` for an invalid handle.
    pub fn anchor(&self, handle: AnchorHandle) -> (r: Option<Anchor>)
        requires
            self.repr_wf(),
        ensures
            (match r {
                Some(a) => self.model().anchors.dom().contains(handle) && a.position
                    == self.model().anchors[handle],
                None => !self.model().anchors.dom().contains(handle),
            }),
    {
        self.anchors.get(handle)
    }

    /// Returns the cursor.
    pub fn cursor(&self) -> (r: Anchor)
        requires
            self.repr_wf(),
        ensures
            self.model().anchors.dom().contains(0),
            r.position == self.model().anchors[0],
    {
        self.anchors.cursor()
    }

    /// Returns the mark.
    pub fn mark(&self) -> (r: Anchor)
        requires
            self.repr_wf(),
        ensures
            self.model().anchors.dom().contains(1),
            r.position == self.model().anchors[1],
    {
        self.anchors.mark()
    }

    /// Returns the range between the cursor and mark, in document order.
    /// There is no way to tell from it which end is the cursor.
    pub fn selection(&self) -> (r: Range)
        requires
            self.repr_wf(),
        ensures
            r == sel_model(self.model()),
    {
        let cursor = self.cursor();
        let mark = self.mark();
        if cursor.position.le(&mark.position) {
            Range { beginning: cursor.position, ending: mark.position }
        } else {
            Range { beginning: mark.position, ending: cursor.position }
        }
    }

    /// Returns the undo and redo stacks.
    pub fn undo_redo(&self) -> (r: &UndoRedoStacks)
        ensures
            r.undo_packets() == self.undo_models(),
            r.redo_packets() == self.redo_models(),
            r.checkpoint_pending() == self.checkpoint_pending(),
    {
        &self.undo_redo
    }

    /// Returns the document as a single string with lines separated by a
    /// line terminator.
    pub fn text(&self) -> (r: String)
        ensures
            r@ == join_text(self.model().lines),
    {
        let mut result = String::new();
        let n = self.lines.len();
        let mut i: usize = 0;
        proof {
            reveal_strlit("\n");
            assert("\n"@ =~= seq!['\n']);
        }
        while i < n
            invariant
                i <= n,
                n == self.lines@.len(),
                "\n"@ == seq!['\n'],
                result@ == join_text(lines_view(self.lines@).subrange(0, i as int)),
            decreases n - i,
        {
            let ghost lv = lines_view(self.lines@);
            if i > 0 {
                result.append("\n");
            }
            result.append(self.lines[i].content.as_str());
            proof {
                if i == 0 {
                    assert(lv.subrange(0, 1) =~= seq![lv[0]]);
                    assert(result@ =~= join_text(lv.subrange(0, 1)));
                } else {
                    lemma_join_snoc(lv.subrange(0, i as int), lv[i as int]);
                    assert(lv.subrange(0, i + 1) =~= lv.subrange(0, i as int).push(lv[i as int]));
                    assert(result@ =~= join_text(lv.subrange(0, i + 1)));
                }
            }
            i = i + 1;
        }
        proof {
            assert(lines_view(self.lines@).subrange(0, n as int) =~= lines_view(self.lines@));
        }
        result
    }

    /// Returns the text within `range` as a single string with lines
    /// separated by a line terminator, or `None` if the range is invalid.
    pub fn text_range(&self, range: &Range) -> (r: Option<String>)
        requires
            self.core_wf(),
        ensures
            (match r {
                Some(s) => range_valid_model(self.model().lines, *range) && s@ == join_text(
                    crate::model::removed_lines(self.model().lines, *range),
                ),
                None => !range_valid_model(self.model().lines, *range),
            }),
    {
        if !self.range_valid(range) {
            return None;
        }
        let r1 = range.beginning.row;
        let c1 = range.beginning.column;
        let r2 = range.ending.row;
        let c2 = range.ending.column;
        let ghost lv = self.model().lines;
        let ghost removed = crate::model::removed_lines(lv, *range);
        if r1 == r2 {
            let s = self.lines[r1].content.as_str().substring_char(c1, c2).to_owned();
            proof {
                assert(removed =~= seq![lv[r1 as int].subrange(c1 as int, c2 as int)]);
                assert(join_text(removed) == removed[0]);
            }
            Some(s)
        } else {
            let len1 = self.lines[r1].length;
            let mut s = self.lines[r1].content.as_str().substring_char(c1, len1).to_owned();
            proof {
                reveal_strlit("\n");
                assert("\n"@ =~= seq!['\n']);
                assert(removed.subrange(0, 1) =~= seq![removed[0]]);
                assert(s@ == join_text(removed.subrange(0, 1)));
            }
            let mut j = r1 + 1;
            while j < r2
                invariant
                    r1 < j <= r2 < lv.len(),
                    self.core_wf(),
                    lv == self.model().lines,
                    removed == crate::model::removed_lines(lv, *range),
                    range.beginning.row == r1 && range.beginning.column == c1,
                    range.ending.row == r2 && range.ending.column == c2,
                    removed.len() == r2 - r1 + 1,
                    forall|t: int| 0 < t < removed.len() - 1 ==> removed[t] == lv[r1 + t],
                    "\n"@ == seq!['\n'],
                    s@ == join_text(removed.subrange(0, j - r1)),
                decreases r2 - j,
            {
                s.append("\n");
                s.append(self.lines[j].content.as_str());
                proof {
                    lemma_join_snoc(removed.subrange(0, j - r1), removed[j - r1]);
                    assert(removed.subrange(0, j - r1 + 1) =~= removed.subrange(0, j - r1).push(
                        removed[j - r1],
                    ));
                    assert(s@ == join_text(removed.subrange(0, j - r1 + 1)));
                }
                j = j + 1;
            }
            s.append("\n");
            s.append(self.lines[r2].content.as_str().substring_char(0, c2));
            proof {
                lemma_join_snoc(removed.subrange(0, r2 - r1), removed[r2 - r1]);
                assert(removed.subrange(0, r2 - r1 + 1) =~= removed.subrange(0, r2 - r1).push(
                    removed[r2 - r1],
                ));
                assert(removed.subrange(0, r2 - r1 + 1) =~= removed);
                assert(s@ == join_text(removed));
            }
            Some(s)
        }
    }

    /// Inserts `text`, a list of one or more terminator-free lines, into the
    /// document at `position`, exactly as given. Returns the change which
    /// would undo this modification.
    pub fn insert_untracked(&mut self, text: &Vec<String>, position: &Position) -> (r: Change)
        requires
            old(self).core_wf(),
            text@.len() >= 1,
            crate::textops::all_nl_free(text.deep_view()),
            pos_valid_model(old(self).model().lines, *position),
        ensures
            final(self).core_wf(),
            change_valid(
                old(self).model(),
                ChangeModel::Insert { text: text.deep_view(), position: *position },
            ),
            final(self).model() == apply_change(
                old(self).model(),
                ChangeModel::Insert { text: text.deep_view(), position: *position },
            ).0,
            r@ == apply_change(
                old(self).model(),
                ChangeModel::Insert { text: text.deep_view(), position: *position },
            ).1,
            final(self).undo_models() == old(self).undo_models(),
            final(self).redo_models() == old(self).redo_models(),
            final(self).checkpoint_pending() == old(self).checkpoint_pending(),
            final(self).anchors_entries() == old(self).anchors_entries(),
            final(self).syntax_wf(),
    {
        let ghost m0 = self.model();
        let ghost tdv = text.deep_view();
        let row = position.row;
        let col = position.column;
        let k = text.len();
        let line_len = self.lines[row].length;
        let before = self.lines[row].content.as_str().substring_char(0, col).to_owned();
        let after = self.lines[row].content.as_str().substring_char(col, line_len).to_owned();
        if k == 1 {
            let mut mid = before;
            mid.append(text[0].as_str());
            let end_col = mid.as_str().unicode_len();
            mid.append(after.as_str());
            let newline = Line::from(mid);
            self.lines.set(row, newline);
            proof {
                assert(tdv[0] == text@[0]@);
                assert(end_col == col + tdv[0].len());
                assert(crate::model::insert_fits(*position, tdv));
                crate::model::lemma_insert_then_remove(m0.lines, *position, tdv);
                assert(lines_view(self.lines@) =~~= crate::model::splice_insert(
                    m0.lines,
                    *position,
                    tdv,
                ));
                assert(self.model() =~~= apply_change(
                    m0,
                    ChangeModel::Insert { text: tdv, position: *position },
                ).0);
            }
            self.update_parse();
            Change::Remove {
                range: Range {
                    beginning: *position,
                    ending: Position { row, column: end_col },
                },
            }
        } else {
            let ghost n0 = self.lines@.len() as int;
            let mut first = before;
            first.append(text[0].as_str());
            self.lines.set(row, Line::from(first));
            let ghost lv1 = lines_view(self.lines@);
            let mut j: usize = 1;
            while j < k - 1
                invariant
                    1 <= j <= k - 1,
                    k == tdv.len(),
                    k == text@.len(),
                    row < n0,
                    n0 == lv1.len(),
                    self.anchors == old(self).anchors,
                    self.indentation == old(self).indentation,
                    self.undo_redo == old(self).undo_redo,
                    self.language == old(self).language,
                    self.parser == old(self).parser,
                    tdv == text.deep_view(),
                    forall|t: int| 0 <= t < text@.len() ==> (#[trigger] text@[t])@ == tdv[t],
                    self.lines@.len() == n0 + j - 1,
                    lines_view(self.lines@) =~= lv1.subrange(0, row + 1) + tdv.subrange(
                        1,
                        j as int,
                    ) + lv1.subrange(row + 1, n0),
                    forall|i: int| 0 <= i < self.lines@.len() ==> (#[trigger] self.lines@[i]).wf(),
                decreases k - j,
            {
                let ghost lvp = lines_view(self.lines@);
                let ghost vpre = self.lines@;
                let cur_len = self.lines.len();
                proof {
                    assert(row + j <= cur_len);
                }
                let newline = Line::from(text[j].clone());
                let ghost nl = newline;
                self.lines.insert(row + j, newline);
                proof {
                    lemma_lines_view_insert(vpre, row + j, nl);
                    assert(nl.content@ == tdv[j as int]);
                    assert(lines_view(self.lines@) == lvp.insert(row + j, tdv[j as int]));
                    assert(lines_view(self.lines@) =~= lv1.subrange(0, row + 1) + tdv.subrange(
                        1,
                        j + 1,
                    ) + lv1.subrange(row + 1, n0));
                }
                j = j + 1;
            }
            let mut lastline = text[k - 1].clone();
            let end_col = lastline.as_str().unicode_len();
            lastline.append(after.as_str());
            let ghost lvp = lines_view(self.lines@);
            let ghost vpre = self.lines@;
            let cur_len = self.lines.len();
            proof {
                assert(row + (k - 1) <= cur_len);
            }
            let lastentry = Line::from(lastline);
            let ghost le = lastentry;
            self.lines.insert(row + (k - 1), lastentry);
            let end_row = row + (k - 1);
            proof {
                assert(end_col == tdv.last().len());
                assert(crate::model::insert_fits(*position, tdv));
                crate::model::lemma_insert_then_remove(m0.lines, *position, tdv);
                lemma_lines_view_insert(vpre, row + (k - 1), le);
                assert(le.content@ == tdv.last() + m0.lines[row as int].subrange(
                    col as int,
                    m0.lines[row as int].len() as int,
                ));
                assert(lines_view(self.lines@) == lvp.insert(row + (k - 1), le.content@));
                assert(lines_view(self.lines@) =~~= crate::model::splice_insert(
                    m0.lines,
                    *position,
                    tdv,
                ));
                assert(self.model() =~~= apply_change(
                    m0,
                    ChangeModel::Insert { text: tdv, position: *position },
                ).0);
            }
            self.update_parse();
            Change::Remove {
                range: Range {
                    beginning: *position,
                    ending: Position { row: end_row, column: end_col },
                },
            }
        }
    }

    /// Removes the text at `range`. Returns the change which would undo this
    /// modification.
    #[verifier::rlimit(60)]
    pub fn remove_untracked(&mut self, range: &Range) -> (r: Change)
        requires
            old(self).core_wf(),
            range_valid_model(old(self).model().lines, *range),
        ensures
            final(self).core_wf(),
            final(self).model() == apply_change(
                old(self).model(),
                ChangeModel::Remove { range: *range },
            ).0,
            r@ == apply_change(old(self).model(), ChangeModel::Remove { range: *range }).1,
            final(self).undo_models() == old(self).undo_models(),
            final(self).redo_models() == old(self).redo_models(),
            final(self).checkpoint_pending() == old(self).checkpoint_pending(),
            final(self).anchors_entries() == old(self).anchors_entries(),
            final(self).syntax_wf(),
    {
        let ghost m0 = self.model();
        let r1 = range.beginning.row;
        let c1 = range.beginning.column;
        let r2 = range.ending.row;
        let c2 = range.ending.column;
        proof {
            crate::model::lemma_remove_then_insert(m0.lines, *range);
        }
        if r1 == r2 {
            let len1 = self.lines[r1].length;
            let removed = self.lines[r1].content.as_str().substring_char(c1, c2).to_owned();
            let mut kept = self.lines[r1].content.as_str().substring_char(0, c1).to_owned();
            kept.append(self.lines[r1].content.as_str().substring_char(c2, len1));
            self.lines.set(r1, Line::from(kept));
            let ghost rl = crate::model::removed_lines(m0.lines, *range);
            let mut text: Vec<String> = Vec::new();
            text.push(removed);
            proof {
                assert(text.deep_view() =~= rl);
                assert(lines_view(self.lines@) =~~= crate::model::splice_remove(
                    m0.lines,
                    *range,
                ));
                assert(self.model() =~~= apply_change(
                    m0,
                    ChangeModel::Remove { range: *range },
                ).0);
            }
            self.update_parse();
            Change::Insert { text, position: range.beginning }
        } else {
            let ghost n0 = self.lines@.len() as int;
            let ghost rl = crate::model::removed_lines(m0.lines, *range);
            let len1 = self.lines[r1].length;
            let len2 = self.lines[r2].length;
            let first_cut = self.lines[r1].content.as_str().substring_char(c1, len1).to_owned();
            let first_keep = self.lines[r1].content.as_str().substring_char(0, c1).to_owned();
            let last_cut = self.lines[r2].content.as_str().substring_char(0, c2).to_owned();
            let last_keep = self.lines[r2].content.as_str().substring_char(c2, len2).to_owned();
            let mut text: Vec<String> = Vec::new();
            text.push(first_cut);
            proof {
                assert(text.deep_view() =~= rl.subrange(0, 1));
            }
            let mut t: usize = 0;
            let ghost lv0 = m0.lines;
            while t < r2 - r1 - 1
                invariant
                    0 <= t <= r2 - r1 - 1,
                    r1 < r2 < n0,
                    n0 == lv0.len(),
                    self.anchors == old(self).anchors,
                    self.indentation == old(self).indentation,
                    self.undo_redo == old(self).undo_redo,
                    self.language == old(self).language,
                    self.parser == old(self).parser,
                    lv0 == lines_view(old(self).lines@),
                    self.lines@.len() == n0 - t,
                    lines_view(self.lines@) =~= lv0.subrange(0, r1 + 1) + lv0.subrange(
                        r1 + 1 + t,
                        n0,
                    ),
                    forall|i: int| 0 <= i < self.lines@.len() ==> (#[trigger] self.lines@[i]).wf(),
                    rl.len() == r2 - r1 + 1,
                    forall|u: int| 0 < u < rl.len() - 1 ==> rl[u] == lv0[r1 + u],
                    text.deep_view() =~= rl.subrange(0, t + 1),
                decreases r2 - r1 - 1 - t,
            {
                let ghost lvp = lines_view(self.lines@);
                let ghost textp = text.deep_view();
                let ghost vpre = self.lines@;
                let l = self.lines.remove(r1 + 1);
                text.push(l.content);
                proof {
                    assert(l == vpre[r1 + 1]);
                    assert(lvp[r1 + 1] == vpre[r1 + 1].content@);
                    assert(lvp[r1 + 1] == lv0[r1 + 1 + t]);
                    assert(lines_view(self.lines@) =~= lvp.remove(r1 + 1));
                    assert(lines_view(self.lines@) =~= lv0.subrange(0, r1 + 1) + lv0.subrange(
                        r1 + 1 + (t + 1),
                        n0,
                    ));
                    assert(l.content@ == lv0[r1 + 1 + t]);
                    assert(text.deep_view() =~= textp.push(l.content@));
                    assert(text.deep_view() =~= rl.subrange(0, t + 2));
                }
                t = t + 1;
            }
            let ghost textp = text.deep_view();
            let ghost lvp2 = lines_view(self.lines@);
            let ghost vpre2 = self.lines@;
            let _dropped = self.lines.remove(r1 + 1);
            proof {
                lemma_lines_view_remove(vpre2, r1 + 1);
                assert(lines_view(self.lines@) == lvp2.remove(r1 + 1));
                assert(lines_view(self.lines@) =~= lv0.subrange(0, r1 + 1) + lv0.subrange(
                    r2 + 1,
                    n0,
                ));
            }
            text.push(last_cut);
            let mut glued = first_keep;
            glued.append(last_keep.as_str());
            let gline = Line::from(glued);
            let ghost gl = gline;
            let ghost vpre3 = self.lines@;
            self.lines.set(r1, gline);
            proof {
                lemma_lines_view_update(vpre3, r1 as int, gl);
                assert(text.deep_view() =~= textp.push(last_cut@));
                assert(text.deep_view() =~= rl);
                assert(gl.content@ == m0.lines[r1 as int].subrange(0, c1 as int)
                    + m0.lines[r2 as int].subrange(c2 as int, m0.lines[r2 as int].len() as int));
                assert(lines_view(self.lines@) =~= crate::model::splice_remove(
                    m0.lines,
                    *range,
                ));
                assert(self.model() =~~= apply_change(
                    m0,
                    ChangeModel::Remove { range: *range },
                ).0);
            }
            self.update_parse();
            Change::Insert { text, position: range.beginning }
        }
    }

    /// Sets the content of anchor `handle` to `value`. Returns the change
    /// which would undo this modification.
    pub fn set_anchor_untracked(&mut self, handle: AnchorHandle, value: &Anchor) -> (r: Change)
        requires
            old(self).core_wf(),
            old(self).model().anchors.dom().contains(handle),
        ensures
            final(self).core_wf(),
            final(self).model() == apply_change(
                old(self).model(),
                ChangeModel::AnchorSet { handle, value: value.position },
            ).0,
            r@ == apply_change(
                old(self).model(),
                ChangeModel::AnchorSet { handle, value: value.position },
            ).1,
            final(self).undo_models() == old(self).undo_models(),
            final(self).redo_models() == old(self).redo_models(),
            final(self).checkpoint_pending() == old(self).checkpoint_pending(),
            final(self).model().lines == old(self).model().lines,
            final(self).syntax_model() == old(self).syntax_model(),
            final(self).anchors_entries().len() == old(self).anchors_entries().len(),
            forall|j: int|
                #![trigger final(self).anchors_entries()[j]]
                0 <= j < old(self).anchors_entries().len() ==> {
                    let e0 = old(self).anchors_entries();
                    let e1 = final(self).anchors_entries();
                    e1[j].0 == e0[j].0 && (e0[j].0 != handle ==> e1[j] == e0[j]) && (e0[j].0
                        == handle ==> e1[j].1 == *value)
                },
    {
        let ghost m0 = self.model();
        match self.anchors.set(handle, value) {
            Ok(original) => {
                proof {
                    assert(self.model() =~~= apply_change(
                        m0,
                        ChangeModel::AnchorSet { handle, value: value.position },
                    ).0);
                }
                Change::AnchorSet { handle, value: original }
            },
            Err(_) => {
                proof {
                    assert(false);
                }
                Change::AnchorRemove { handle }
            },
        }
    }

    /// Inserts a new anchor at `handle` with value `value`. Returns the
    /// change which would undo this modification.
    pub fn insert_anchor_untracked(&mut self, handle: AnchorHandle, value: &Anchor) -> (r: Change)
        requires
            old(self).core_wf(),
            !old(self).model().anchors.dom().contains(handle),
            handle < old(self).model().next_id,
        ensures
            final(self).core_wf(),
            final(self).model() == apply_change(
                old(self).model(),
                ChangeModel::AnchorInsert { handle, value: value.position },
            ).0,
            r@ == apply_change(
                old(self).model(),
                ChangeModel::AnchorInsert { handle, value: value.position },
            ).1,
            final(self).undo_models() == old(self).undo_models(),
            final(self).redo_models() == old(self).redo_models(),
            final(self).checkpoint_pending() == old(self).checkpoint_pending(),
            final(self).model().lines == old(self).model().lines,
            final(self).syntax_model() == old(self).syntax_model(),
    {
        let ghost m0 = self.model();
        self.anchors.create(*value, Some(handle));
        proof {
            assert(self.model() =~~= apply_change(
                m0,
                ChangeModel::AnchorInsert { handle, value: value.position },
            ).0);
        }
        Change::AnchorRemove { handle }
    }

    /// Removes the anchor at `handle`. Returns the change which would undo
    /// this modification.
    pub fn remove_anchor_untracked(&mut self, handle: AnchorHandle) -> (r: Change)
        requires
            old(self).core_wf(),
            old(self).model().anchors.dom().contains(handle),
            handle != 0,
            handle != 1,
        ensures
            final(self).core_wf(),
            final(self).model() == apply_change(
                old(self).model(),
                ChangeModel::AnchorRemove { handle },
            ).0,
            r@ == apply_change(old(self).model(), ChangeModel::AnchorRemove { handle }).1,
            final(self).undo_models() == old(self).undo_models(),
            final(self).redo_models() == old(self).redo_models(),
            final(self).checkpoint_pending() == old(self).checkpoint_pending(),
            final(self).model().lines == old(self).model().lines,
            final(self).syntax_model() == old(self).syntax_model(),
    {
        let ghost m0 = self.model();
        match self.anchors.remove(handle) {
            Ok(original) => {
                proof {
                    assert(self.model() =~~= apply_change(
                        m0,
                        ChangeModel::AnchorRemove { handle },
                    ).0);
                }
                Change::AnchorInsert { handle, value: original }
            },
            Err(_) => {
                proof {
                    assert(false);
                }
                Change::AnchorRemove { handle }
            },
        }
    }

    /// Sets the indentation policy. Returns the change which would undo this
    /// modification.
    pub fn set_indentation_untracked(&mut self, value: &Indentation) -> (r: Change)
        requires
            old(self).core_wf(),
            value.spaces_per_tab >= 1,
        ensures
            final(self).core_wf(),
            final(self).model() == apply_change(
                old(self).model(),
                ChangeModel::IndentationChange { value: *value },
            ).0,
            r@ == apply_change(
                old(self).model(),
                ChangeModel::IndentationChange { value: *value },
            ).1,
            final(self).undo_models() == old(self).undo_models(),
            final(self).redo_models() == old(self).redo_models(),
            final(self).checkpoint_pending() == old(self).checkpoint_pending(),
            final(self).model().lines == old(self).model().lines,
            final(self).syntax_model() == old(self).syntax_model(),
    {
        let ghost m0 = self.model();
        let reverse = Change::IndentationChange { value: self.indentation };
        self.indentation = *value;
        proof {
            assert(self.model() =~~= apply_change(
                m0,
                ChangeModel::IndentationChange { value: *value },
            ).0);
        }
        reverse
    }

    /// Sets the language string for this document. Returns the change which
    /// would undo this modification.
    pub fn set_language_untracked(&mut self, language: &str) -> (r: Change)
        requires
            old(self).core_wf(),
        ensures
            final(self).core_wf(),
            final(self).model() == apply_change(
                old(self).model(),
                ChangeModel::LanguageChange { value: language@ },
            ).0,
            r@ == apply_change(
                old(self).model(),
                ChangeModel::LanguageChange { value: language@ },
            ).1,
            final(self).undo_models() == old(self).undo_models(),
            final(self).redo_models() == old(self).redo_models(),
            final(self).checkpoint_pending() == old(self).checkpoint_pending(),
            final(self).model().lines == old(self).model().lines,
            final(self).syntax_wf(),
            !crate::language::registered(language@) ==> final(self).syntax_model() is None,
            final(self).anchors_entries() == old(self).anchors_entries(),
    {
        let ghost m0 = self.model();
        let reverse = Change::LanguageChange { value: self.language.clone() };
        self.language = language.to_owned();
        self.parser = None;
        self.syntax = None;
        self.update_parse();
        proof {
            assert(self.model() =~~= apply_change(
                m0,
                ChangeModel::LanguageChange { value: language@ },
            ).0);
        }
        reverse
    }
}

/// Every line of a document that exists in memory fits the machine's word.
pub proof fn lemma_doc_lines_fit(d: &Document)
    requires
        d.repr_wf(),
    ensures
        crate::model::lines_fit(d.model().lines),
{
    broadcast use vstd::std_specs::vec::axiom_spec_len;

    assert(vstd::std_specs::vec::spec_vec_len(&d.lines) == d.lines@.len());
    assert(d.lines@.len() <= usize::MAX);
    assert forall|i: int| 0 <= i < d.model().lines.len() implies (#[trigger] d.model().lines[
        i
    ]).len() <= usize::MAX by {
        assert(d.model().lines[i] == lines_view(d.lines@)[i]);
        assert(lines_view(d.lines@)[i] == d.lines@[i].content@);
        assert(d.lines@[i].wf());
    }
}

/// When every entry of a store is rebased in place by `f`, the handle map is
/// rebased pointwise by `f`.
pub proof fn lemma_entries_map(
    e0: Seq<(AnchorHandle, Anchor)>,
    e1: Seq<(AnchorHandle, Anchor)>,
    f: spec_fn(Position) -> Position,
)
    requires
        crate::anchors::distinct_keys(e0),
        e1.len() == e0.len(),
        forall|j: int| 0 <= j < e0.len() ==> (#[trigger] e1[j]).0 == e0[j].0,
        forall|j: int| 0 <= j < e0.len() ==> (#[trigger] e1[j]).1.position == f(
            e0[j].1.position,
        ),
    ensures
        pairs_map(e1) == Map::new(
            |h: AnchorHandle| pairs_map(e0).dom().contains(h),
            |h: AnchorHandle| f(pairs_map(e0)[h]),
        ),
{
    assert(crate::anchors::distinct_keys(e1));
    let target = Map::new(
        |h: AnchorHandle| pairs_map(e0).dom().contains(h),
        |h: AnchorHandle| f(pairs_map(e0)[h]),
    );
    assert forall|h: AnchorHandle| #[trigger] pairs_map(e1).dom().contains(h)
        <==> target.dom().contains(h) by {
        crate::anchors::lemma_pairs_map_dom(e0, h);
        crate::anchors::lemma_pairs_map_dom(e1, h);
        assert(has_key(e0, h) <==> has_key(e1, h)) by {
            if has_key(e0, h) {
                let j = choose|j: int| 0 <= j < e0.len() && e0[j].0 == h;
                assert(e1[j].0 == h);
            }
            if has_key(e1, h) {
                let j = choose|j: int| 0 <= j < e1.len() && e1[j].0 == h;
                assert(e0[j].0 == h);
            }
        }
    }
    assert forall|h: AnchorHandle| pairs_map(e1).dom().contains(h) implies #[trigger] pairs_map(
        e1,
    )[h] == target[h] by {
        crate::anchors::lemma_pairs_map_dom(e1, h);
        let j = choose|j: int| 0 <= j < e1.len() && e1[j].0 == h;
        crate::anchors::lemma_pairs_map_index(e1, j);
        crate::anchors::lemma_pairs_map_index(e0, j);
    }
    assert(pairs_map(e1) =~= target);
}

/// One public operation moved `d0` to `d1` and recorded the run `cs` of
/// inverses: the redo stack is cleared, the undo stack grows by exactly that
/// run (one packet boundary consumed at its first change), and applying the
/// run in reverse restores the old state.
pub open spec fn op_recorded(d0: Document, d1: Document, cs: Seq<ChangeModel>) -> bool {
    &&& d1.undo_models() == crate::model::stacks_after_push_seq(
        d0.undo_models(),
        d0.checkpoint_pending(),
        cs,
    )
    &&& crate::model::packet_valid_rev(d1.model(), cs)
    &&& crate::model::apply_packet_rev(d1.model(), cs) == d0.model()
    &&& d1.redo_models().len() == 0
    &&& !d1.checkpoint_pending()
}

impl Document {
    /// Sets anchor `handle` to `value`. Fails if `handle` does not exist or
    /// `value` points to an invalid position.
    pub fn set_anchor(&mut self, handle: AnchorHandle, value: &Anchor) -> (r: Result<(), Oops>)
        requires
            old(self).wf(),
        ensures
            final(self).wf(),
            (match r {
                Ok(()) => {
                    &&& old(self).model().anchors.dom().contains(handle)
                    &&& pos_valid_model(old(self).model().lines, value.position)
                    &&& final(self).model() == apply_change(
                        old(self).model(),
                        ChangeModel::AnchorSet { handle, value: value.position },
                    ).0
                    &&& op_recorded(
                        *old(self),
                        *final(self),
                        seq![
                            ChangeModel::AnchorSet {
                                handle,
                                value: old(self).model().anchors[handle],
                            },
                        ],
                    )
                },
                Err(Oops::NonexistentAnchor(h)) => h == handle && !old(
                    self,
                ).model().anchors.dom().contains(handle) && *final(self) == *old(self),
                Err(Oops::InvalidPosition(p, _)) => p == value.position && old(
                    self,
                ).model().anchors.dom().contains(handle) && !pos_valid_model(
                    old(self).model().lines,
                    value.position,
                ) && *final(self) == *old(self),
                Err(_) => false,
            }),
    {
        match self.anchors.get(handle) {
            None => {
                return Err(Oops::NonexistentAnchor(handle));
            },
            Some(_) => {},
        }
        if !self.position_valid(&value.position) {
            return Err(Oops::InvalidPosition(value.position, "set_anchor"));
        }
        let ghost m0 = self.model();
        let ghost c = ChangeModel::AnchorSet { handle, value: value.position };
        proof {
            crate::model::lemma_single_change_op(
                m0,
                self.undo_models(),
                self.checkpoint_pending(),
                c,
            );
        }
        let inverse = self.set_anchor_untracked(handle, value);
        self.undo_redo.push_undo(inverse);
        proof {
            assert(anchors_ok(self.model())) by {
                assert(forall|h: u32|
                    self.model().anchors.dom().contains(h) && h != handle
                        ==> #[trigger] self.model().anchors[h] == m0.anchors[h]);
            }
            assert(stack_valid(self.model(), self.redo_models()));
        }
        Ok(())
    }

    /// Creates a new anchor with contents `anchor`, returning its handle, or
    /// fails if the requested position is invalid. The handle counter moves
    /// forward and is never reused, so undoing this does not roll it back.
    pub fn create_anchor(&mut self, anchor: &Anchor) -> (r: Result<AnchorHandle, Oops>)
        requires
            old(self).wf(),
            old(self).model().next_id < AnchorHandle::MAX,
        ensures
            final(self).wf(),
            (match r {
                Ok(h) => {
                    &&& h == old(self).model().next_id
                    &&& pos_valid_model(old(self).model().lines, anchor.position)
                    &&& final(self).model() == (DocModel {
                        anchors: old(self).model().anchors.insert(h, anchor.position),
                        next_id: (old(self).model().next_id + 1) as u32,
                        ..old(self).model()
                    })
                    &&& final(self).undo_models() == crate::model::stacks_after_push_seq(
                        old(self).undo_models(),
                        old(self).checkpoint_pending(),
                        seq![ChangeModel::AnchorRemove { handle: h }],
                    )
                    &&& final(self).redo_models().len() == 0
                    &&& !final(self).checkpoint_pending()
                },
                Err(Oops::InvalidPosition(p, _)) => p == anchor.position && !pos_valid_model(
                    old(self).model().lines,
                    anchor.position,
                ) && *final(self) == *old(self),
                Err(_) => false,
            }),
    {
        if !self.position_valid(&anchor.position) {
            return Err(Oops::InvalidPosition(anchor.position, "create_anchor"));
        }
        let ghost m0 = self.model();
        let handle = self.anchors.get_new_handle();
        let ghost mmid = self.model();
        proof {
            assert(mmid =~~= crate::model::with_next(m0, (m0.next_id + 1) as u32));
            crate::model::lemma_stack_next_id(m0, self.undo_models(), (m0.next_id + 1) as u32);
            crate::model::lemma_stack_next_id(m0, self.redo_models(), (m0.next_id + 1) as u32);
            assert(!mmid.anchors.dom().contains(handle));
            crate::model::lemma_single_change_op(
                mmid,
                self.undo_models(),
                self.checkpoint_pending(),
                ChangeModel::AnchorInsert { handle, value: anchor.position },
            );
        }
        let inverse = self.insert_anchor_untracked(handle, anchor);
        self.undo_redo.push_undo(inverse);
        proof {
            assert(anchors_ok(self.model())) by {
                assert(forall|h: u32|
                    self.model().anchors.dom().contains(h) && h != handle
                        ==> #[trigger] self.model().anchors[h] == m0.anchors[h]);
            }
            assert(self.model() =~~= (DocModel {
                anchors: m0.anchors.insert(handle, anchor.position),
                next_id: (m0.next_id + 1) as u32,
                ..m0
            }));
            assert(stack_valid(self.model(), self.redo_models()));
        }
        Ok(handle)
    }

    /// Moves the cursor to `position`.
    pub fn set_cursor(&mut self, position: &Position) -> (r: Result<(), Oops>)
        requires
            old(self).wf(),
        ensures
            final(self).wf(),
            (match r {
                Ok(()) => {
                    &&& pos_valid_model(old(self).model().lines, *position)
                    &&& final(self).model() == apply_change(
                        old(self).model(),
                        ChangeModel::AnchorSet { handle: 0, value: *position },
                    ).0
                    &&& op_recorded(
                        *old(self),
                        *final(self),
                        seq![
                            ChangeModel::AnchorSet { handle: 0, value: old(self).model().anchors[0]
                            },
                        ],
                    )
                },
                Err(Oops::InvalidPosition(p, _)) => p == *position && !pos_valid_model(
                    old(self).model().lines,
                    *position,
                ) && *final(self) == *old(self),
                Err(_) => false,
            }),
    {
        let a = Anchor { position: *position };
        self.set_anchor(0, &a)
    }

    /// Moves the mark to `position`.
    pub fn set_mark(&mut self, position: &Position) -> (r: Result<(), Oops>)
        requires
            old(self).wf(),
        ensures
            final(self).wf(),
            (match r {
                Ok(()) => {
                    &&& pos_valid_model(old(self).model().lines, *position)
                    &&& final(self).model() == apply_change(
                        old(self).model(),
                        ChangeModel::AnchorSet { handle: 1, value: *position },
                    ).0
                    &&& op_recorded(
                        *old(self),
                        *final(self),
                        seq![
                            ChangeModel::AnchorSet { handle: 1, value: old(self).model().anchors[1]
                            },
                        ],
                    )
                },
                Err(Oops::InvalidPosition(p, _)) => p == *position && !pos_valid_model(
                    old(self).model().lines,
                    *position,
                ) && *final(self) == *old(self),
                Err(_) => false,
            }),
    {
        let a = Anchor { position: *position };
        self.set_anchor(1, &a)
    }

    /// Moves both cursor and mark to `position`.
    pub fn set_cursor_and_mark(&mut self, position: &Position) -> (r: Result<(), Oops>)
        requires
            old(self).wf(),
        ensures
            final(self).wf(),
            (match r {
                Ok(()) => {
                    &&& pos_valid_model(old(self).model().lines, *position)
                    &&& final(self).model() == (DocModel {
                        anchors: old(self).model().anchors.insert(0, *position).insert(
                            1,
                            *position,
                        ),
                        ..old(self).model()
                    })
                    &&& op_recorded(
                        *old(self),
                        *final(self),
                        seq![
                            ChangeModel::AnchorSet { handle: 0, value: old(self).model().anchors[0]
                            },
                            ChangeModel::AnchorSet { handle: 1, value: old(self).model().anchors[1]
                            },
                        ],
                    )
                },
                Err(Oops::InvalidPosition(p, _)) => p == *position && !pos_valid_model(
                    old(self).model().lines,
                    *position,
                ) && *final(self) == *old(self),
                Err(_) => false,
            }),
    {
        let ghost d0 = *self;
        match self.set_cursor(position) {
            Err(e) => {
                return Err(e);
            },
            Ok(()) => {},
        }
        let ghost d1 = *self;
        match self.set_mark(position) {
            Err(e) => {
                proof {
                    assert(false);
                }
                return Err(e);
            },
            Ok(()) => {},
        }
        proof {
            let c0 = ChangeModel::AnchorSet { handle: 0, value: d0.model().anchors[0] };
            let c1 = ChangeModel::AnchorSet { handle: 1, value: d1.model().anchors[1] };
            assert(d1.model().anchors[1] == d0.model().anchors[1]);
            let cs = seq![c0, c1];
            assert(cs.drop_last() =~= seq![c0]);
            assert(cs.last() == c1);
            assert(self.undo_models() == crate::model::stacks_after_push_seq(
                d0.undo_models(),
                d0.checkpoint_pending(),
                cs,
            )) by {
                assert(crate::model::stacks_after_push_seq(
                    d0.undo_models(),
                    d0.checkpoint_pending(),
                    seq![c0],
                ) == d1.undo_models());
            }
            crate::model::lemma_packet_concat(self.model(), seq![c0], seq![c1]);
            assert(seq![c0] + seq![c1] =~= cs);
            assert(self.model() =~~= (DocModel {
                anchors: d0.model().anchors.insert(0, *position).insert(1, *position),
                ..d0.model()
            }));
        }
        Ok(())
    }

    /// Moves the mark to the beginning of `range` and the cursor to its end.
    pub fn set_selection(&mut self, range: &Range) -> (r: Result<(), Oops>)
        requires
            old(self).wf(),
        ensures
            final(self).wf(),
            (match r {
                Ok(()) => {
                    &&& range_valid_model(old(self).model().lines, *range)
                    &&& final(self).model() == (DocModel {
                        anchors: old(self).model().anchors.insert(1, range.beginning).insert(
                            0,
                            range.ending,
                        ),
                        ..old(self).model()
                    })
                    &&& op_recorded(
                        *old(self),
                        *final(self),
                        seq![
                            ChangeModel::AnchorSet { handle: 1, value: old(self).model().anchors[1]
                            },
                            ChangeModel::AnchorSet { handle: 0, value: old(self).model().anchors[0]
                            },
                        ],
                    )
                },
                Err(Oops::InvalidRange(g, _)) => g == *range && !range_valid_model(
                    old(self).model().lines,
                    *range,
                ) && *final(self) == *old(self),
                Err(_) => false,
            }),
    {
        if !self.range_valid(range) {
            return Err(Oops::InvalidRange(*range, "set_selection"));
        }
        let ghost d0 = *self;
        match self.set_mark(&range.beginning) {
            Err(e) => {
                proof {
                    assert(false);
                }
                return Err(e);
            },
            Ok(()) => {},
        }
        let ghost d1 = *self;
        match self.set_cursor(&range.ending) {
            Err(e) => {
                proof {
                    assert(false);
                }
                return Err(e);
            },
            Ok(()) => {},
        }
        proof {
            let c0 = ChangeModel::AnchorSet { handle: 1, value: d0.model().anchors[1] };
            let c1 = ChangeModel::AnchorSet { handle: 0, value: d1.model().anchors[0] };
            assert(d1.model().anchors[0] == d0.model().anchors[0]);
            let cs = seq![c0, c1];
            assert(cs.drop_last() =~= seq![c0]);
            assert(cs.last() == c1);
            assert(self.undo_models() == crate::model::stacks_after_push_seq(
                d0.undo_models(),
                d0.checkpoint_pending(),
                cs,
            )) by {
                assert(crate::model::stacks_after_push_seq(
                    d0.undo_models(),
                    d0.checkpoint_pending(),
                    seq![c0],
                ) == d1.undo_models());
            }
            crate::model::lemma_packet_concat(self.model(), seq![c0], seq![c1]);
            assert(seq![c0] + seq![c1] =~= cs);
            assert(self.model() =~~= (DocModel {
                anchors: d0.model().anchors.insert(1, range.beginning).insert(0, range.ending),
                ..d0.model()
            }));
        }
        Ok(())
    }

    /// Removes the anchor at `handle`. Fails for the reserved cursor and
    /// mark, and for handles that do not exist.
    pub fn remove_anchor(&mut self, handle: AnchorHandle) -> (r: Result<(), Oops>)
        requires
            old(self).wf(),
        ensures
            final(self).wf(),
            (match r {
                Ok(()) => {
                    &&& handle != 0 && handle != 1
                    &&& old(self).model().anchors.dom().contains(handle)
                    &&& final(self).model() == apply_change(
                        old(self).model(),
                        ChangeModel::AnchorRemove { handle },
                    ).0
                    &&& op_recorded(
                        *old(self),
                        *final(self),
                        seq![
                            ChangeModel::AnchorInsert {
                                handle,
                                value: old(self).model().anchors[handle],
                            },
                        ],
                    )
                },
                Err(Oops::NonexistentAnchor(h)) => h == handle && !old(
                    self,
                ).model().anchors.dom().contains(handle) && *final(self) == *old(self),
                Err(Oops::CannotRemoveAnchor(h)) => h == handle && (handle == 0 || handle == 1)
                    && *final(self) == *old(self),
                Err(_) => false,
            }),
    {
        match self.anchors.get(handle) {
            None => {
                return Err(Oops::NonexistentAnchor(handle));
            },
            Some(_) => {},
        }
        if handle == 0 || handle == 1 {
            return Err(Oops::CannotRemoveAnchor(handle));
        }
        let ghost m0 = self.model();
        proof {
            crate::model::lemma_single_change_op(
                m0,
                self.undo_models(),
                self.checkpoint_pending(),
                ChangeModel::AnchorRemove { handle },
            );
        }
        let inverse = self.remove_anchor_untracked(handle);
        self.undo_redo.push_undo(inverse);
        proof {
            assert(anchors_ok(self.model())) by {
                assert(forall|h: u32|
                    self.model().anchors.dom().contains(h) ==> #[trigger] self.model().anchors[h]
                        == m0.anchors[h]);
            }
            assert(stack_valid(self.model(), self.redo_models()));
        }
        Ok(())
    }

    /// Sets the indentation policy of this document. This does not change
    /// the document's text.
    pub fn set_indentation(&mut self, indentation: &Indentation) -> (r: Result<(), Oops>)
        requires
            old(self).wf(),
            indentation.wf(),
        ensures
            final(self).wf(),
            r == Ok::<(), Oops>(()),
            final(self).model() == (DocModel { indentation: *indentation, ..old(self).model() }),
            op_recorded(
                *old(self),
                *final(self),
                seq![
                    ChangeModel::IndentationChange { value: old(self).model().indentation },
                ],
            ),
    {
        let ghost m0 = self.model();
        proof {
            crate::model::lemma_single_change_op(
                m0,
                self.undo_models(),
                self.checkpoint_pending(),
                ChangeModel::IndentationChange { value: *indentation },
            );
        }
        let inverse = self.set_indentation_untracked(indentation);
        self.undo_redo.push_undo(inverse);
        proof {
            assert(anchors_ok(self.model()));
            assert(self.model() =~~= (DocModel { indentation: *indentation, ..m0 }));
            assert(stack_valid(self.model(), self.redo_models()));
        }
        Ok(())
    }

    /// Sets the language of this document and rebuilds the parse tree.
    pub fn set_language(&mut self, language: &str) -> (r: Result<(), Oops>)
        requires
            old(self).wf(),
        ensures
            final(self).wf(),
            r == Ok::<(), Oops>(()),
            final(self).model() == (DocModel { language: language@, ..old(self).model() }),
            !crate::language::registered(language@) ==> final(self).syntax_model() is None,
            op_recorded(
                *old(self),
                *final(self),
                seq![ChangeModel::LanguageChange { value: old(self).model().language }],
            ),
    {
        let ghost m0 = self.model();
        proof {
            crate::model::lemma_single_change_op(
                m0,
                self.undo_models(),
                self.checkpoint_pending(),
                ChangeModel::LanguageChange { value: language@ },
            );
        }
        let inverse = self.set_language_untracked(language);
        self.undo_redo.push_undo(inverse);
        proof {
            assert(anchors_ok(self.model()));
            assert(self.model() =~~= (DocModel { language: language@, ..m0 }));
            assert(stack_valid(self.model(), self.redo_models()));
        }
        Ok(())
    }

    /// Requests a checkpoint: the next undoable operation opens its own
    /// packet. Checkpointing clears the redo stack.
    pub fn checkpoint(&mut self)
        requires
            old(self).wf(),
        ensures
            final(self).wf(),
            final(self).model() == old(self).model(),
            final(self).undo_models() == old(self).undo_models(),
            final(self).redo_models().len() == 0,
            final(self).checkpoint_pending(),
    {
        self.undo_redo.checkpoint();
    }

    /// Forgets all undo and redo data: the current state of the document
    /// becomes the start of history.
    pub fn forget_undo_redo(&mut self) -> (r: Result<(), Oops>)
        requires
            old(self).wf(),
        ensures
            final(self).wf(),
            r == Ok::<(), Oops>(()),
            final(self).model() == old(self).model(),
            final(self).undo_models().len() == 0,
            final(self).redo_models().len() == 0,
            final(self).checkpoint_pending() == old(self).checkpoint_pending(),
    {
        self.undo_redo.forget_everything();
        Ok(())
    }

    /// Inserts `text` into the document with `options`.
    ///
    /// The target range is the current selection or the one given; a
    /// non-empty target is removed first, as its own tracked step inside
    /// the same undoable run. The text is split on line terminators and
    /// inserted exactly as given; anchors at or after the insertion point
    /// shift with the inserted text. Inserting nothing is rejected, after
    /// any removal has already happened.
    ///
    /// Escapes, auto-indentation and auto-spacing are recognized but
    /// unimplemented policy hooks: only the exact path is supported.
    #[verifier::rlimit(80)]
    pub fn insert(&mut self, text: &str, options: &InsertOptions) -> (r: Result<(), Oops>)
        requires
            old(self).wf(),
            !options.escapes,
            !options.indent,
            !options.spacing,
        ensures
            final(self).wf(),
            (match r {
                Ok(()) => ({
                    let rng = resolved_range(old(self).model(), options.range);
                    let m1 = if rng.beginning == rng.ending {
                        old(self).model()
                    } else {
                        crate::model::doc_remove_model(old(self).model(), rng)
                    };
                    let e1 = if rng.beginning == rng.ending {
                        old(self).anchors_entries()
                    } else {
                        crate::model::rebased_entries_remove(old(self).anchors_entries(), rng)
                    };
                    &&& range_valid_model(old(self).model().lines, rng)
                    &&& text@.len() > 0
                    &&& final(self).model() == crate::model::doc_insert_model(
                        m1,
                        split_text(text@),
                        rng.beginning,
                    )
                    &&& op_recorded(
                        *old(self),
                        *final(self),
                        (if rng.beginning == rng.ending {
                            Seq::<ChangeModel>::empty()
                        } else {
                            crate::model::remove_recorded(
                                old(self).model(),
                                old(self).anchors_entries(),
                                rng,
                            )
                        }) + seq![
                            apply_change(
                                m1,
                                ChangeModel::Insert {
                                    text: split_text(text@),
                                    position: rng.beginning,
                                },
                            ).1,
                        ] + crate::model::insert_anchor_invs(e1, rng.beginning),
                    )
                }),
                Err(Oops::InvalidRange(g, _)) => options.range == Some(g) && !range_valid_model(
                    old(self).model().lines,
                    g,
                ) && *final(self) == *old(self),
                Err(Oops::EmptyString(_)) => ({
                    let rng = resolved_range(old(self).model(), options.range);
                    &&& text@.len() == 0
                    &&& range_valid_model(old(self).model().lines, rng)
                    &&& (if rng.beginning == rng.ending {
                        *final(self) == *old(self)
                    } else {
                        final(self).model() == crate::model::doc_remove_model(
                            old(self).model(),
                            rng,
                        ) && op_recorded(
                            *old(self),
                            *final(self),
                            crate::model::remove_recorded(
                                old(self).model(),
                                old(self).anchors_entries(),
                                rng,
                            ),
                        )
                    })
                }),
                Err(_) => false,
            }),
    {
        let ghost d0 = *self;
        let range = match options.range {
            None => self.selection(),
            Some(rg) => {
                if !self.range_valid(&rg) {
                    return Err(Oops::InvalidRange(rg, "insert"));
                }
                rg
            },
        };
        proof {
            if options.range is None {
                assert(d0.model().anchors.dom().contains(0));
                assert(d0.model().anchors.dom().contains(1));
                assert(pos_valid_model(d0.model().lines, d0.model().anchors[0]));
                assert(pos_valid_model(d0.model().lines, d0.model().anchors[1]));
            }
            assert(range_valid_model(d0.model().lines, range));
        }
        if !range.empty() {
            let res = self.remove(&RemoveOptions::exact_at(&range));
            match res {
                Ok(()) => {},
                Err(oops) => {
                    proof {
                        assert(false);
                    }
                    return Err(oops);
                },
            }
        }
        let ghost d1 = *self;
        let ghost m1 = self.model();
        let lines = split_lines(text);
        proof {
            crate::textops::lemma_split_empty(text@);
            crate::textops::lemma_split_nl_free(text@);
        }
        if lines.len() == 0 || (lines.len() == 1 && lines[0].unicode_len() == 0) {
            return Err(Oops::EmptyString("can't insert nothing"));
        }
        let pos = range.beginning;
        proof {
            if range.beginning == range.ending {
                assert(pos_valid_model(m1.lines, pos));
            } else {
                crate::model::lemma_remove_then_insert(d0.model().lines, range);
                assert(pos_valid_model(m1.lines, pos));
            }
        }
        let ghost u1 = self.undo_models();
        let ghost cp1 = self.checkpoint_pending();
        let inverse = self.insert_untracked(&lines, &pos);
        let ghost ic = ChangeModel::Insert { text: lines.deep_view(), position: pos };
        let ghost mut pushed: Seq<ChangeModel> = Seq::empty();
        proof {
            if range.beginning == range.ending {
                crate::model::lemma_single_change_op(m1, u1, cp1, ic);
                pushed = seq![apply_change(m1, ic).1];
            } else {
                let cs_r = crate::model::remove_recorded(
                    d0.model(),
                    d0.anchors_entries(),
                    range,
                );
                assert(op_recorded(d0, d1, cs_r));
                assert(cs_r.len() >= 1);
                crate::model::lemma_mid_op_push(
                    d0.model(),
                    d0.undo_models(),
                    d0.checkpoint_pending(),
                    m1,
                    cs_r,
                    ic,
                );
                pushed = cs_r.push(apply_change(m1, ic).1);
                assert(pushed =~= cs_r + seq![apply_change(m1, ic).1]);
            }
        }
        self.undo_redo.push_undo(inverse);
        let ghost m2 = self.model();
        proof {
            lemma_doc_lines_fit(self);
            crate::model::lemma_insert_rebase(m1, lines.deep_view(), pos);
        }
        let ghost e0 = self.anchors_entries();
        let ghost base = pushed;
        let k = lines.len();
        let len_first = lines[0].as_str().unicode_len();
        let len_last = lines[k - 1].as_str().unicode_len();
        let n = self.anchors.len();
        let mut i: usize = 0;
        proof {
            assert(m1.anchors == pairs_map(e0));
            assert(lines.deep_view().len() == k);
            assert(lines.deep_view()[0].len() == len_first);
            assert(lines.deep_view().last().len() == len_last);
            assert(e0.subrange(0, 0) =~= Seq::<(AnchorHandle, Anchor)>::empty());
            assert(pushed =~= base + crate::model::insert_anchor_invs(e0.subrange(0, 0), pos));
        }
        while i < n
            invariant
                0 <= i <= n,
                self.core_wf(),
                self.syntax_wf(),
                n == self.anchors_entries().len(),
                e0.len() == n,
                crate::anchors::distinct_keys(e0),
                d0.wf(),
                k == lines@.len(),
                k == lines.deep_view().len(),
                k >= 1,
                len_first == lines.deep_view()[0].len(),
                len_last == lines.deep_view().last().len(),
                pos_valid_model(m1.lines, pos),
                crate::model::insert_fits(pos, lines.deep_view()),
                crate::model::model_wf(m1),
                crate::model::lines_fit(
                    crate::model::splice_insert(m1.lines, pos, lines.deep_view()),
                ),
                forall|p: Position| pos_valid_model(m1.lines, p)
                    ==> #[trigger] crate::model::insert_rebase_fits(p, pos, lines.deep_view())
                    && pos_valid_model(
                    crate::model::splice_insert(m1.lines, pos, lines.deep_view()),
                    crate::model::insert_rebase_pos(p, pos, lines.deep_view()),
                ),
                m1.anchors == pairs_map(e0),
                self.model().lines == crate::model::splice_insert(
                    m1.lines,
                    pos,
                    lines.deep_view(),
                ),
                self.model().indentation == d0.model().indentation,
                self.model().language == d0.model().language,
                self.model().next_id == d0.model().next_id,
                forall|j: int|
                    0 <= j < n ==> (#[trigger] self.anchors_entries()[j]).0 == e0[j].0,
                forall|j: int| i <= j < n ==> #[trigger] self.anchors_entries()[j] == e0[j],
                forall|j: int|
                    0 <= j < i ==> (#[trigger] self.anchors_entries()[j]).1.position
                        == crate::model::insert_rebase_pos(
                        e0[j].1.position,
                        pos,
                        lines.deep_view(),
                    ),
                pushed.len() >= 1,
                pushed == base + crate::model::insert_anchor_invs(e0.subrange(0, i as int), pos),
                crate::model::packet_valid_rev(self.model(), pushed),
                crate::model::apply_packet_rev(self.model(), pushed) == d0.model(),
                self.undo_models() == crate::model::stacks_after_push_seq(
                    d0.undo_models(),
                    d0.checkpoint_pending(),
                    pushed,
                ),
                self.redo_models().len() == 0,
                !self.checkpoint_pending(),
            decreases n - i,
        {
            let entry = self.anchors.entry(i);
            let h = entry.0;
            let a = entry.1;
            proof {
                assert(self.anchors_entries()[i as int] == e0[i as int]);
                crate::anchors::lemma_pairs_map_index(e0, i as int);
                assert(m1.anchors.dom().contains(h));
                assert(m1.anchors[h] == a.position);
                assert(pos_valid_model(m1.lines, a.position));
                assert(crate::model::insert_rebase_fits(a.position, pos, lines.deep_view()));
                crate::anchors::lemma_pairs_map_dom(self.anchors_entries(), h);
                assert(crate::anchors::has_key(self.anchors_entries(), h)) by {
                    assert(self.anchors_entries()[i as int].0 == h);
                }
                assert(self.model().anchors.dom().contains(h));
                assert(crate::anchors::distinct_keys(self.anchors_entries()));
                crate::anchors::lemma_pairs_map_index(self.anchors_entries(), i as int);
                assert(self.model().anchors[h] == e0[i as int].1.position);
                assert(e0.subrange(0, i + 1).drop_last() =~= e0.subrange(0, i as int));
                assert(e0.subrange(0, i + 1).last() == e0[i as int]);
            }
            if pos.le(&a.position) {
                let new_row = a.position.row + (k - 1);
                let new_col = if a.position.row == pos.row {
                    if k == 1 {
                        a.position.column + len_first
                    } else {
                        let past = if a.position.column > pos.column {
                            a.position.column - pos.column
                        } else {
                            0
                        };
                        len_last + past
                    }
                } else {
                    a.position.column
                };
                let value = Anchor { position: Position { row: new_row, column: new_col } };
                proof {
                    assert(value.position == crate::model::insert_rebase_pos(
                        a.position,
                        pos,
                        lines.deep_view(),
                    ));
                    crate::model::lemma_mid_op_push(
                        d0.model(),
                        d0.undo_models(),
                        d0.checkpoint_pending(),
                        self.model(),
                        pushed,
                        ChangeModel::AnchorSet { handle: h, value: value.position },
                    );
                }
                let inv2 = self.set_anchor_untracked(h, &value);
                self.undo_redo.push_undo(inv2);
                proof {
                    pushed = pushed.push(inv2@);
                    assert(crate::model::insert_anchor_invs(e0.subrange(0, i + 1), pos)
                        =~= crate::model::insert_anchor_invs(e0.subrange(0, i as int), pos)
                        + seq![ChangeModel::AnchorSet { handle: h, value: a.position }]);
                    assert(pushed =~= base + crate::model::insert_anchor_invs(
                        e0.subrange(0, i + 1),
                        pos,
                    ));
                }
            } else {
                proof {
                    assert(crate::model::insert_rebase_pos(a.position, pos, lines.deep_view())
                        == a.position);
                    assert(!pos_le(pos, a.position));
                    assert(crate::model::insert_anchor_invs(e0.subrange(0, i + 1), pos)
                        =~= crate::model::insert_anchor_invs(e0.subrange(0, i as int), pos));
                    assert(pushed =~= base + crate::model::insert_anchor_invs(
                        e0.subrange(0, i + 1),
                        pos,
                    ));
                }
            }
            i = i + 1;
        }
        proof {
            let tv = lines.deep_view();
            let f = |p: Position| crate::model::insert_rebase_pos(p, pos, tv);
            lemma_entries_map(e0, self.anchors_entries(), f);
            assert(self.model().anchors =~= crate::model::insert_rebase_map(m1.anchors, pos, tv));
            assert(self.model() =~~= crate::model::doc_insert_model(m1, tv, pos));
            crate::model::lemma_stack_valid_after_op(
                d0.model(),
                d0.undo_models(),
                d0.checkpoint_pending(),
                self.model(),
                pushed,
            );
            assert(self.redo_models() =~= Seq::<Seq<ChangeModel>>::empty());
            assert(stack_valid(self.model(), self.redo_models()));
            assert(op_recorded(d0, *self, pushed));
            assert(tv == split_text(text@));
            assert(e0.subrange(0, n as int) =~= e0);
            if range.beginning == range.ending {
                assert(e0 == d0.anchors_entries());
                assert(pushed =~= (Seq::<ChangeModel>::empty()) + seq![apply_change(m1, ic).1]
                    + crate::model::insert_anchor_invs(e0, pos));
            } else {
                assert(e0 == crate::model::rebased_entries_remove(d0.anchors_entries(), range));
                assert(pushed =~= crate::model::remove_recorded(
                    d0.model(),
                    d0.anchors_entries(),
                    range,
                ) + seq![apply_change(m1, ic).1] + crate::model::insert_anchor_invs(e0, pos));
            }
        }
        Ok(())
    }

    /// Removes the current selection, or the range given in `options`.
    ///
    /// Anchors past the removed span are pulled back, anchors inside it
    /// clamp to its beginning, and the whole operation is recorded as one
    /// undoable run of changes. Removing an empty range is rejected.
    pub fn remove(&mut self, options: &RemoveOptions) -> (r: Result<(), Oops>)
        requires
            old(self).wf(),
        ensures
            final(self).wf(),
            (match r {
                Ok(()) => ({
                    let rng = resolved_range(old(self).model(), options.range);
                    &&& range_valid_model(old(self).model().lines, rng)
                    &&& rng.beginning != rng.ending
                    &&& final(self).model() == crate::model::doc_remove_model(
                        old(self).model(),
                        rng,
                    )
                    &&& final(self).anchors_entries() == crate::model::rebased_entries_remove(
                        old(self).anchors_entries(),
                        rng,
                    )
                    &&& op_recorded(
                        *old(self),
                        *final(self),
                        crate::model::remove_recorded(
                            old(self).model(),
                            old(self).anchors_entries(),
                            rng,
                        ),
                    )
                }),
                Err(Oops::InvalidRange(g, _)) => g == resolved_range(
                    old(self).model(),
                    options.range,
                ) && *final(self) == *old(self) && (match options.range {
                    Some(r2) => !range_valid_model(old(self).model().lines, r2) || r2.beginning
                        == r2.ending,
                    None => g.beginning == g.ending,
                }),
                Err(_) => false,
            }),
    {
        let ghost d0 = *self;
        let range = match options.range {
            None => self.selection(),
            Some(rg) => {
                if !self.range_valid(&rg) {
                    return Err(Oops::InvalidRange(rg, "remove"));
                }
                rg
            },
        };
        if range.empty() {
            return Err(Oops::InvalidRange(range, "remove - empty"));
        }
        let ghost m0 = self.model();
        let ghost u0 = self.undo_models();
        let ghost cp0 = self.checkpoint_pending();
        proof {
            if options.range is None {
                assert(m0.anchors.dom().contains(0));
                assert(m0.anchors.dom().contains(1));
                assert(pos_valid_model(m0.lines, m0.anchors[0]));
                assert(pos_valid_model(m0.lines, m0.anchors[1]));
            }
            assert(range_valid_model(m0.lines, range));
            crate::model::lemma_single_change_op(
                m0,
                u0,
                cp0,
                ChangeModel::Remove { range },
            );
        }
        let inverse = self.remove_untracked(&range);
        self.undo_redo.push_undo(inverse);
        proof {
            lemma_doc_lines_fit(self);
            crate::model::lemma_remove_rebase(m0, range);
            crate::model::lemma_remove_then_insert(m0.lines, range);
        }
        let ghost e0 = self.anchors_entries();
        let ghost mut pushed: Seq<ChangeModel> = seq![
            apply_change(m0, ChangeModel::Remove { range }).1,
        ];
        let n = self.anchors.len();
        let mut i: usize = 0;
        proof {
            assert(e0.subrange(0, 0) =~= Seq::<(AnchorHandle, Anchor)>::empty());
            assert(pushed =~= seq![apply_change(m0, ChangeModel::Remove { range }).1]
                + crate::model::remove_anchor_invs(e0.subrange(0, 0), range));
        }
        while i < n
            invariant
                0 <= i <= n,
                self.core_wf(),
                self.syntax_wf(),
                n == self.anchors_entries().len(),
                e0.len() == n,
                e0 == d0.anchors_entries(),
                crate::anchors::distinct_keys(e0),
                m0 == d0.model(),
                u0 == d0.undo_models(),
                cp0 == d0.checkpoint_pending(),
                d0.wf(),
                range_valid_model(m0.lines, range),
                crate::model::lines_fit(crate::model::splice_remove(m0.lines, range)),
                m0.anchors == pairs_map(e0),
                self.model().lines == crate::model::splice_remove(m0.lines, range),
                self.model().indentation == m0.indentation,
                self.model().language == m0.language,
                self.model().next_id == m0.next_id,
                forall|j: int|
                    0 <= j < n ==> (#[trigger] self.anchors_entries()[j]).0 == e0[j].0,
                forall|j: int| i <= j < n ==> #[trigger] self.anchors_entries()[j] == e0[j],
                forall|j: int|
                    0 <= j < i ==> (#[trigger] self.anchors_entries()[j]).1.position
                        == crate::model::remove_rebase_pos(e0[j].1.position, range),
                pushed.len() >= 1,
                pushed == seq![apply_change(m0, ChangeModel::Remove { range }).1]
                    + crate::model::remove_anchor_invs(e0.subrange(0, i as int), range),
                crate::model::packet_valid_rev(self.model(), pushed),
                crate::model::apply_packet_rev(self.model(), pushed) == m0,
                self.undo_models() == crate::model::stacks_after_push_seq(u0, cp0, pushed),
                self.redo_models().len() == 0,
                !self.checkpoint_pending(),
            decreases n - i,
        {
            let entry = self.anchors.entry(i);
            let h = entry.0;
            let a = entry.1;
            proof {
                assert(self.anchors_entries()[i as int] == e0[i as int]);
                crate::anchors::lemma_pairs_map_index(e0, i as int);
                assert(m0.anchors.dom().contains(h));
                assert(m0.anchors[h] == a.position);
                assert(pos_valid_model(m0.lines, a.position));
                crate::anchors::lemma_pairs_map_dom(self.anchors_entries(), h);
                assert(crate::anchors::has_key(self.anchors_entries(), h)) by {
                    assert(self.anchors_entries()[i as int].0 == h);
                }
                assert(self.model().anchors.dom().contains(h));
                assert(crate::anchors::distinct_keys(self.anchors_entries()));
                crate::anchors::lemma_pairs_map_index(self.anchors_entries(), i as int);
                assert(self.model().anchors[h] == e0[i as int].1.position);
                assert(e0.subrange(0, i + 1).drop_last() =~= e0.subrange(0, i as int));
                assert(e0.subrange(0, i + 1).last() == e0[i as int]);
            }
            let moved: Option<Anchor> = if range.ending.lt(&a.position) {
                let span = range.ending.row - range.beginning.row;
                let new_row = a.position.row - span;
                proof {
                    assert(pos_valid_model(
                        crate::model::splice_remove(m0.lines, range),
                        crate::model::remove_rebase_pos(a.position, range),
                    ));
                }
                let new_col = if a.position.row == range.ending.row {
                    range.beginning.column + (a.position.column - range.ending.column)
                } else {
                    a.position.column
                };
                Some(Anchor { position: Position { row: new_row, column: new_col } })
            } else if range.beginning.lt(&a.position) {
                Some(Anchor { position: range.beginning })
            } else {
                None
            };
            match moved {
                Some(value) => {
                    proof {
                        assert(value.position == crate::model::remove_rebase_pos(
                            a.position,
                            range,
                        ));
                        crate::model::lemma_mid_op_push(
                            m0,
                            u0,
                            cp0,
                            self.model(),
                            pushed,
                            ChangeModel::AnchorSet { handle: h, value: value.position },
                        );
                    }
                    let inv2 = self.set_anchor_untracked(h, &value);
                    self.undo_redo.push_undo(inv2);
                    proof {
                        pushed = pushed.push(inv2@);
                        assert(pos_lt(range.beginning, a.position));
                        assert(crate::model::remove_anchor_invs(e0.subrange(0, i + 1), range)
                            =~= crate::model::remove_anchor_invs(e0.subrange(0, i as int), range)
                            + seq![ChangeModel::AnchorSet { handle: h, value: a.position }]);
                        assert(pushed =~= seq![apply_change(m0, ChangeModel::Remove { range }).1]
                            + crate::model::remove_anchor_invs(e0.subrange(0, i + 1), range));
                    }
                },
                None => {
                    proof {
                        assert(crate::model::remove_rebase_pos(a.position, range)
                            == a.position);
                        assert(!pos_lt(range.beginning, a.position));
                        assert(crate::model::remove_anchor_invs(e0.subrange(0, i + 1), range)
                            =~= crate::model::remove_anchor_invs(e0.subrange(0, i as int), range));
                        assert(pushed =~= seq![apply_change(m0, ChangeModel::Remove { range }).1]
                            + crate::model::remove_anchor_invs(e0.subrange(0, i + 1), range));
                    }
                },
            }
            i = i + 1;
        }
        proof {
            let f = |p: Position| crate::model::remove_rebase_pos(p, range);
            lemma_entries_map(e0, self.anchors_entries(), f);
            assert(self.model().anchors =~= crate::model::remove_rebase_map(
                m0.anchors,
                range,
            ));
            assert(self.model() =~~= crate::model::doc_remove_model(m0, range));
            crate::model::lemma_stack_valid_after_op(m0, u0, cp0, self.model(), pushed);
            assert(self.redo_models() =~= Seq::<Seq<ChangeModel>>::empty());
            assert(stack_valid(self.model(), self.redo_models()));
            assert(e0.subrange(0, n as int) =~= e0);
            assert(pushed =~= crate::model::remove_recorded(m0, e0, range));
            assert(self.anchors_entries() =~= crate::model::rebased_entries_remove(e0, range));
            assert(op_recorded(d0, *self, pushed));
        }
        Ok(())
    }

    /// Undoes the most recently recorded packet, or fails if there is
    /// nothing to undo. The undone packet's inverses are collected into a
    /// packet on the redo stack which restores exactly the state before the
    /// undo.
    pub fn undo_once(&mut self) -> (r: Result<(), Oops>)
        requires
            old(self).wf(),
        ensures
            final(self).wf(),
            (match r {
                Ok(()) => {
                    &&& old(self).undo_models().len() > 0
                    &&& final(self).model() == crate::model::apply_packet_rev(
                        old(self).model(),
                        old(self).undo_models().last(),
                    )
                    &&& final(self).undo_models() == old(self).undo_models().drop_last()
                    &&& final(self).redo_models().len() == old(self).redo_models().len() + 1
                    &&& final(self).redo_models().drop_last() == old(self).redo_models()
                    &&& crate::model::packet_valid_rev(
                        final(self).model(),
                        final(self).redo_models().last(),
                    )
                    &&& crate::model::apply_packet_rev(
                        final(self).model(),
                        final(self).redo_models().last(),
                    ) == old(self).model()
                    &&& final(self).checkpoint_pending() == old(self).checkpoint_pending()
                },
                Err(e) => e == Oops::NoMoreUndos(0) && old(self).undo_models().len() == 0
                    && final(self).model() == old(self).model() && final(self).undo_models()
                    == old(self).undo_models() && final(self).redo_models() == old(
                    self,
                ).redo_models() && final(self).checkpoint_pending() == old(
                    self,
                ).checkpoint_pending(),
            }),
    {
        let popped = self.undo_redo.pop_undo();
        match popped {
            None => Err(Oops::NoMoreUndos(0)),
            Some(packet) => {
                let ghost m0 = self.model();
                let ghost cs = packet@;
                proof {
                    assert(cs == old(self).undo_models().last());
                    assert(crate::model::packet_valid_rev(m0, cs));
                    assert(cs.subrange(0, cs.len() as int) =~= cs);
                    assert(crate::model::apply_packet_rev(
                        m0,
                        cs.subrange(cs.len() as int, cs.len() as int),
                    ) == m0) by {
                        assert(cs.subrange(cs.len() as int, cs.len() as int) =~= Seq::<
                            ChangeModel,
                        >::empty());
                    }
                }
                let mut redo_packet = ChangePacket::new();
                let n = packet.len();
                let mut j = n;
                while j > 0
                    invariant
                        0 <= j <= n,
                        n == cs.len(),
                        packet@ == cs,
                        self.core_wf(),
                self.syntax_wf(),
                        self.model() == crate::model::apply_packet_rev(
                            m0,
                            cs.subrange(j as int, n as int),
                        ),
                        crate::model::packet_valid_rev(self.model(), cs.subrange(0, j as int)),
                        crate::model::packet_valid_rev(self.model(), redo_packet@),
                        crate::model::apply_packet_rev(self.model(), redo_packet@) == m0,
                        self.undo_models() == old(self).undo_models().drop_last(),
                        self.redo_models() == old(self).redo_models(),
                        self.checkpoint_pending() == old(self).checkpoint_pending(),
                    decreases j,
                {
                    j = j - 1;
                    let c = packet.get(j);
                    let ghost mcur = self.model();
                    let ghost rcur = redo_packet@;
                    proof {
                        assert(cs.subrange(0, j + 1).last() == cs[j as int]);
                        assert(cs.subrange(0, j + 1).drop_last() =~= cs.subrange(0, j as int));
                        assert(change_valid(mcur, c@));
                        crate::model::lemma_change_roundtrip(mcur, c@);
                    }
                    let inv = c.apply_untracked(self);
                    redo_packet.push(inv);
                    proof {
                        let mnew = self.model();
                        assert(mnew == apply_change(mcur, cs[j as int]).0);
                        assert(seq![cs[j as int]] + cs.subrange(j + 1, n as int) =~= cs.subrange(
                            j as int,
                            n as int,
                        ));
                        crate::model::lemma_packet_concat(
                            m0,
                            seq![cs[j as int]],
                            cs.subrange(j + 1, n as int),
                        );
                        assert(seq![cs[j as int]].last() == cs[j as int]);
                        assert(seq![cs[j as int]].drop_last() =~= Seq::<ChangeModel>::empty());
                        assert(crate::model::apply_packet_rev(mnew, Seq::<ChangeModel>::empty())
                            == mnew);
                        assert(crate::model::apply_packet_rev(mcur, seq![cs[j as int]]) == mnew);
                        assert(mnew == crate::model::apply_packet_rev(
                            m0,
                            cs.subrange(j as int, n as int),
                        ));
                        assert(redo_packet@ =~= rcur.push(inv@));
                        assert(redo_packet@.last() == inv@);
                        assert(redo_packet@.drop_last() =~= rcur);
                        assert(apply_change(mnew, inv@).0 == mcur);
                        assert(crate::model::packet_valid_rev(self.model(), redo_packet@));
                        assert(crate::model::apply_packet_rev(self.model(), redo_packet@) == m0);
                    }
                }
                proof {
                    assert(cs.subrange(0, 0) =~= Seq::<ChangeModel>::empty());
                    assert(self.model() == crate::model::apply_packet_rev(m0, cs)) by {
                        assert(cs.subrange(0, n as int) =~= cs);
                    }
                }
                self.undo_redo.push_redo_packet(redo_packet);
                proof {
                    assert(final(self).redo_models().drop_last() =~= old(self).redo_models());
                    assert(anchors_ok(self.model()));
                    assert(stack_valid(self.model(), self.undo_models()));
                    assert(stack_valid(self.model(), self.redo_models()));
                }
                Ok(())
            },
        }
    }

    /// Redoes the most recently undone packet, or fails if there is nothing
    /// to redo. The redone packet's inverses are collected into a packet on
    /// the undo stack which restores exactly the state before the redo.
    pub fn redo_once(&mut self) -> (r: Result<(), Oops>)
        requires
            old(self).wf(),
        ensures
            final(self).wf(),
            (match r {
                Ok(()) => {
                    &&& old(self).redo_models().len() > 0
                    &&& final(self).model() == crate::model::apply_packet_rev(
                        old(self).model(),
                        old(self).redo_models().last(),
                    )
                    &&& final(self).redo_models() == old(self).redo_models().drop_last()
                    &&& final(self).undo_models().len() == old(self).undo_models().len() + 1
                    &&& final(self).undo_models().drop_last() == old(self).undo_models()
                    &&& crate::model::packet_valid_rev(
                        final(self).model(),
                        final(self).undo_models().last(),
                    )
                    &&& crate::model::apply_packet_rev(
                        final(self).model(),
                        final(self).undo_models().last(),
                    ) == old(self).model()
                    &&& final(self).checkpoint_pending() == old(self).checkpoint_pending()
                },
                Err(e) => e == Oops::NoMoreRedos(0) && old(self).redo_models().len() == 0
                    && final(self).model() == old(self).model() && final(self).undo_models()
                    == old(self).undo_models() && final(self).redo_models() == old(
                    self,
                ).redo_models() && final(self).checkpoint_pending() == old(
                    self,
                ).checkpoint_pending(),
            }),
    {
        let popped = self.undo_redo.pop_redo();
        match popped {
            None => Err(Oops::NoMoreRedos(0)),
            Some(packet) => {
                let ghost m0 = self.model();
                let ghost cs = packet@;
                proof {
                    assert(cs == old(self).redo_models().last());
                    assert(crate::model::packet_valid_rev(m0, cs));
                    assert(cs.subrange(0, cs.len() as int) =~= cs);
                    assert(crate::model::apply_packet_rev(
                        m0,
                        cs.subrange(cs.len() as int, cs.len() as int),
                    ) == m0) by {
                        assert(cs.subrange(cs.len() as int, cs.len() as int) =~= Seq::<
                            ChangeModel,
                        >::empty());
                    }
                }
                let mut undo_packet = ChangePacket::new();
                let n = packet.len();
                let mut j = n;
                while j > 0
                    invariant
                        0 <= j <= n,
                        n == cs.len(),
                        packet@ == cs,
                        self.core_wf(),
                self.syntax_wf(),
                        self.model() == crate::model::apply_packet_rev(
                            m0,
                            cs.subrange(j as int, n as int),
                        ),
                        crate::model::packet_valid_rev(self.model(), cs.subrange(0, j as int)),
                        crate::model::packet_valid_rev(self.model(), undo_packet@),
                        crate::model::apply_packet_rev(self.model(), undo_packet@) == m0,
                        self.redo_models() == old(self).redo_models().drop_last(),
                        self.undo_models() == old(self).undo_models(),
                        self.checkpoint_pending() == old(self).checkpoint_pending(),
                    decreases j,
                {
                    j = j - 1;
                    let c = packet.get(j);
                    let ghost mcur = self.model();
                    let ghost rcur = undo_packet@;
                    proof {
                        assert(cs.subrange(0, j + 1).last() == cs[j as int]);
                        assert(cs.subrange(0, j + 1).drop_last() =~= cs.subrange(0, j as int));
                        assert(change_valid(mcur, c@));
                        crate::model::lemma_change_roundtrip(mcur, c@);
                    }
                    let inv = c.apply_untracked(self);
                    undo_packet.push(inv);
                    proof {
                        let mnew = self.model();
                        assert(mnew == apply_change(mcur, cs[j as int]).0);
                        assert(seq![cs[j as int]] + cs.subrange(j + 1, n as int) =~= cs.subrange(
                            j as int,
                            n as int,
                        ));
                        crate::model::lemma_packet_concat(
                            m0,
                            seq![cs[j as int]],
                            cs.subrange(j + 1, n as int),
                        );
                        assert(seq![cs[j as int]].last() == cs[j as int]);
                        assert(seq![cs[j as int]].drop_last() =~= Seq::<ChangeModel>::empty());
                        assert(crate::model::apply_packet_rev(mnew, Seq::<ChangeModel>::empty())
                            == mnew);
                        assert(crate::model::apply_packet_rev(mcur, seq![cs[j as int]]) == mnew);
                        assert(mnew == crate::model::apply_packet_rev(
                            m0,
                            cs.subrange(j as int, n as int),
                        ));
                        assert(undo_packet@ =~= rcur.push(inv@));
                        assert(undo_packet@.last() == inv@);
                        assert(undo_packet@.drop_last() =~= rcur);
                        assert(apply_change(mnew, inv@).0 == mcur);
                        assert(crate::model::packet_valid_rev(self.model(), undo_packet@));
                        assert(crate::model::apply_packet_rev(self.model(), undo_packet@) == m0);
                    }
                }
                proof {
                    assert(cs.subrange(0, 0) =~= Seq::<ChangeModel>::empty());
                    assert(self.model() == crate::model::apply_packet_rev(m0, cs)) by {
                        assert(cs.subrange(0, n as int) =~= cs);
                    }
                }
                self.undo_redo.push_undo_packet(undo_packet);
                proof {
                    assert(final(self).undo_models().drop_last() =~= old(self).undo_models());
                    assert(anchors_ok(self.model()));
                    assert(stack_valid(self.model(), self.undo_models()));
                    assert(stack_valid(self.model(), self.redo_models()));
                }
                Ok(())
            },
        }
    }

    /// Undoes up to `quantity` packets. Returns `Ok(quantity)` when all were
    /// undone, and `Err(NoMoreUndos(times))` when the history ran out after
    /// `times` packets. The redo stack grows by one packet per undone packet,
    /// and redoing them all restores exactly the state before this call.
    pub fn undo(&mut self, quantity: usize) -> (r: Result<usize, Oops>)
        requires
            old(self).wf(),
        ensures
            final(self).wf(),
            ({
                let k: nat = if quantity <= old(self).undo_models().len() {
                    quantity as nat
                } else {
                    old(self).undo_models().len()
                };
                &&& final(self).model() == crate::model::apply_packets(
                    old(self).model(),
                    old(self).undo_models(),
                    k,
                )
                &&& final(self).undo_models() == old(self).undo_models().subrange(
                    0,
                    old(self).undo_models().len() - k,
                )
                &&& final(self).redo_models().len() == old(self).redo_models().len() + k
                &&& final(self).redo_models().subrange(0, old(self).redo_models().len() as int)
                    == old(self).redo_models()
                &&& crate::model::apply_packets(final(self).model(), final(self).redo_models(), k)
                    == old(self).model()
                &&& r == (if quantity <= old(self).undo_models().len() {
                    Ok::<usize, Oops>(quantity)
                } else {
                    Err::<usize, Oops>(Oops::NoMoreUndos(old(self).undo_models().len() as usize))
                })
            }),
    {
        let ghost m0 = self.model();
        let ghost u0 = self.undo_models();
        let ghost r0 = self.redo_models();
        let mut times: usize = 0;
        while times < quantity
            invariant
                0 <= times <= quantity,
                self.wf(),
                m0 == old(self).model(),
                u0 == old(self).undo_models(),
                r0 == old(self).redo_models(),
                times <= u0.len(),
                self.model() == crate::model::apply_packets(m0, u0, times as nat),
                self.undo_models() == u0.subrange(0, u0.len() - times),
                self.redo_models().len() == r0.len() + times,
                self.redo_models().subrange(0, r0.len() as int) == r0,
                crate::model::apply_packets(self.model(), self.redo_models(), times as nat) == m0,
            decreases quantity - times,
        {
            let ghost mcur = self.model();
            let ghost ucur = self.undo_models();
            let ghost rcur = self.redo_models();
            let result = self.undo_once();
            match result {
                Ok(_) => {},
                Err(_) => {
                    proof {
                        assert(ucur.len() == 0);
                        assert(u0.len() == times);
                        assert(u0.subrange(0, 0) =~= Seq::<Seq<ChangeModel>>::empty());
                    }
                    return Err(Oops::NoMoreUndos(times));
                },
            }
            proof {
                assert(ucur.len() > 0);
                assert(ucur.last() == u0[u0.len() - 1 - times]) by {
                    assert(ucur == u0.subrange(0, u0.len() - times));
                }
                crate::model::lemma_apply_packets_step(m0, u0, times as nat);
                assert(self.model() == crate::model::apply_packets(m0, u0, (times + 1) as nat));
                assert(self.undo_models() =~= u0.subrange(0, u0.len() - (times + 1)));
                assert(self.redo_models().subrange(0, r0.len() as int) =~= r0);
                assert(crate::model::apply_packets(
                    self.model(),
                    self.redo_models(),
                    (times + 1) as nat,
                ) == m0) by {
                    assert(self.redo_models().drop_last() == rcur);
                    assert(crate::model::apply_packet_rev(
                        self.model(),
                        self.redo_models().last(),
                    ) == mcur);
                }
            }
            times = times + 1;
        }
        Ok(quantity)
    }

    /// Redoes up to `quantity` packets. Returns `Ok(quantity)` when all were
    /// redone, and `Err(NoMoreRedos(times))` when the redo stack ran out
    /// after `times` packets. The undo stack grows by one packet per redone
    /// packet, and undoing them all restores exactly the state before this
    /// call.
    pub fn redo(&mut self, quantity: usize) -> (r: Result<usize, Oops>)
        requires
            old(self).wf(),
        ensures
            final(self).wf(),
            ({
                let k: nat = if quantity <= old(self).redo_models().len() {
                    quantity as nat
                } else {
                    old(self).redo_models().len()
                };
                &&& final(self).model() == crate::model::apply_packets(
                    old(self).model(),
                    old(self).redo_models(),
                    k,
                )
                &&& final(self).redo_models() == old(self).redo_models().subrange(
                    0,
                    old(self).redo_models().len() - k,
                )
                &&& final(self).undo_models().len() == old(self).undo_models().len() + k
                &&& final(self).undo_models().subrange(0, old(self).undo_models().len() as int)
                    == old(self).undo_models()
                &&& crate::model::apply_packets(final(self).model(), final(self).undo_models(), k)
                    == old(self).model()
                &&& r == (if quantity <= old(self).redo_models().len() {
                    Ok::<usize, Oops>(quantity)
                } else {
                    Err::<usize, Oops>(Oops::NoMoreRedos(old(self).redo_models().len() as usize))
                })
            }),
    {
        let ghost m0 = self.model();
        let ghost u0 = self.undo_models();
        let ghost r0 = self.redo_models();
        let mut times: usize = 0;
        while times < quantity
            invariant
                0 <= times <= quantity,
                self.wf(),
                m0 == old(self).model(),
                u0 == old(self).undo_models(),
                r0 == old(self).redo_models(),
                times <= r0.len(),
                self.model() == crate::model::apply_packets(m0, r0, times as nat),
                self.redo_models() == r0.subrange(0, r0.len() - times),
                self.undo_models().len() == u0.len() + times,
                self.undo_models().subrange(0, u0.len() as int) == u0,
                crate::model::apply_packets(self.model(), self.undo_models(), times as nat) == m0,
            decreases quantity - times,
        {
            let ghost mcur = self.model();
            let ghost ucur = self.undo_models();
            let ghost rcur = self.redo_models();
            let result = self.redo_once();
            match result {
                Ok(_) => {},
                Err(_) => {
                    proof {
                        assert(rcur.len() == 0);
                        assert(r0.len() == times);
                        assert(r0.subrange(0, 0) =~= Seq::<Seq<ChangeModel>>::empty());
                    }
                    return Err(Oops::NoMoreRedos(times));
                },
            }
            proof {
                assert(rcur.len() > 0);
                assert(rcur.last() == r0[r0.len() - 1 - times]) by {
                    assert(rcur == r0.subrange(0, r0.len() - times));
                }
                crate::model::lemma_apply_packets_step(m0, r0, times as nat);
                assert(self.model() == crate::model::apply_packets(m0, r0, (times + 1) as nat));
                assert(self.redo_models() =~= r0.subrange(0, r0.len() - (times + 1)));
                assert(self.undo_models().subrange(0, u0.len() as int) =~= u0);
                assert(crate::model::apply_packets(
                    self.model(),
                    self.undo_models(),
                    (times + 1) as nat,
                ) == m0) by {
                    assert(self.undo_models().drop_last() == ucur);
                    assert(crate::model::apply_packet_rev(
                        self.model(),
                        self.undo_models().last(),
                    ) == mcur);
                }
            }
            times = times + 1;
        }
        Ok(quantity)
    }
}

impl Document {
    /// Returns a document initialized from `text` with language `language`,
    /// which can be a file name extension.
    pub fn from_with_language(text: &str, language: &str) -> (r: Document)
        ensures
            r.wf(),
            r.model() == (DocModel {
                lines: split_text(text@),
                anchors: initial_anchors(),
                next_id: 2u32,
                indentation: Indentation { use_spaces: true, spaces_per_tab: 4 },
                language: language@,
            }),
            r.undo_models() == Seq::<Seq<ChangeModel>>::empty(),
            r.redo_models() == Seq::<Seq<ChangeModel>>::empty(),
            !r.checkpoint_pending(),
            !crate::language::registered(language@) ==> r.syntax_model() is None,
    {
        let mut document = Document::from(text);
        let ghost m0 = document.model();
        let _ = document.set_language_untracked(language);
        proof {
            assert(document.model() =~~= (DocModel {
                lines: split_text(text@),
                anchors: initial_anchors(),
                next_id: 2u32,
                indentation: Indentation { use_spaces: true, spaces_per_tab: 4 },
                language: language@,
            }));
            assert(stack_valid(document.model(), document.undo_models()));
            assert(stack_valid(document.model(), document.redo_models()));
        }
        document
    }

    /// Updates the parse tree for this document, acquiring a parser for the
    /// current language if necessary. This never fails, but it may leave the
    /// document with no parse tree; that is a normal, observable state.
    pub fn update_parse(&mut self)
        requires
            old(self).core_wf(),
        ensures
            final(self).core_wf(),
            final(self).syntax_wf(),
            final(self).model() == old(self).model(),
            final(self).undo_models() == old(self).undo_models(),
            final(self).redo_models() == old(self).redo_models(),
            final(self).checkpoint_pending() == old(self).checkpoint_pending(),
            final(self).anchors_entries() == old(self).anchors_entries(),
            !crate::language::registered(old(self).model().language) ==> final(self).syntax_model()
                is None,
    {
        let have_parser = match &self.parser {
            None => false,
            Some(_) => true,
        };
        if !have_parser {
            self.parser = crate::language::get_parser(self.language.as_str());
            let still_none = match &self.parser {
                None => true,
                Some(_) => false,
            };
            if still_none {
                self.syntax = None;
                return ;
            }
        }
        let text = self.text();
        let raw_opt = match &mut self.parser {
            None => None,
            Some(p) => crate::ts::parser_parse_raw(p, text.as_str()),
        };
        match raw_opt {
            None => {
                self.syntax = None;
            },
            Some(raw) => {
                self.syntax = crate::syntax::validate_node(&raw, &self.lines);
                proof {
                    assert(crate::syntax::raw_view(raw) == crate::ts::parse_of(
                        self.language@,
                        join_text(self.model().lines),
                    ));
                    assert(self.syntax_wf());
                }
            },
        }
    }

    /// Returns the parse tree of the document rendered as an indented
    /// listing, or `None` if the document has no parse tree.
    ///
    /// Each line shows a node's kind and its byte-addressed span, and, for a
    /// node on a single row, the text it spans.
    pub fn parse_tree_pretty_print(&self) -> (r: Option<String>)
        requires
            self.wf(),
        ensures
            (match r {
                Some(s) => (match self.syntax_model() {
                    Some(t) => s@ == crate::syntax::pp_spec(
                        t,
                        Seq::<char>::empty(),
                        self.model().lines,
                    ),
                    None => false,
                }),
                None => self.syntax_model() is None,
            }),
    {
        match &self.syntax {
            None => None,
            Some(t) => {
                let mut out = String::new();
                proof {
                    reveal_strlit("");
                    assert(""@ =~= Seq::<char>::empty());
                }
                crate::syntax::render_node(t, "", &self.lines, &mut out);
                Some(out)
            },
        }
    }

    /// Returns the chain of syntactic regions enclosing `position`, from the
    /// root of the parse tree down to the innermost region, or fails when
    /// the position is invalid or the document has no parse tree.
    pub fn get_context_at(&self, position: &Position) -> (r: Result<crate::syntax::Chain, Oops>)
        requires
            self.wf(),
        ensures
            (match r {
                Ok(chain) => pos_valid_model(self.model().lines, *position) && (
                match self.syntax_model() {
                    Some(t) => crate::syntax::chain_view(chain) == crate::syntax::chain_spec(
                        t,
                        *position,
                    ),
                    None => false,
                }),
                Err(Oops::InvalidPosition(p, _)) => p == *position && !pos_valid_model(
                    self.model().lines,
                    *position,
                ),
                Err(Oops::CannotParse(_)) => pos_valid_model(self.model().lines, *position)
                    && self.syntax_model() is None,
                Err(_) => false,
            }),
    {
        if !self.position_valid(position) {
            return Err(Oops::InvalidPosition(*position, "get_context_at"));
        }
        match &self.syntax {
            None => Err(Oops::CannotParse("get_context_at")),
            Some(t) => {
                let mut chain = crate::syntax::Chain::new();
                crate::syntax::walk_chain(t, position, &mut chain);
                proof {
                    assert(crate::syntax::chain_view(chain) =~= crate::syntax::chain_spec(
                        *t,
                        *position,
                    ));
                }
                Ok(chain)
            },
        }
    }
}

impl Change {
    /// Performs this change on `document`, returning the inverse change.
    ///
    /// The caller is responsible for only applying changes that are valid in
    /// the current state; the public editing interface and the undo and redo
    /// machinery maintain that by construction.
    pub fn apply_untracked(&self, document: &mut Document) -> (r: Change)
        requires
            old(document).core_wf(),
            old(document).syntax_wf(),
            change_valid(old(document).model(), self@),
        ensures
            final(document).core_wf(),
            final(document).syntax_wf(),
            final(document).model() == apply_change(old(document).model(), self@).0,
            r@ == apply_change(old(document).model(), self@).1,
            final(document).undo_models() == old(document).undo_models(),
            final(document).redo_models() == old(document).redo_models(),
            final(document).checkpoint_pending() == old(document).checkpoint_pending(),
    {
        match self {
            Change::Insert { text, position } => document.insert_untracked(text, position),
            Change::Remove { range } => document.remove_untracked(range),
            Change::AnchorSet { handle, value } => document.set_anchor_untracked(*handle, value),
            Change::AnchorInsert { handle, value } => document.insert_anchor_untracked(
                *handle,
                value,
            ),
            Change::AnchorRemove { handle } => document.remove_anchor_untracked(*handle),
            Change::IndentationChange { value } => document.set_indentation_untracked(value),
            Change::LanguageChange { value } => document.set_language_untracked(value.as_str()),
        }
    }
}

} // verus!
