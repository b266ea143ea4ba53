//! Reified reversible changes, packets of them, and the undo/redo stacks.

use crate::anchors::{Anchor, AnchorHandle};
use crate::indentation::Indentation;
use crate::model::ChangeModel;
use crate::position::{Position, Range};
use vstd::prelude::*;

verus! {

/// A reification of a reversible modification to a document.
///
/// When a change is applied, the document is modified and the inverse change
/// is returned; the undo and redo stacks hold such inverses. The inverse of a
/// change is always exactly one change, so composite edits are decomposed
/// into several small changes rather than one large one.
#[derive(PartialEq, Eq, Clone, Debug)]
pub enum Change {
    /// Inserting `text` at `position` - literally, no escapes, exactly the
    /// characters that get inserted.
    Insert { text: Vec<String>, position: Position },
    /// Removing the text within `range`.
    Remove { range: Range },
    /// Changing the contents of the previously existing anchor at `handle`
    /// to `value`.
    AnchorSet { handle: AnchorHandle, value: Anchor },
    /// Inserting a new anchor equal to `value` at `handle`.
    AnchorInsert { handle: AnchorHandle, value: Anchor },
    /// Removing the anchor at `handle`.
    AnchorRemove { handle: AnchorHandle },
    /// A change to the indentation policy.
    IndentationChange { value: Indentation },
    /// A change in the document's language string.
    LanguageChange { value: String },
}

impl View for Change {
    type V = ChangeModel;

    open spec fn view(&self) -> ChangeModel {
        match self {
            Change::Insert { text, position } => ChangeModel::Insert {
                text: text.deep_view(),
                position: *position,
            },
            Change::Remove { range } => ChangeModel::Remove { range: *range },
            Change::AnchorSet { handle, value } => ChangeModel::AnchorSet {
                handle: *handle,
                value: value.position,
            },
            Change::AnchorInsert { handle, value } => ChangeModel::AnchorInsert {
                handle: *handle,
                value: value.position,
            },
            Change::AnchorRemove { handle } => ChangeModel::AnchorRemove { handle: *handle },
            Change::IndentationChange { value } => ChangeModel::IndentationChange {
                value: *value,
            },
            Change::LanguageChange { value } => ChangeModel::LanguageChange { value: value@ },
        }
    }
}

impl DeepView for Change {
    type V = ChangeModel;

    open spec fn deep_view(&self) -> ChangeModel {
        self.view()
    }
}

/// A series of [`Change`]s applied as a group: user actions such as one
/// undo keystroke undo a whole packet.
#[derive(PartialEq, Eq, Clone, Debug)]
pub struct ChangePacket {
    changes: Vec<Change>,
}

impl View for ChangePacket {
    type V = Seq<ChangeModel>;

    closed spec fn view(&self) -> Seq<ChangeModel> {
        self.changes.deep_view()
    }
}

impl DeepView for ChangePacket {
    type V = Seq<ChangeModel>;

    open spec fn deep_view(&self) -> Seq<ChangeModel> {
        self@
    }
}

impl ChangePacket {
    /// Returns a new packet with no changes stored.
    pub fn new() -> (r: ChangePacket)
        ensures
            r@ == Seq::<ChangeModel>::empty(),
    {
        let r = ChangePacket { changes: Vec::new() };
        proof {
            assert(r@ =~= Seq::<ChangeModel>::empty());
        }
        r
    }

    /// The number of changes in the packet.
    pub fn len(&self) -> (r: usize)
        ensures
            r == self@.len(),
    {
        self.changes.len()
    }

    /// The `i`th change of the packet, in recording order.
    pub fn get(&self, i: usize) -> (r: &Change)
        requires
            i < self@.len(),
        ensures
            r@ == self@[i as int],
    {
        &self.changes[i]
    }

    /// Appends one change to the packet.
    pub fn push(&mut self, c: Change)
        ensures
            final(self)@ == old(self)@.push(c@),
    {
        self.changes.push(c);
        proof {
            assert(self@ =~= old(self)@.push(c@));
        }
    }
}

/// Maintains the undo and redo stacks for a document.
///
/// A single editing command can produce many reversible changes which must
/// be undone together, so changes are tracked in packets; an undo or redo
/// command works at the packet level. To open a new packet with the next
/// tracked change, use [`UndoRedoStacks::checkpoint`].
#[derive(Clone, Debug)]
pub struct UndoRedoStacks {
    undo_stack: Vec<ChangePacket>,
    redo_stack: Vec<ChangePacket>,
    checkpoint_requested: bool,
}

impl UndoRedoStacks {
    /// The packets of the undo stack, oldest first.
    pub closed spec fn undo_packets(&self) -> Seq<Seq<ChangeModel>> {
        self.undo_stack.deep_view()
    }

    /// The packets of the redo stack, oldest first.
    pub closed spec fn redo_packets(&self) -> Seq<Seq<ChangeModel>> {
        self.redo_stack.deep_view()
    }

    /// Whether a checkpoint was requested and not yet consumed.
    pub closed spec fn checkpoint_pending(&self) -> bool {
        self.checkpoint_requested
    }

    /// Returns a new `UndoRedoStacks` with empty stacks and no checkpoint
    /// requested.
    pub fn new() -> (r: UndoRedoStacks)
        ensures
            r.undo_packets() == Seq::<Seq<ChangeModel>>::empty(),
            r.redo_packets() == Seq::<Seq<ChangeModel>>::empty(),
            !r.checkpoint_pending(),
    {
        let r = UndoRedoStacks {
            undo_stack: Vec::new(),
            redo_stack: Vec::new(),
            checkpoint_requested: false,
        };
        proof {
            assert(r.undo_packets() =~= Seq::<Seq<ChangeModel>>::empty());
            assert(r.redo_packets() =~= Seq::<Seq<ChangeModel>>::empty());
        }
        r
    }

    /// Clears the redo stack. This happens automatically whenever an undo is
    /// recorded, but it can be called out of cycle to invalidate redos.
    pub fn forget_redos(&mut self)
        ensures
            final(self).redo_packets() == Seq::<Seq<ChangeModel>>::empty(),
            final(self).undo_packets() == old(self).undo_packets(),
            final(self).checkpoint_pending() == old(self).checkpoint_pending(),
    {
        if self.redo_stack.len() > 0 {
            self.redo_stack.clear();
        }
        proof {
            assert(self.redo_packets() =~= Seq::<Seq<ChangeModel>>::empty());
        }
    }

    /// Clears undos and redos, returning this `UndoRedoStacks` to its
    /// factory-new configuration. This cannot be undone.
    pub fn forget_everything(&mut self)
        ensures
            final(self).redo_packets() == Seq::<Seq<ChangeModel>>::empty(),
            final(self).undo_packets() == Seq::<Seq<ChangeModel>>::empty(),
            final(self).checkpoint_pending() == old(self).checkpoint_pending(),
    {
        self.forget_redos();
        if self.undo_stack.len() > 0 {
            self.undo_stack.clear();
        }
        proof {
            assert(self.undo_packets() =~= Seq::<Seq<ChangeModel>>::empty());
        }
    }

    /// Requests that subsequent changes open a new packet. Calling this
    /// several times in quick succession produces only one new packet.
    ///
    /// Checkpointing clears the redo stack, regardless.
    pub fn checkpoint(&mut self)
        ensures
            final(self).redo_packets() == Seq::<Seq<ChangeModel>>::empty(),
            final(self).undo_packets() == old(self).undo_packets(),
            final(self).checkpoint_pending(),
    {
        self.forget_redos();
        self.checkpoint_requested = true;
    }

    /// Adds the inverse of a recently applied change to the undo stack,
    /// forgetting the redo stack. A new packet is opened when the stack is
    /// empty or a checkpoint is pending; otherwise the top packet grows.
    pub fn push_undo(&mut self, change: Change)
        ensures
            final(self).redo_packets() == Seq::<Seq<ChangeModel>>::empty(),
            !final(self).checkpoint_pending(),
            final(self).undo_packets() == (if old(self).undo_packets().len() == 0 || old(
                self,
            ).checkpoint_pending() {
                old(self).undo_packets().push(seq![change@])
            } else {
                old(self).undo_packets().update(
                    old(self).undo_packets().len() - 1,
                    old(self).undo_packets().last().push(change@),
                )
            }),
    {
        self.forget_redos();
        let ghost mid = self.undo_packets();
        let fresh = self.undo_stack.len() == 0 || self.checkpoint_requested;
        if fresh {
            self.undo_stack.push(ChangePacket::new());
            proof {
                assert(self.undo_packets() =~= mid.push(Seq::<ChangeModel>::empty()));
            }
        }
        self.checkpoint_requested = false;
        let n = self.undo_stack.len();
        let ghost before = self.undo_packets();
        let mut p = match self.undo_stack.pop() {
            Some(p) => p,
            None => ChangePacket::new(),  // unreachable: the stack is never empty here
        };
        p.push(change);
        self.undo_stack.push(p);
        proof {
            assert(self.undo_packets() =~= before.update(
                before.len() - 1,
                before.last().push(change@),
            ));
            if fresh {
                assert(self.undo_packets() =~= old(self).undo_packets().push(seq![change@]));
            } else {
                assert(self.undo_packets() =~= old(self).undo_packets().update(
                    old(self).undo_packets().len() - 1,
                    old(self).undo_packets().last().push(change@),
                ));
            }
        }
    }

    /// Returns `(u, r)`: how many undo and redo operations are available.
    pub fn depth(&self) -> (r: (usize, usize))
        ensures
            r.0 == self.undo_packets().len(),
            r.1 == self.redo_packets().len(),
    {
        (self.undo_stack.len(), self.redo_stack.len())
    }

    /// Pops the top undo packet, if any.
    pub(crate) fn pop_undo(&mut self) -> (r: Option<ChangePacket>)
        ensures
            final(self).redo_packets() == old(self).redo_packets(),
            final(self).checkpoint_pending() == old(self).checkpoint_pending(),
            (match r {
                Some(p) => old(self).undo_packets().len() > 0 && p@ == old(
                    self,
                ).undo_packets().last() && final(self).undo_packets() == old(
                    self,
                ).undo_packets().drop_last(),
                None => old(self).undo_packets().len() == 0 && final(self).undo_packets() == old(
                    self,
                ).undo_packets(),
            }),
    {
        let r = self.undo_stack.pop();
        proof {
            if old(self).undo_stack@.len() > 0 {
                assert(self.undo_packets() =~= old(self).undo_packets().drop_last());
            }
        }
        r
    }

    /// Pops the top redo packet, if any.
    pub(crate) fn pop_redo(&mut self) -> (r: Option<ChangePacket>)
        ensures
            final(self).undo_packets() == old(self).undo_packets(),
            final(self).checkpoint_pending() == old(self).checkpoint_pending(),
            (match r {
                Some(p) => old(self).redo_packets().len() > 0 && p@ == old(
                    self,
                ).redo_packets().last() && final(self).redo_packets() == old(
                    self,
                ).redo_packets().drop_last(),
                None => old(self).redo_packets().len() == 0 && final(self).redo_packets() == old(
                    self,
                ).redo_packets(),
            }),
    {
        let r = self.redo_stack.pop();
        proof {
            if old(self).redo_stack@.len() > 0 {
                assert(self.redo_packets() =~= old(self).redo_packets().drop_last());
            }
        }
        r
    }

    /// Pushes a whole packet onto the redo stack.
    pub(crate) fn push_redo_packet(&mut self, p: ChangePacket)
        ensures
            final(self).undo_packets() == old(self).undo_packets(),
            final(self).checkpoint_pending() == old(self).checkpoint_pending(),
            final(self).redo_packets() == old(self).redo_packets().push(p@),
    {
        self.redo_stack.push(p);
        proof {
            assert(self.redo_packets() =~= old(self).redo_packets().push(p@));
        }
    }

    /// Pushes a whole packet onto the undo stack, bypassing packet grouping.
    pub(crate) fn push_undo_packet(&mut self, p: ChangePacket)
        ensures
            final(self).redo_packets() == old(self).redo_packets(),
            final(self).checkpoint_pending() == old(self).checkpoint_pending(),
            final(self).undo_packets() == old(self).undo_packets().push(p@),
    {
        self.undo_stack.push(p);
        proof {
            assert(self.undo_packets() =~= old(self).undo_packets().push(p@));
        }
    }
}

} // verus!
