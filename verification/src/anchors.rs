//! A handle-keyed collection of positions with stable identity across edits.
//!
//! Handles 0 (cursor) and 1 (mark) are permanently reserved; all other
//! handles come from a monotonically increasing counter and are never reused
//! within a document's lifetime.

use crate::oops::Oops;
use crate::position::Position;
use vstd::prelude::*;

verus! {

/// An opaque-ish handle which acts as a unique key within a document for
/// anchors. The cursor is locked to [`Anchors::CURSOR`] and the mark is
/// locked to [`Anchors::MARK`], but no assumptions should be made as to the
/// handles assigned to other anchors.
pub type AnchorHandle = u32;

/// A location in a document which keeps its position when the document is
/// changed. Typical anchors are cursors, breakpoints, and tooltips.
#[derive(PartialEq, Eq, Clone, Copy, Hash, Debug, Structural)]
pub struct Anchor {
    pub position: Position,
}

impl Anchor {
    /// Creates an anchor at position (0, 0).
    pub fn new() -> (r: Anchor)
        ensures
            r == (Anchor { position: Position { row: 0, column: 0 } }),
    {
        Anchor { position: Position { row: 0, column: 0 } }
    }

    /// Creates an anchor at position (`row`, `column`).
    pub fn from(row: usize, column: usize) -> (r: Anchor)
        ensures
            r == (Anchor { position: Position { row, column } }),
    {
        Anchor { position: Position { row, column } }
    }
}

/// No two entries of `s` carry the same handle.
pub open spec fn distinct_keys(s: Seq<(AnchorHandle, Anchor)>) -> bool {
    forall|i: int, j: int| 0 <= i < j < s.len() ==> s[i].0 != s[j].0
}

/// Some entry of `s` carries handle `h`.
pub open spec fn has_key(s: Seq<(AnchorHandle, Anchor)>, h: AnchorHandle) -> bool {
    exists|i: int| 0 <= i < s.len() && s[i].0 == h
}

/// The handle-to-position map held by the entries of `s`.
pub open spec fn pairs_map(s: Seq<(AnchorHandle, Anchor)>) -> Map<AnchorHandle, Position>
    decreases s.len(),
{
    if s.len() == 0 {
        Map::empty()
    } else {
        pairs_map(s.drop_last()).insert(s.last().0, s.last().1.position)
    }
}

/// A handle is in the map exactly when some entry carries it.
pub proof fn lemma_pairs_map_dom(s: Seq<(AnchorHandle, Anchor)>, h: AnchorHandle)
    ensures
        pairs_map(s).dom().contains(h) <==> has_key(s, h),
    decreases s.len(),
{
    if s.len() > 0 {
        lemma_pairs_map_dom(s.drop_last(), h);
        if has_key(s.drop_last(), h) {
            let i = choose|i: int| 0 <= i < s.drop_last().len() && s.drop_last()[i].0 == h;
            assert(s[i].0 == h);
        }
        if s.last().0 == h {
            assert(s[s.len() - 1].0 == h);
        }
        if has_key(s, h) && s.last().0 != h {
            let i = choose|i: int| 0 <= i < s.len() && s[i].0 == h;
            assert(s.drop_last()[i].0 == h);
        }
    }
}

/// The entry carrying a handle gives the handle's position in the map.
pub proof fn lemma_pairs_map_index(s: Seq<(AnchorHandle, Anchor)>, i: int)
    requires
        distinct_keys(s),
        0 <= i < s.len(),
    ensures
        pairs_map(s).dom().contains(s[i].0),
        pairs_map(s)[s[i].0] == s[i].1.position,
    decreases s.len(),
{
    if i == s.len() - 1 {
    } else {
        assert(distinct_keys(s.drop_last()));
        assert(s.drop_last()[i] == s[i]);
        lemma_pairs_map_index(s.drop_last(), i);
        assert(s[i].0 != s.last().0);
    }
}

/// Updating the entry that carries `h` updates the map at `h`.
pub proof fn lemma_pairs_map_update(s: Seq<(AnchorHandle, Anchor)>, i: int, a: Anchor)
    requires
        distinct_keys(s),
        0 <= i < s.len(),
    ensures
        pairs_map(s.update(i, (s[i].0, a))) == pairs_map(s).insert(s[i].0, a.position),
    decreases s.len(),
{
    let h = s[i].0;
    let t = s.update(i, (h, a));
    if i == s.len() - 1 {
        assert(t.drop_last() =~= s.drop_last());
        assert(pairs_map(t) =~= pairs_map(s).insert(h, a.position));
    } else {
        assert(distinct_keys(s.drop_last()));
        assert(s.drop_last()[i] == s[i]);
        lemma_pairs_map_update(s.drop_last(), i, a);
        assert(t.drop_last() =~= s.drop_last().update(i, (h, a)));
        assert(t.last() == s.last());
        assert(h != s.last().0);
        assert(pairs_map(t) =~= pairs_map(s).insert(h, a.position));
    }
}

/// Removing the entry that carries `h` removes `h` from the map.
pub proof fn lemma_pairs_map_remove(s: Seq<(AnchorHandle, Anchor)>, i: int)
    requires
        distinct_keys(s),
        0 <= i < s.len(),
    ensures
        pairs_map(s.remove(i)) == pairs_map(s).remove(s[i].0),
    decreases s.len(),
{
    let h = s[i].0;
    if i == s.len() - 1 {
        assert(s.remove(i) =~= s.drop_last());
        assert(!has_key(s.drop_last(), h)) by {
            if has_key(s.drop_last(), h) {
                let j = choose|j: int| 0 <= j < s.drop_last().len() && s.drop_last()[j].0 == h;
                assert(s[j].0 == s[i].0);
            }
        }
        lemma_pairs_map_dom(s.drop_last(), h);
        assert(pairs_map(s.remove(i)) =~= pairs_map(s).remove(h));
    } else {
        assert(distinct_keys(s.drop_last()));
        assert(s.drop_last()[i] == s[i]);
        lemma_pairs_map_remove(s.drop_last(), i);
        assert(s.remove(i).drop_last() =~= s.drop_last().remove(i));
        assert(s.remove(i).last() == s.last());
        assert(h != s.last().0);
        assert(pairs_map(s.remove(i)) =~= pairs_map(s).remove(h));
    }
}

/// The map of a two-entry store, written out.
pub proof fn lemma_pairs_map_two(a: (AnchorHandle, Anchor), b: (AnchorHandle, Anchor))
    ensures
        pairs_map(seq![a, b]) == Map::empty().insert(a.0, a.1.position).insert(
            b.0,
            b.1.position,
        ),
{
    assert(seq![a, b].drop_last() =~= seq![a]);
    assert(seq![a].drop_last() =~= Seq::<(AnchorHandle, Anchor)>::empty());
    assert(pairs_map(Seq::<(AnchorHandle, Anchor)>::empty()) == Map::<
        AnchorHandle,
        Position,
    >::empty());
    assert(seq![a].last() == a);
    assert(pairs_map(seq![a]) == pairs_map(Seq::<(AnchorHandle, Anchor)>::empty()).insert(
        a.0,
        a.1.position,
    ));
    assert(seq![a, b].last() == b);
    assert(pairs_map(seq![a, b]) == pairs_map(seq![a]).insert(b.0, b.1.position));
}

/// With distinct keys, the map holds exactly one entry per store entry.
pub proof fn lemma_pairs_len(s: Seq<(AnchorHandle, Anchor)>)
    requires
        distinct_keys(s),
    ensures
        pairs_map(s).dom().finite(),
        pairs_map(s).dom().len() == s.len(),
    decreases s.len(),
{
    if s.len() > 0 {
        assert(distinct_keys(s.drop_last()));
        lemma_pairs_len(s.drop_last());
        lemma_pairs_map_dom(s.drop_last(), s.last().0);
        assert(!has_key(s.drop_last(), s.last().0)) by {
            if has_key(s.drop_last(), s.last().0) {
                let j = choose|j: int|
                    0 <= j < s.drop_last().len() && s.drop_last()[j].0 == s.last().0;
                assert(s[j].0 == s[s.len() - 1].0);
            }
        }
        vstd::set::axiom_set_insert_len(pairs_map(s.drop_last()).dom(), s.last().0);
    }
}

/// A container for [`Anchor`]s on a per-document basis, responsible for
/// assigning unique handles to each anchor.
#[derive(PartialEq, Eq, Clone, Debug)]
pub struct Anchors {
    store: Vec<(AnchorHandle, Anchor)>,
    next_id: AnchorHandle,
}

impl Anchors {
    /// The handle of the cursor in a document's anchor list.
    pub const CURSOR: AnchorHandle = 0;

    /// The handle of the mark in a document's anchor list.
    pub const MARK: AnchorHandle = 1;

    /// The entries of the store, in storage order.
    pub closed spec fn view(&self) -> Seq<(AnchorHandle, Anchor)> {
        self.store@
    }

    /// The handle-to-position map of the store.
    pub open spec fn amap(&self) -> Map<AnchorHandle, Position> {
        pairs_map(self@)
    }

    /// The handle the next created anchor would receive.
    pub closed spec fn spec_next_id(&self) -> AnchorHandle {
        self.next_id
    }

    /// Well-formedness: handles are unique and below the counter, the
    /// reserved cursor and mark are present, and the counter starts past
    /// the reserved handles.
    pub open spec fn wf(&self) -> bool {
        &&& distinct_keys(self@)
        &&& has_key(self@, 0)
        &&& has_key(self@, 1)
        &&& forall|i: int| 0 <= i < self@.len() ==> (#[trigger] self@[i]).0 < self.spec_next_id()
        &&& self.spec_next_id() >= 2
    }

    /// Returns a new store with just a cursor and mark at position (0, 0).
    pub fn new() -> (r: Anchors)
        ensures
            r.wf(),
            r@ == seq![(0u32, Anchor { position: Position { row: 0, column: 0 } }), (1u32, Anchor { position: Position { row: 0, column: 0 } })],
            r.spec_next_id() == 2,
    {
        let origin = Anchor::new();
        let mut store: Vec<(AnchorHandle, Anchor)> = Vec::new();
        store.push((0, origin));
        store.push((1, origin));
        proof {
            assert(store@ =~= seq![
                (0u32, Anchor { position: Position { row: 0, column: 0 } }),
                (1u32, Anchor { position: Position { row: 0, column: 0 } }),
            ]);
            assert(store@[0].0 == 0);
            assert(store@[1].0 == 1);
        }
        Anchors { store, next_id: 2 }
    }

    /// The number of anchors held.
    pub fn len(&self) -> (r: usize)
        ensures
            r == self@.len(),
    {
        self.store.len()
    }

    /// The `i`th entry of the store, in storage order.
    pub fn entry(&self, i: usize) -> (r: (AnchorHandle, Anchor))
        requires
            i < self@.len(),
        ensures
            r == self@[i as int],
    {
        let p = self.store[i];
        p
    }

    /// The index of the entry carrying `handle`, if any.
    fn find(&self, handle: AnchorHandle) -> (r: Option<usize>)
        ensures
            (match r {
                Some(i) => i < self@.len() && self@[i as int].0 == handle,
                None => !has_key(self@, handle),
            }),
    {
        let mut i: usize = 0;
        let n = self.store.len();
        while i < n
            invariant
                i <= n,
                n == self@.len(),
                forall|j: int| 0 <= j < i ==> self@[j].0 != handle,
            decreases n - i,
        {
            if self.store[i].0 == handle {
                return Some(i);
            }
            i = i + 1;
        }
        None
    }

    /// Returns the anchor with handle `handle`, or `None` if the handle
    /// is not valid.
    pub fn get(&self, handle: AnchorHandle) -> (r: Option<Anchor>)
        requires
            self.wf(),
        ensures
            (match r {
                Some(a) => self.amap().dom().contains(handle) && a.position
                    == self.amap()[handle],
                None => !self.amap().dom().contains(handle),
            }),
    {
        proof {
            lemma_pairs_map_dom(self@, handle);
        }
        match self.find(handle) {
            None => None,
            Some(i) => {
                proof {
                    lemma_pairs_map_index(self@, i as int);
                }
                Some(self.store[i].1)
            },
        }
    }

    /// Returns the cursor (the primary anchor of a document). This anchor is
    /// guaranteed to exist.
    pub fn cursor(&self) -> (r: Anchor)
        requires
            self.wf(),
        ensures
            self.amap().dom().contains(0) && r.position == self.amap()[0],
    {
        let r = self.get(0);
        match r {
            Some(a) => a,
            None => {
                proof {
                    lemma_pairs_map_dom(self@, 0);
                }
                // Unreachable: the cursor always exists in a well-formed store.
                Anchor::new()
            },
        }
    }

    /// Returns the mark (the secondary anchor of a document). This anchor is
    /// guaranteed to exist.
    pub fn mark(&self) -> (r: Anchor)
        requires
            self.wf(),
        ensures
            self.amap().dom().contains(1) && r.position == self.amap()[1],
    {
        let r = self.get(1);
        match r {
            Some(a) => a,
            None => {
                proof {
                    lemma_pairs_map_dom(self@, 1);
                }
                // Unreachable: the mark always exists in a well-formed store.
                Anchor::new()
            },
        }
    }

    /// Sets the anchor with handle `handle` to `value`. Fails if `handle`
    /// does not exist.
    pub fn set(&mut self, handle: AnchorHandle, value: &Anchor) -> (r: Result<Anchor, Oops>)
        requires
            old(self).wf(),
        ensures
            final(self).wf(),
            final(self).spec_next_id() == old(self).spec_next_id(),
            (match r {
                Ok(prev) => {
                    &&& old(self).amap().dom().contains(handle)
                    &&& prev.position == old(self).amap()[handle]
                    &&& final(self).amap() == old(self).amap().insert(handle, value.position)
                    &&& final(self)@.len() == old(self)@.len()
                    &&& forall|j: int|
                        0 <= j < old(self)@.len() ==> (#[trigger] final(self)@[j]).0 == old(
                            self,
                        )@[j].0 && (old(self)@[j].0 != handle ==> final(self)@[j] == old(
                            self,
                        )@[j]) && (old(self)@[j].0 == handle ==> final(self)@[j].1 == *value)
                },
                Err(e) => {
                    &&& e == Oops::NonexistentAnchor(handle)
                    &&& !old(self).amap().dom().contains(handle)
                    &&& *final(self) == *old(self)
                },
            }),
    {
        proof {
            lemma_pairs_map_dom(self@, handle);
        }
        match self.find(handle) {
            None => Err(Oops::NonexistentAnchor(handle)),
            Some(i) => {
                let prev = self.store[i].1;
                proof {
                    lemma_pairs_map_index(self@, i as int);
                    lemma_pairs_map_update(self@, i as int, *value);
                }
                self.store.set(i, (handle, *value));
                proof {
                    assert(forall|j: int|
                        0 <= j < self@.len() && j != i ==> self@[j] == old(self)@[j]);
                    assert(distinct_keys(self@));
                    assert(self@[i as int].0 == handle);
                    assert(has_key(self@, 0)) by {
                        let k = choose|k: int| 0 <= k < old(self)@.len() && old(self)@[k].0 == 0;
                        assert(self@[k].0 == 0);
                    }
                    assert(has_key(self@, 1)) by {
                        let k = choose|k: int| 0 <= k < old(self)@.len() && old(self)@[k].0 == 1;
                        assert(self@[k].0 == 1);
                    }
                }
                Ok(prev)
            },
        }
    }

    /// Creates a new anchor with contents `anchor` and returns its handle.
    ///
    /// If `force_handle` is not `None`, the new anchor uses that handle.
    /// Forced-handle creation exists solely so that undo and redo can
    /// recreate a previously removed anchor at its original handle.
    pub fn create(&mut self, anchor: Anchor, force_handle: Option<AnchorHandle>) -> (r:
        AnchorHandle)
        requires
            old(self).wf(),
            (match force_handle {
                Some(h) => !old(self).amap().dom().contains(h) && h < old(self).spec_next_id(),
                None => old(self).spec_next_id() < AnchorHandle::MAX,
            }),
        ensures
            final(self).wf(),
            r == (match force_handle {
                Some(h) => h,
                None => old(self).spec_next_id(),
            }),
            final(self)@ == old(self)@.push((r, anchor)),
            final(self).amap() == old(self).amap().insert(r, anchor.position),
            final(self).spec_next_id() == (match force_handle {
                Some(_) => old(self).spec_next_id(),
                None => (old(self).spec_next_id() + 1) as AnchorHandle,
            }),
    {
        let handle = match force_handle {
            None => self.get_new_handle(),
            Some(h) => h,
        };
        proof {
            lemma_pairs_map_dom(self@, handle);
        }
        self.store.push((handle, anchor));
        proof {
            assert(self@.drop_last() =~= old(self)@);
            assert(self@.last() == (handle, anchor));
            assert(distinct_keys(self@)) by {
                assert(forall|j: int|
                    0 <= j < old(self)@.len() ==> (#[trigger] old(self)@[j]).0 != handle);
            }
            assert(has_key(self@, 0)) by {
                let k = choose|k: int| 0 <= k < old(self)@.len() && old(self)@[k].0 == 0;
                assert(self@[k].0 == 0);
            }
            assert(has_key(self@, 1)) by {
                let k = choose|k: int| 0 <= k < old(self)@.len() && old(self)@[k].0 == 1;
                assert(self@[k].0 == 1);
            }
        }
        handle
    }

    /// Removes the anchor with handle `handle`. Fails for the reserved
    /// cursor and mark, and for handles that do not exist.
    pub fn remove(&mut self, handle: AnchorHandle) -> (r: Result<Anchor, Oops>)
        requires
            old(self).wf(),
        ensures
            final(self).wf(),
            final(self).spec_next_id() == old(self).spec_next_id(),
            (match r {
                Ok(prev) => {
                    &&& handle != 0 && handle != 1
                    &&& old(self).amap().dom().contains(handle)
                    &&& prev.position == old(self).amap()[handle]
                    &&& final(self).amap() == old(self).amap().remove(handle)
                },
                Err(e) => {
                    &&& *final(self) == *old(self)
                    &&& (if handle == 0 || handle == 1 {
                        e == Oops::CannotRemoveAnchor(handle)
                    } else {
                        e == Oops::NonexistentAnchor(handle) && !old(self).amap().dom().contains(
                            handle,
                        )
                    })
                },
            }),
    {
        if handle == 0 || handle == 1 {
            return Err(Oops::CannotRemoveAnchor(handle));
        }
        proof {
            lemma_pairs_map_dom(self@, handle);
        }
        match self.find(handle) {
            None => Err(Oops::NonexistentAnchor(handle)),
            Some(i) => {
                let prev = self.store[i].1;
                proof {
                    lemma_pairs_map_index(self@, i as int);
                    lemma_pairs_map_remove(self@, i as int);
                }
                self.store.remove(i);
                proof {
                    assert(self@ =~= old(self)@.remove(i as int));
                    assert(distinct_keys(self@)) by {
                        assert(forall|a: int, b: int|
                            0 <= a < b < self@.len() ==> self@[a].0 != self@[b].0) by {
                            assert(forall|a: int|
                                0 <= a < self@.len() ==> #[trigger] self@[a] == (if a < i {
                                    old(self)@[a]
                                } else {
                                    old(self)@[a + 1]
                                }));
                        }
                    }
                    assert(has_key(self@, 0)) by {
                        let k = choose|k: int| 0 <= k < old(self)@.len() && old(self)@[k].0 == 0;
                        if k < i {
                            assert(self@[k].0 == 0);
                        } else {
                            assert(self@[k - 1].0 == 0);
                        }
                    }
                    assert(has_key(self@, 1)) by {
                        let k = choose|k: int| 0 <= k < old(self)@.len() && old(self)@[k].0 == 1;
                        if k < i {
                            assert(self@[k].0 == 1);
                        } else {
                            assert(self@[k - 1].0 == 1);
                        }
                    }
                    assert(forall|j: int|
                        0 <= j < self@.len() ==> (#[trigger] self@[j]).0 < self.next_id);
                }
                Ok(prev)
            },
        }
    }

    /// Generates a new, unused handle, incrementing the internal counter so
    /// that it stays unique.
    pub fn get_new_handle(&mut self) -> (r: AnchorHandle)
        requires
            old(self).wf(),
            old(self).spec_next_id() < AnchorHandle::MAX,
        ensures
            final(self).wf(),
            r == old(self).spec_next_id(),
            !old(self).amap().dom().contains(r),
            final(self)@ == old(self)@,
            final(self).spec_next_id() == old(self).spec_next_id() + 1,
    {
        proof {
            lemma_pairs_map_dom(self@, self.next_id);
        }
        let id = self.next_id;
        self.next_id = self.next_id + 1;
        id
    }
}

} // verus!
