//! Undo and redo: two stacks of snapshots, the undo stack holding at most
//! `MAX_UNDO` of them.
use vstd::prelude::*;
use crate::profile::{needs_rebuild, rebuild_needed};

verus! {

/// The most snapshots the undo stack keeps; pushing more drops the oldest.
pub const MAX_UNDO: usize = 20;

/// Snapshots to undo to (oldest first) and to redo to (most recent undo last),
/// and whether the project has changed since it was last saved.
pub struct History<S> {
    undo_stack: Vec<S>,
    redo_stack: Vec<S>,
    dirty: bool,
}

/// The stacks after recording `s`: `s` on top of the undo stack, the oldest
/// snapshot dropped beyond `MAX_UNDO`, and the redo stack emptied.
pub open spec fn pushed<S>(h: (Seq<S>, Seq<S>), s: S) -> (Seq<S>, Seq<S>) {
    let u = h.0.push(s);
    (if u.len() > MAX_UNDO {
        u.skip(1)
    } else {
        u
    }, Seq::empty())
}

/// Undo with the present state `cur`: the top of the undo stack is
/// returned and `cur` goes onto the redo stack; nothing happens on an
/// empty undo stack.
pub open spec fn undone<S>(h: (Seq<S>, Seq<S>), cur: S) -> ((Seq<S>, Seq<S>), Option<S>) {
    if h.0.len() == 0 {
        (h, None)
    } else {
        ((h.0.drop_last(), h.1.push(cur)), Some(h.0.last()))
    }
}

/// Redo with the present state `cur`: the top of the redo stack is
/// returned and `cur` goes back onto the undo stack; nothing happens on an
/// empty redo stack.
pub open spec fn redone<S>(h: (Seq<S>, Seq<S>), cur: S) -> ((Seq<S>, Seq<S>), Option<S>) {
    if h.1.len() == 0 {
        (h, None)
    } else {
        ((h.0.push(cur), h.1.drop_last()), Some(h.1.last()))
    }
}

impl<S> View for History<S> {
    type V = (Seq<S>, Seq<S>);

    closed spec fn view(&self) -> (Seq<S>, Seq<S>) {
        (self.undo_stack@, self.redo_stack@)
    }
}

impl<S> History<S> {
    /// The project has changed since it was last saved: an edit was
    /// recorded, or a snapshot restored.
    pub closed spec fn changed(&self) -> bool {
        self.dirty
    }

    /// At most `MAX_UNDO` snapshots on both stacks together (undo and redo
    /// only move snapshots between them; recording empties the redo stack).
    pub open spec fn wf(&self) -> bool {
        self@.0.len() + self@.1.len() <= MAX_UNDO
    }

    /// Empty stacks, nothing changed.
    pub fn new() -> (h: History<S>)
        ensures
            h.wf(),
            h@.0.len() == 0,
            h@.1.len() == 0,
            !h.changed(),
    {
        History { undo_stack: Vec::new(), redo_stack: Vec::new(), dirty: false }
    }

    /// Whether the project has changed since it was last saved.
    pub fn is_dirty(&self) -> (b: bool)
        ensures
            b == self.changed(),
    {
        self.dirty
    }

    /// The project was saved: nothing has changed since.
    pub fn mark_saved(&mut self)
        ensures
            final(self)@ == old(self)@,
            !final(self).changed(),
    {
        self.dirty = false;
    }

    /// Records `snap`, the state before an edit (see `pushed`); the project
    /// has changed.
    pub fn push_undo(&mut self, snap: S)
        requires
            old(self).wf(),
        ensures
            final(self).wf(),
            final(self)@ == pushed(old(self)@, snap),
            final(self).changed(),
    {
        self.dirty = true;
        self.undo_stack.push(snap);
        if self.undo_stack.len() > MAX_UNDO {
            let _ = self.undo_stack.remove(0);
        }
        self.redo_stack.clear();
        proof {
            let u = old(self)@.0.push(snap);
            if u.len() > MAX_UNDO {
                assert(self.undo_stack@ =~= u.skip(1));
            }
        }
    }

    /// Undo (see `undone`): the snapshot to restore, if any; restoring one
    /// changes the project.
    pub fn undo(&mut self, current: S) -> (r: Option<S>)
        requires
            old(self).wf(),
        ensures
            final(self).wf(),
            (final(self)@, r) == undone(old(self)@, current),
            final(self).changed() == (old(self).changed() || r is Some),
    {
        match self.undo_stack.pop() {
            Some(snap) => {
                self.dirty = true;
                self.redo_stack.push(current);
                Some(snap)
            },
            None => None,
        }
    }

    /// Redo (see `redone`): the snapshot to restore, if any; restoring one
    /// changes the project.
    pub fn redo(&mut self, current: S) -> (r: Option<S>)
        requires
            old(self).wf(),
        ensures
            final(self).wf(),
            (final(self)@, r) == redone(old(self)@, current),
            final(self).changed() == (old(self).changed() || r is Some),
    {
        match self.redo_stack.pop() {
            Some(snap) => {
                self.dirty = true;
                self.undo_stack.push(current);
                Some(snap)
            },
            None => None,
        }
    }

    /// Whether there is anything to undo.
    pub fn can_undo(&self) -> (b: bool)
        ensures
            b == (self@.0.len() > 0),
    {
        self.undo_stack.len() > 0
    }

    /// Whether there is anything to redo.
    pub fn can_redo(&self) -> (b: bool)
        ensures
            b == (self@.1.len() > 0),
    {
        self.redo_stack.len() > 0
    }
}

/// A snapshot of the editor: the layer and part colours, which the balloon
/// images are drawn with, and the rest of the state.
pub struct Snapshot<T> {
    pub layer_colors: Vec<(String, [u8; 3])>,
    pub parts_colors: Vec<(String, [u8; 3])>,
    pub rest: T,
}

/// Restoring `snap` over `current` needs the balloon images rebuilt.
pub open spec fn snapshot_rebuild<T>(snap: Snapshot<T>, current: Snapshot<T>) -> bool {
    rebuild_needed(snap.layer_colors@, snap.parts_colors@, current.layer_colors@, current.parts_colors@)
}

impl<T> History<Snapshot<T>> {
    /// Undo (see `undo`), and whether the balloon images must be rebuilt:
    /// the restored snapshot's layer or part colours differ from the present ones.
    pub fn undo_colors(&mut self, current: Snapshot<T>) -> (r: (Option<Snapshot<T>>, bool))
        requires
            old(self).wf(),
        ensures
            final(self).wf(),
            (final(self)@, r.0) == undone(old(self)@, current),
            final(self).changed() == (old(self).changed() || r.0 is Some),
            r.1 == (r.0 is Some && snapshot_rebuild(r.0->0, current)),
    {
        match self.undo_stack.pop() {
            Some(snap) => {
                let rebuild = needs_rebuild(
                    &snap.layer_colors,
                    &snap.parts_colors,
                    &current.layer_colors,
                    &current.parts_colors,
                );
                self.dirty = true;
                self.redo_stack.push(current);
                (Some(snap), rebuild)
            },
            None => (None, false),
        }
    }

    /// Redo (see `redo`), and whether the balloon images must be rebuilt:
    /// the restored snapshot's layer or part colours differ from the present ones.
    pub fn redo_colors(&mut self, current: Snapshot<T>) -> (r: (Option<Snapshot<T>>, bool))
        requires
            old(self).wf(),
        ensures
            final(self).wf(),
            (final(self)@, r.0) == redone(old(self)@, current),
            final(self).changed() == (old(self).changed() || r.0 is Some),
            r.1 == (r.0 is Some && snapshot_rebuild(r.0->0, current)),
    {
        match self.redo_stack.pop() {
            Some(snap) => {
                let rebuild = needs_rebuild(
                    &snap.layer_colors,
                    &snap.parts_colors,
                    &current.layer_colors,
                    &current.parts_colors,
                );
                self.dirty = true;
                self.undo_stack.push(current);
                (Some(snap), rebuild)
            },
            None => (None, false),
        }
    }
}

/// Undoing and then redoing with what the undo returned gives back the
/// present state and leaves both stacks as they were.
pub proof fn law_redo_undoes_undo<S>(h: (Seq<S>, Seq<S>), cur: S)
    requires
        h.0.len() > 0,
    ensures
        ({
            let (h1, r1) = undone(h, cur);
            let (h2, r2) = redone(h1, r1->0);
            r2 == Some(cur) && h2 == h
        }),
{
    let (h1, r1) = undone(h, cur);
    assert(h1.1.push(cur).drop_last() =~= h1.1) by {
    }
    assert(h.0.drop_last().push(h.0.last()) =~= h.0);
    assert(h.1.push(cur).drop_last() =~= h.1);
}

/// Redoing and then undoing with what the redo returned gives back the
/// present state and leaves both stacks as they were.
pub proof fn law_undo_undoes_redo<S>(h: (Seq<S>, Seq<S>), cur: S)
    requires
        h.1.len() > 0,
    ensures
        ({
            let (h1, r1) = redone(h, cur);
            let (h2, r2) = undone(h1, r1->0);
            r2 == Some(cur) && h2 == h
        }),
{
    assert(h.1.drop_last().push(h.1.last()) =~= h.1);
    assert(h.0.push(cur).drop_last() =~= h.0);
}

/// Undo right after recording `s` gives `s` back, and the present state
/// becomes the only thing to redo.
pub proof fn law_undo_after_push<S>(h: (Seq<S>, Seq<S>), s: S, cur: S)
    ensures
        ({
            let (h2, r) = undone(pushed(h, s), cur);
            r == Some(s) && h2.1 == seq![cur]
        }),
{
    let u = h.0.push(s);
    if u.len() > MAX_UNDO {
        assert(u.skip(1).last() == s);
    }
    assert(Seq::<S>::empty().push(cur) =~= seq![cur]);
}

/// Recording keeps at most `MAX_UNDO` snapshots and always leaves nothing to redo.
pub proof fn law_push_bounds<S>(h: (Seq<S>, Seq<S>), s: S)
    requires
        h.0.len() <= MAX_UNDO,
    ensures
        pushed(h, s).0.len() <= MAX_UNDO,
        pushed(h, s).1.len() == 0,
        pushed(h, s).0.last() == s,
{
}

} // verus!
