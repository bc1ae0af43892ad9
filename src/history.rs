//! The undo history of a composition.

use vstd::prelude::*;
use crate::comp_spec::{lemma_same_skeleton_wf, same_skeleton, CompSpec};
use crate::derived_state::{derived_from, DerivedState};

verus! {

/// The recent skeletons of a composition, oldest first, with a pointer to the one being
/// shown.  Undo and redo move the pointer.
pub struct History {
    history: Vec<CompSpec>,
    current_undo_index: usize,
    full_comp: DerivedState,
}

impl History {
    /// The number of skeletons held.
    pub closed spec fn num_steps(&self) -> nat {
        self.history@.len()
    }

    /// The index of the skeleton being shown.
    pub closed spec fn current(&self) -> nat {
        self.current_undo_index as nat
    }

    /// The skeleton at step `i`.
    pub closed spec fn step(&self, i: int) -> CompSpec {
        self.history@[i]
    }

    /// What was derived from the first skeleton.
    pub closed spec fn derived(&self) -> DerivedState {
        self.full_comp
    }

    /// At least one skeleton is held, the pointer is in range, and every skeleton is valid.
    pub closed spec fn wf(&self) -> bool {
        &&& self.history@.len() >= 1
        &&& self.current_undo_index < self.history@.len()
        &&& forall|i: int| 0 <= i < self.history@.len() ==> (#[trigger] self.history@[i]).wf()
    }

    /// A well-formed history holds at least one step, shows one of them, and every step is a
    /// valid skeleton.
    pub proof fn lemma_wf(&self)
        requires
            self.wf(),
        ensures
            self.num_steps() >= 1,
            self.current() < self.num_steps(),
            forall|i: int| 0 <= i < self.num_steps() ==> (#[trigger] self.step(i)).wf(),
    {
    }

    /// A history holding only `spec`.
    pub fn new(spec: CompSpec) -> (r: History)
        requires
            spec.wf(),
        ensures
            r.wf(),
            r.num_steps() == 1,
            r.current() == 0,
            r.step(0) == spec,
            derived_from(r.derived(), spec),
    {
        let full_comp = DerivedState::from_spec(&spec);
        let mut history: Vec<CompSpec> = Vec::new();
        history.push(spec);
        History { history, current_undo_index: 0, full_comp }
    }

    /// Moves one step back.  Returns `false`, changing nothing, at the oldest step.
    pub fn undo(&mut self) -> (r: bool)
        requires
            old(self).wf(),
        ensures
            final(self).wf(),
            r == (old(self).current() > 0),
            final(self).current() == if r {
                old(self).current() - 1
            } else {
                old(self).current() as int
            },
            final(self).num_steps() == old(self).num_steps(),
            forall|i: int| 0 <= i < old(self).num_steps() ==> final(self).step(i) == old(self).step(i),
            final(self).derived() == old(self).derived(),
    {
        if self.current_undo_index == 0 {
            false
        } else {
            self.current_undo_index -= 1;
            true
        }
    }

    /// Moves one step forward.  Returns `false`, changing nothing, at the newest step.
    pub fn redo(&mut self) -> (r: bool)
        requires
            old(self).wf(),
        ensures
            final(self).wf(),
            r == (old(self).current() + 1 < old(self).num_steps()),
            final(self).current() == if r {
                (old(self).current() + 1) as int
            } else {
                old(self).current() as int
            },
            final(self).num_steps() == old(self).num_steps(),
            forall|i: int| 0 <= i < old(self).num_steps() ==> final(self).step(i) == old(self).step(i),
            final(self).derived() == old(self).derived(),
    {
        if self.current_undo_index == self.history.len() - 1 {
            false
        } else {
            self.current_undo_index += 1;
            true
        }
    }

    /// Applies `edit` to a copy of the skeleton being shown and makes the result the newest
    /// step, after the one being shown, dropping the steps that could have been redone; shows
    /// it and returns what `edit` returned.  `edit` must turn valid skeletons into valid ones.
    pub fn apply_edit<R, F: FnOnce(&mut CompSpec) -> R>(&mut self, edit: F) -> (r: R)
        requires
            old(self).wf(),
            forall|y: &mut CompSpec| (*y).wf() ==> edit.requires((y,)),
            forall|y: &mut CompSpec, res: R|
                (*y).wf() && #[trigger] edit.ensures((y,), res) ==> (*final(y)).wf(),
        ensures
            final(self).wf(),
            final(self).num_steps() == old(self).current() + 2,
            final(self).current() == old(self).current() + 1,
            exists|y: &mut CompSpec|
                same_skeleton(*y, old(self).step(old(self).current() as int)) && #[trigger] edit.ensures(
                    (y,),
                    r,
                ) && final(self).step(final(self).current() as int) == *final(y),
            forall|i: int| 0 <= i <= old(self).current() ==> final(self).step(i) == old(self).step(i),
            final(self).derived() == old(self).derived(),
    {
        let mut spec = self.history[self.current_undo_index].copied();
        proof {
            lemma_same_skeleton_wf(spec, self.history@[self.current_undo_index as int]);
        }
        let r = edit(&mut spec);
        let len = self.history.len();
        assert(self.current_undo_index < len);
        self.history.truncate(self.current_undo_index + 1);
        self.history.push(spec);
        self.current_undo_index += 1;
        r
    }

    /// The skeleton being shown.
    pub fn comp_spec(&self) -> (r: &CompSpec)
        requires
            self.wf(),
        ensures
            *r == self.step(self.current() as int),
            r.wf(),
    {
        &self.history[self.current_undo_index]
    }

    /// What was derived from the first skeleton.
    pub fn full_comp(&self) -> (r: &DerivedState)
        ensures
            *r == self.derived(),
    {
        &self.full_comp
    }
}

} // verus!
