//! The model of a composition being edited: its undo history, the music it looks for, and
//! what is derived from the skeleton being shown.

use vstd::prelude::*;
use crate::comp_spec::{same_skeleton, CompSpec};
use crate::derived_state::{derived_from, DerivedState};
use crate::history::History;

verus! {

/// A kind of music that bellframe recognises in rows.
#[verifier::external_type_specification]
#[verifier::external_body]
pub struct ExMusicType(bellframe::music::MusicType);

/// A class of music to look for: a named pattern, or a named group of classes.
pub enum Music {
    Regex(Option<String>, bellframe::music::MusicType),
    Group(String, Vec<Music>),
}

/// The composition being edited.
pub struct State {
    history: History,
    music_groups: Vec<Music>,
    full_state: DerivedState,
}

impl State {
    /// The history is well formed, and the derived state is derived from the step shown.
    pub closed spec fn wf(&self) -> bool {
        &&& self.history.wf()
        &&& derived_from(self.full_state, self.history.step(self.history.current() as int))
    }

    /// What is derived is derived from the skeleton shown.
    pub open spec fn shows_current(&self) -> bool {
        derived_from(self.full_spec(), self.history_spec().step(self.history_spec().current() as int))
    }

    /// A well-formed state has a well-formed history and shows what is derived from the step
    /// it is on.
    pub proof fn lemma_wf(&self)
        requires
            self.wf(),
        ensures
            self.history_spec().wf(),
            self.shows_current(),
    {
    }

    /// The undo history.
    pub closed spec fn history_spec(&self) -> History {
        self.history
    }

    /// What is derived from the skeleton being shown.
    pub closed spec fn full_spec(&self) -> DerivedState {
        self.full_state
    }

    /// The music classes.
    pub closed spec fn music_spec(&self) -> Seq<Music> {
        self.music_groups@
    }

    /// A state showing `spec`, with no other undo history.
    pub fn new(spec: CompSpec, music_classes: Vec<Music>) -> (r: State)
        requires
            spec.wf(),
        ensures
            r.wf(),
            r.history_spec().num_steps() == 1,
            r.history_spec().current() == 0,
            r.history_spec().step(0) == spec,
            r.music_spec() == music_classes@,
            derived_from(r.full_spec(), spec),
    {
        let full_state = DerivedState::from_spec(&spec);
        let history = History::new(spec);
        State { history, music_groups: music_classes, full_state }
    }

    /// Moves one step back through the history and derives the skeleton shown there.
    /// Returns `false`, changing nothing, at the oldest step.
    pub fn undo(&mut self) -> (r: bool)
        requires
            old(self).wf(),
        ensures
            final(self).wf(),
            r == (old(self).history_spec().current() > 0),
            final(self).history_spec().current() == if r {
                old(self).history_spec().current() - 1
            } else {
                old(self).history_spec().current() as int
            },
            final(self).music_spec() == old(self).music_spec(),
            final(self).shows_current(),
            final(self).history_spec().num_steps() == old(self).history_spec().num_steps(),
            forall|i: int|
                0 <= i < old(self).history_spec().num_steps() ==> final(self).history_spec().step(i)
                    == old(self).history_spec().step(i),
            !r ==> final(self).full_spec() == old(self).full_spec(),
    {
        proof {
            self.history.lemma_wf();
        }
        let was_undo_possible = self.history.undo();
        proof {
            self.history.lemma_wf();
        }
        if was_undo_possible {
            self.rebuild_full_state();
        }
        was_undo_possible
    }

    /// Moves one step forward through the history and derives the skeleton shown there.
    /// Returns `false`, changing nothing, at the newest step.
    pub fn redo(&mut self) -> (r: bool)
        requires
            old(self).wf(),
        ensures
            final(self).wf(),
            r == (old(self).history_spec().current() + 1 < old(self).history_spec().num_steps()),
            final(self).history_spec().current() == if r {
                (old(self).history_spec().current() + 1) as int
            } else {
                old(self).history_spec().current() as int
            },
            final(self).music_spec() == old(self).music_spec(),
            final(self).shows_current(),
            final(self).history_spec().num_steps() == old(self).history_spec().num_steps(),
            forall|i: int|
                0 <= i < old(self).history_spec().num_steps() ==> final(self).history_spec().step(i)
                    == old(self).history_spec().step(i),
            !r ==> final(self).full_spec() == old(self).full_spec(),
    {
        proof {
            self.history.lemma_wf();
        }
        let was_redo_possible = self.history.redo();
        proof {
            self.history.lemma_wf();
        }
        if was_redo_possible {
            self.rebuild_full_state();
        }
        was_redo_possible
    }

    /// Applies `edit` to a copy of the skeleton shown, makes the result a new step of the
    /// history after the one shown, derives it, and returns what `edit` returned.  `edit` must
    /// turn valid skeletons into valid ones.
    pub fn apply_edit<R, F: FnOnce(&mut CompSpec) -> R>(&mut self, edit: F) -> (r: R)
        requires
            old(self).wf(),
            forall|y: &mut CompSpec| (*y).wf() ==> edit.requires((y,)),
            forall|y: &mut CompSpec, res: R|
                (*y).wf() && #[trigger] edit.ensures((y,), res) ==> (*final(y)).wf(),
        ensures
            final(self).wf(),
            final(self).history_spec().current() == old(self).history_spec().current() + 1,
            exists|y: &mut CompSpec|
                same_skeleton(*y, old(self).history_spec().step(old(self).history_spec().current() as int))
                    && #[trigger] edit.ensures((y,), r) && final(self).history_spec().step(
                    final(self).history_spec().current() as int,
                ) == *final(y),
            final(self).music_spec() == old(self).music_spec(),
            final(self).shows_current(),
    {
        let r = self.history.apply_edit(edit);
        self.rebuild_full_state();
        r
    }

    /// Derives again the skeleton being shown.
    pub fn rebuild_full_state(&mut self)
        requires
            old(self).history_spec().wf(),
        ensures
            final(self).wf(),
            final(self).history_spec() == old(self).history_spec(),
            final(self).music_spec() == old(self).music_spec(),
            derived_from(
                final(self).full_spec(),
                old(self).history_spec().step(old(self).history_spec().current() as int),
            ),
    {
        self.full_state = DerivedState::from_spec(self.history.comp_spec());
    }

    /// What is derived from the skeleton being shown.
    pub fn full(&self) -> (r: &DerivedState)
        ensures
            *r == self.full_spec(),
    {
        &self.full_state
    }

    /// The music classes.
    pub fn music_groups(&self) -> (r: &[Music])
        ensures
            r@ == self.music_spec(),
    {
        self.music_groups.as_slice()
    }
}

} // verus!
