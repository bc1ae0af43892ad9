//! The skeleton of a composition: its fragments of rows and its part heads.

use vstd::prelude::*;
use crate::derived_state::{same_label, views, ExpandedRow};
use crate::music::music_parts;
use crate::row::{perm_mul, Row};
use crate::stage::Stage;

verus! {

/// One row of the skeleton, with its labels.
#[derive(Clone, Debug)]
pub struct SkeletonRow {
    pub row: Row,
    pub call_str: Option<String>,
    pub method_str: Option<String>,
    pub is_lead_end: bool,
    /// Whether this row takes part in proving (a fragment's leftover row does not).
    pub is_proved: bool,
}

/// A fragment: a block of skeleton rows whose last row is left over.
#[derive(Clone, Debug)]
pub struct Frag {
    pub rows: Vec<SkeletonRow>,
    pub is_muted: bool,
}

/// The skeleton of a composition.
#[derive(Clone, Debug)]
pub struct CompSpec {
    pub stage: Stage,
    pub frags: Vec<Frag>,
    pub part_heads: Vec<Row>,
}

/// A copy of an optional label.
fn copy_label(s: &Option<String>) -> (r: Option<String>)
    ensures
        same_label(r, *s),
{
    match s {
        Some(t) => Some(t.clone()),
        None => None,
    }
}

/// The number of proved rows among the first `k` rows of a fragment.
pub open spec fn proved_skeleton_rows(rows: Seq<SkeletonRow>, k: nat) -> nat
    decreases k,
{
    if k == 0 || k > rows.len() {
        0
    } else {
        proved_skeleton_rows(rows, (k - 1) as nat) + if rows[k - 1].is_proved {
            1nat
        } else {
            0nat
        }
    }
}

/// The number of proved rows in the first `k` fragments.
pub open spec fn proved_frag_rows(frags: Seq<Frag>, k: nat) -> nat
    decreases k,
{
    if k == 0 || k > frags.len() {
        0
    } else {
        proved_frag_rows(frags, (k - 1) as nat) + proved_skeleton_rows(
            frags[k - 1].rows@,
            frags[k - 1].rows@.len(),
        )
    }
}

/// Two skeleton rows hold the same row, labels and flags.
pub open spec fn same_row(a: SkeletonRow, b: SkeletonRow) -> bool {
    &&& a.row@ == b.row@
    &&& same_label(a.call_str, b.call_str)
    &&& same_label(a.method_str, b.method_str)
    &&& a.is_lead_end == b.is_lead_end
    &&& a.is_proved == b.is_proved
}

/// Two skeletons hold the same stage, fragments and part heads.
pub open spec fn same_skeleton(a: CompSpec, b: CompSpec) -> bool {
    &&& a.stage == b.stage
    &&& a.frags@.len() == b.frags@.len()
    &&& forall|f: int|
        0 <= f < a.frags@.len() ==> (#[trigger] a.frags@[f]).is_muted == b.frags@[f].is_muted
            && a.frags@[f].rows@.len() == b.frags@[f].rows@.len()
    &&& forall|f: int, r: int|
        0 <= f < a.frags@.len() && 0 <= r < a.frags@[f].rows@.len() ==> same_row(
            #[trigger] a.frags@[f].rows@[r],
            b.frags@[f].rows@[r],
        )
    &&& a.part_heads@.len() == b.part_heads@.len()
    &&& forall|p: int| 0 <= p < a.part_heads@.len() ==> (#[trigger] a.part_heads@[p])@ == b.part_heads@[p]@
}

proof fn lemma_same_proved_rows(a: Seq<SkeletonRow>, b: Seq<SkeletonRow>, k: nat)
    requires
        a.len() == b.len(),
        forall|r: int| 0 <= r < a.len() ==> same_row(#[trigger] a[r], b[r]),
    ensures
        proved_skeleton_rows(a, k) == proved_skeleton_rows(b, k),
    decreases k,
{
    if k > 0 && k <= a.len() {
        lemma_same_proved_rows(a, b, (k - 1) as nat);
        assert(same_row(a[k - 1], b[k - 1]));
    }
}

proof fn lemma_same_proved_frag_rows(a: CompSpec, b: CompSpec, k: nat)
    requires
        same_skeleton(a, b),
    ensures
        proved_frag_rows(a.frags@, k) == proved_frag_rows(b.frags@, k),
    decreases k,
{
    if k > 0 && k <= a.frags@.len() {
        lemma_same_proved_frag_rows(a, b, (k - 1) as nat);
        let f = k - 1;
        assert(a.frags@[f].rows@.len() == b.frags@[f].rows@.len());
        assert forall|r: int| 0 <= r < a.frags@[f].rows@.len() implies same_row(
            #[trigger] a.frags@[f].rows@[r],
            b.frags@[f].rows@[r],
        ) by {}
        lemma_same_proved_rows(a.frags@[f].rows@, b.frags@[f].rows@, a.frags@[f].rows@.len());
    }
}

/// A skeleton that holds the same as a valid skeleton is valid.
pub proof fn lemma_same_skeleton_wf(a: CompSpec, b: CompSpec)
    requires
        same_skeleton(a, b),
        b.wf(),
    ensures
        a.wf(),
{
    lemma_same_proved_frag_rows(a, b, a.frags@.len());
    assert forall|f: int| 0 <= f < a.frags@.len() implies (#[trigger] a.frags@[f]).rows@.len() >= 1
        && !a.frags@[f].rows@.last().is_proved by {
        let n = a.frags@[f].rows@.len();
        assert(same_row(a.frags@[f].rows@[n - 1], b.frags@[f].rows@[n - 1]));
    }
    assert forall|p: int| 0 <= p < a.part_heads@.len() implies (#[trigger] a.part_heads@[p]).wf()
        && a.part_heads@[p]@.len() == a.stage.num_bells by {
        assert(b.part_heads@[p].wf());
    }
    assert forall|f: int, r: int|
        0 <= f < a.frags@.len() && 0 <= r < a.frags@[f].rows@.len() implies (
        #[trigger] a.frags@[f].rows@[r]).row.wf() && a.frags@[f].rows@[r].row@.len()
            == a.stage.num_bells by {
        assert(same_row(a.frags@[f].rows@[r], b.frags@[f].rows@[r]));
        assert(b.frags@[f].rows@[r].row.wf());
    }
}

impl CompSpec {
    /// A copy of this skeleton.
    pub fn copied(&self) -> (r: CompSpec)
        ensures
            same_skeleton(r, *self),
    {
        let mut frags: Vec<Frag> = Vec::new();
        let mut f: usize = 0;
        while f < self.frags.len()
            invariant
                f <= self.frags@.len(),
                frags@.len() == f,
                forall|g: int|
                    0 <= g < f ==> (#[trigger] frags@[g]).is_muted == self.frags@[g].is_muted
                        && frags@[g].rows@.len() == self.frags@[g].rows@.len(),
                forall|g: int, r: int|
                    0 <= g < f && 0 <= r < frags@[g].rows@.len() ==> same_row(
                        #[trigger] frags@[g].rows@[r],
                        self.frags@[g].rows@[r],
                    ),
            decreases self.frags@.len() - f,
        {
            let frag = &self.frags[f];
            let mut rows: Vec<SkeletonRow> = Vec::new();
            let mut r: usize = 0;
            while r < frag.rows.len()
                invariant
                    r <= frag.rows@.len(),
                    rows@.len() == r,
                    forall|k: int| 0 <= k < r ==> same_row(#[trigger] rows@[k], frag.rows@[k]),
                decreases frag.rows@.len() - r,
            {
                let s = &frag.rows[r];
                rows.push(SkeletonRow {
                    row: s.row.copied(),
                    call_str: copy_label(&s.call_str),
                    method_str: copy_label(&s.method_str),
                    is_lead_end: s.is_lead_end,
                    is_proved: s.is_proved,
                });
                r += 1;
            }
            frags.push(Frag { rows, is_muted: frag.is_muted });
            f += 1;
        }
        let mut part_heads: Vec<Row> = Vec::new();
        let mut p: usize = 0;
        while p < self.part_heads.len()
            invariant
                p <= self.part_heads@.len(),
                part_heads@.len() == p,
                forall|q: int| 0 <= q < p ==> (#[trigger] part_heads@[q])@ == self.part_heads@[q]@,
            decreases self.part_heads@.len() - p,
        {
            part_heads.push(self.part_heads[p].copied());
            p += 1;
        }
        CompSpec { stage: self.stage, frags, part_heads }
    }

    /// Every row is valid and of the composition's stage, there is at least one part head,
    /// every fragment has rows, the last of which is not proved, and the number of proved rows
    /// fits in a `usize`.
    pub open spec fn wf(&self) -> bool {
        &&& self.part_heads@.len() >= 1
        &&& proved_frag_rows(self.frags@, self.frags@.len()) <= usize::MAX
        &&& forall|p: int|
            0 <= p < self.part_heads@.len() ==> (#[trigger] self.part_heads@[p]).wf()
                && self.part_heads@[p]@.len() == self.stage.num_bells
        &&& forall|f: int|
            0 <= f < self.frags@.len() ==> (#[trigger] self.frags@[f]).rows@.len() >= 1
                && !self.frags@[f].rows@.last().is_proved
        &&& forall|f: int, r: int|
            0 <= f < self.frags@.len() && 0 <= r < self.frags@[f].rows@.len() ==> (
            #[trigger] self.frags@[f].rows@[r]).row.wf() && self.frags@[f].rows@[r].row@.len()
                == self.stage.num_bells
    }

    /// The stage of the composition.
    pub fn stage(&self) -> (r: Stage)
        ensures
            r == self.stage,
    {
        self.stage
    }

    /// Whether fragment `i` is muted, or `None` where there is no such fragment.
    pub fn is_frag_muted(&self, i: usize) -> (r: Option<bool>)
        ensures
            i < self.frags@.len() ==> r == Some(self.frags@[i as int].is_muted),
            i >= self.frags@.len() ==> r is None,
    {
        if i < self.frags.len() {
            Some(self.frags[i].is_muted)
        } else {
            None
        }
    }

    /// Realises every skeleton row in every part: row `r` of fragment `f` in part `p` is
    /// `part_heads[p] * row`.  Also returns a copy of the part heads.
    pub fn expand(&self) -> (res: (Vec<Vec<ExpandedRow>>, Vec<Row>))
        requires
            self.wf(),
        ensures
            res.0@.len() == self.frags@.len(),
            forall|f: int|
                0 <= f < res.0@.len() ==> (#[trigger] res.0@[f])@.len() == self.frags@[f].rows@.len(),
            forall|f: int, r: int|
                0 <= f < res.0@.len() && 0 <= r < res.0@[f]@.len() ==> {
                    let e = #[trigger] res.0@[f]@[r];
                    let s = self.frags@[f].rows@[r];
                    &&& e.is_proved == s.is_proved
                    &&& e.is_lead_end == s.is_lead_end
                    &&& same_label(e.call_str, s.call_str)
                    &&& same_label(e.method_str, s.method_str)
                    &&& e.rows@.len() == self.part_heads@.len()
                    &&& forall|p: int|
                        0 <= p < e.rows@.len() ==> (#[trigger] e.rows@[p])@ == perm_mul(
                            self.part_heads@[p]@,
                            s.row@,
                        ) && e.rows@[p].wf()
                    &&& e.music_highlights@.len() == s.row@.len()
                    &&& forall|pos: int|
                        0 <= pos < e.music_highlights@.len() ==> (#[trigger] e.music_highlights@[pos])@
                            == music_parts(views(e.rows@), s.row@.len(), pos, e.rows@.len())
                },
            res.1@.len() == self.part_heads@.len(),
            forall|p: int|
                0 <= p < res.1@.len() ==> (#[trigger] res.1@[p])@ == self.part_heads@[p]@,
    {
        let mut gen: Vec<Vec<ExpandedRow>> = Vec::new();
        let mut f: usize = 0;
        while f < self.frags.len()
            invariant
                self.wf(),
                f <= self.frags@.len(),
                gen@.len() == f,
                forall|g: int| 0 <= g < f ==> (#[trigger] gen@[g])@.len() == self.frags@[g].rows@.len(),
                forall|g: int, r: int|
                    0 <= g < f && 0 <= r < gen@[g]@.len() ==> {
                        let e = #[trigger] gen@[g]@[r];
                        let s = self.frags@[g].rows@[r];
                        &&& e.is_proved == s.is_proved
                        &&& e.is_lead_end == s.is_lead_end
                        &&& same_label(e.call_str, s.call_str)
                        &&& same_label(e.method_str, s.method_str)
                        &&& e.rows@.len() == self.part_heads@.len()
                        &&& e.music_highlights@.len() == s.row@.len()
                        &&& forall|pos: int|
                            0 <= pos < e.music_highlights@.len() ==> (#[trigger] e.music_highlights@[pos])@
                                == music_parts(views(e.rows@), s.row@.len(), pos, e.rows@.len())
                        &&& forall|p: int|
                            0 <= p < e.rows@.len() ==> (#[trigger] e.rows@[p])@ == perm_mul(
                                self.part_heads@[p]@,
                                s.row@,
                            ) && e.rows@[p].wf()
                    },
            decreases self.frags@.len() - f,
        {
            let frag = &self.frags[f];
            let mut exp: Vec<ExpandedRow> = Vec::new();
            let mut r: usize = 0;
            while r < frag.rows.len()
                invariant
                    self.wf(),
                    f < self.frags@.len(),
                    *frag == self.frags@[f as int],
                    r <= frag.rows@.len(),
                    exp@.len() == r,
                    forall|k: int|
                        0 <= k < r ==> {
                            let e = #[trigger] exp@[k];
                            let s = frag.rows@[k];
                            &&& e.is_proved == s.is_proved
                            &&& e.is_lead_end == s.is_lead_end
                            &&& same_label(e.call_str, s.call_str)
                            &&& same_label(e.method_str, s.method_str)
                            &&& e.rows@.len() == self.part_heads@.len()
                            &&& e.music_highlights@.len() == s.row@.len()
                            &&& forall|pos: int|
                                0 <= pos < e.music_highlights@.len() ==> (#[trigger] e.music_highlights@[pos])@
                                    == music_parts(views(e.rows@), s.row@.len(), pos, e.rows@.len())
                            &&& forall|p: int|
                                0 <= p < e.rows@.len() ==> (#[trigger] e.rows@[p])@ == perm_mul(
                                    self.part_heads@[p]@,
                                    s.row@,
                                ) && e.rows@[p].wf()
                        },
                decreases frag.rows@.len() - r,
            {
                let s = &frag.rows[r];
                assert(s.row.wf() && s.row@.len() == self.stage.num_bells);
                let e = ExpandedRow::new(
                    &s.row,
                    copy_label(&s.call_str),
                    copy_label(&s.method_str),
                    s.is_lead_end,
                    &self.part_heads,
                    s.is_proved,
                );
                exp.push(e);
                r += 1;
            }
            gen.push(exp);
            f += 1;
        }
        let mut heads: Vec<Row> = Vec::new();
        let mut p: usize = 0;
        while p < self.part_heads.len()
            invariant
                p <= self.part_heads@.len(),
                heads@.len() == p,
                forall|q: int| 0 <= q < p ==> (#[trigger] heads@[q])@ == self.part_heads@[q]@,
            decreases self.part_heads@.len() - p,
        {
            heads.push(self.part_heads[p].copied());
            p += 1;
        }
        (gen, heads)
    }
}

} // verus!
