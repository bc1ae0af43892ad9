//! Everything derived from a composition: its rows in every part, which rows are false
//! against which, how its fragments link together, and where the music is.

use vstd::prelude::*;
use vstd::relations::{sorted_by, total_ordering};
use vstd::seq_lib::lemma_sorted_unique;
use crate::row::{Row, perm_mul};
use crate::music::{calculate_music, music_parts};
use crate::comp_spec::{proved_frag_rows, proved_skeleton_rows, CompSpec, Frag};
use crate::truth::{idx_sorted, in_range, lemma_run_is_group, lemma_sorted_distinct, locs_at, sorted_positions};

verus! {

/// Where one realised row comes from: its part, its fragment, and its row in the fragment.
#[derive(Clone, Copy, Debug, PartialEq, Eq, Structural, Hash)]
pub struct RowOrigin {
    /// The index of the part.
    pub part: usize,
    /// The index of the fragment.
    pub frag: usize,
    /// The index of the row within the fragment.
    pub row: usize,
}

impl RowOrigin {
    /// Creates a `RowOrigin` from its parts.
    pub fn new(part: usize, frag: usize, row: usize) -> (r: RowOrigin)
        ensures
            r == (RowOrigin { part, frag, row }),
    {
        RowOrigin { part, frag, row }
    }
}

/// Where a row comes from, leaving out the part.  Ordered by fragment, then by row.
#[derive(Clone, Copy, Debug, PartialEq, Eq, Structural, Ord, Hash)]
pub struct RowLocation {
    /// The index of the fragment.
    pub frag: usize,
    /// The index of the row within the fragment.
    pub row: usize,
}

impl RowLocation {
    /// Creates a `RowLocation` from its parts.
    pub fn new(frag: usize, row: usize) -> (r: RowLocation)
        ensures
            r == (RowLocation { frag, row }),
    {
        RowLocation { frag, row }
    }
}

/// How location `a` compares with `b`: by fragment, then by row.
pub open spec fn loc_cmp(a: RowLocation, b: RowLocation) -> std::cmp::Ordering {
    if a.frag < b.frag || (a.frag == b.frag && a.row < b.row) {
        std::cmp::Ordering::Less
    } else if a.frag == b.frag && a.row == b.row {
        std::cmp::Ordering::Equal
    } else {
        std::cmp::Ordering::Greater
    }
}

impl PartialOrd for RowLocation {
    fn partial_cmp(&self, other: &RowLocation) -> (r: Option<std::cmp::Ordering>) {
        if self.frag < other.frag || (self.frag == other.frag && self.row < other.row) {
            Some(std::cmp::Ordering::Less)
        } else if self.frag == other.frag && self.row == other.row {
            Some(std::cmp::Ordering::Equal)
        } else {
            Some(std::cmp::Ordering::Greater)
        }
    }
}

impl vstd::std_specs::cmp::PartialOrdSpecImpl for RowLocation {
    open spec fn obeys_partial_cmp_spec() -> bool {
        true
    }

    open spec fn partial_cmp_spec(&self, other: &RowLocation) -> Option<std::cmp::Ordering> {
        Some(loc_cmp(*self, *other))
    }
}

/// The location of a row origin: the origin without its part.
pub open spec fn loc_of(o: RowOrigin) -> RowLocation {
    RowLocation { frag: o.frag, row: o.row }
}

impl From<RowOrigin> for RowLocation {
    fn from(o: RowOrigin) -> (r: RowLocation) {
        RowLocation { frag: o.frag, row: o.row }
    }
}

impl vstd::std_specs::convert::FromSpecImpl<RowOrigin> for RowLocation {
    open spec fn obeys_from_spec() -> bool {
        true
    }

    open spec fn from_spec(o: RowOrigin) -> RowLocation {
        loc_of(o)
    }
}

/// An inclusive range `start..=end` of rows of one fragment that are all false in the same
/// way, tagged with the id of their falseness group.
#[derive(Clone, Copy, Debug, PartialEq, Eq, Structural)]
pub struct FalseRowRange {
    pub start: usize,
    pub end: usize,
    pub group: usize,
}

/// The link groups that touch the top and the bottom of a fragment, if any.
#[derive(Clone, Copy, Debug, PartialEq, Eq, Structural)]
pub struct FragLinkGroups {
    pub link_group_top: Option<usize>,
    pub link_group_bottom: Option<usize>,
}

/// Summary figures of a composition.
#[derive(Clone, Copy, Debug, PartialEq, Eq, Structural)]
pub struct DerivedStats {
    /// The number of proved rows in one part.
    pub part_len: usize,
    /// The number of realised rows that are false.
    pub num_false_rows: usize,
    /// The number of falseness groups shown.
    pub num_false_groups: usize,
}

/// Fragment `to` can follow fragment `from`; `group` colours the link.
#[derive(Clone, Copy, Debug, PartialEq, Eq, Structural, Hash)]
pub struct FragLink {
    pub from: usize,
    pub to: usize,
    pub group: usize,
}

/// The rows realised from one row of the skeleton, one per part.
#[derive(Clone, Debug)]
pub struct ExpandedRow {
    pub call_str: Option<String>,
    pub method_str: Option<String>,
    pub is_lead_end: bool,
    /// Whether this row takes part in proving.
    pub is_proved: bool,
    /// One row for each part.
    pub rows: Vec<Row>,
    /// For each place, the parts whose row has music covering that place.
    pub music_highlights: Vec<Vec<usize>>,
}

/// The views of some rows.
pub open spec fn views(rows: Seq<Row>) -> Seq<Seq<usize>> {
    rows.map_values(|r: Row| r@)
}

/// The realised rows of one skeleton row that is proved, with their origins.
pub open spec fn flat_parts(frag: nat, row: nat, rows: Seq<Row>) -> Seq<(RowOrigin, Seq<usize>)> {
    Seq::new(
        rows.len(),
        |p: int|
            (RowOrigin { part: p as usize, frag: frag as usize, row: row as usize }, rows[p]@),
    )
}

/// The proved realised rows of the first `k` rows of fragment `frag`, with their origins.
pub open spec fn flat_rows(frag: nat, exp: Seq<ExpandedRow>, k: nat) -> Seq<(RowOrigin, Seq<usize>)>
    decreases k,
{
    if k == 0 || k > exp.len() {
        Seq::empty()
    } else {
        let rest = flat_rows(frag, exp, (k - 1) as nat);
        let e = exp[k - 1];
        if e.is_proved {
            rest + flat_parts(frag, (k - 1) as nat, e.rows@)
        } else {
            rest
        }
    }
}

/// The proved realised rows of the first `k` fragments, with their origins, in order of
/// fragment, then row, then part.
pub open spec fn flat_frags(gen: Seq<Vec<ExpandedRow>>, k: nat) -> Seq<(RowOrigin, Seq<usize>)>
    decreases k,
{
    if k == 0 || k > gen.len() {
        Seq::empty()
    } else {
        flat_frags(gen, (k - 1) as nat) + flat_rows(
            (k - 1) as nat,
            gen[k - 1]@,
            gen[k - 1]@.len(),
        )
    }
}

/// The number of proved rows among the first `k` rows of a fragment.
pub open spec fn proved_in_frag(exp: Seq<ExpandedRow>, k: nat) -> nat
    decreases k,
{
    if k == 0 || k > exp.len() {
        0
    } else {
        proved_in_frag(exp, (k - 1) as nat) + if exp[k - 1].is_proved {
            1nat
        } else {
            0nat
        }
    }
}

/// The number of proved rows in the first `k` fragments.
pub open spec fn proved_count(gen: Seq<Vec<ExpandedRow>>, k: nat) -> nat
    decreases k,
{
    if k == 0 || k > gen.len() {
        0
    } else {
        proved_count(gen, (k - 1) as nat) + proved_in_frag(gen[k - 1]@, gen[k - 1]@.len())
    }
}

/// The views of flattened rows with their origins.
pub open spec fn flat_view(flat: Seq<(RowOrigin, Row)>) -> Seq<(RowOrigin, Seq<usize>)> {
    flat.map_values(|e: (RowOrigin, Row)| (e.0, e.1@))
}

/// The locations, in order, of the entries among the first `k` of `flat` whose row is `v`.
pub open spec fn locs_with(flat: Seq<(RowOrigin, Seq<usize>)>, v: Seq<usize>, k: nat) -> Seq<
    RowLocation,
>
    decreases k,
{
    if k == 0 || k > flat.len() {
        Seq::empty()
    } else {
        let rest = locs_with(flat, v, (k - 1) as nat);
        if flat[k - 1].1 == v {
            rest.push(loc_of(flat[k - 1].0))
        } else {
            rest
        }
    }
}

proof fn lemma_proved_in_frag_mono(exp: Seq<ExpandedRow>, a: nat, b: nat)
    requires
        a <= b <= exp.len(),
    ensures
        proved_in_frag(exp, a) <= proved_in_frag(exp, b),
    decreases b - a,
{
    if a < b {
        lemma_proved_in_frag_mono(exp, a, (b - 1) as nat);
    }
}

/// Realising a skeleton keeps which rows are proved, so the proved rows are counted alike.
proof fn lemma_proved_count_of_spec(gen: Seq<Vec<ExpandedRow>>, frags: Seq<Frag>, k: nat)
    requires
        k <= gen.len(),
        gen.len() == frags.len(),
        forall|f: int| 0 <= f < gen.len() ==> (#[trigger] gen[f])@.len() == frags[f].rows@.len(),
        forall|f: int, r: int|
            0 <= f < gen.len() && 0 <= r < gen[f]@.len() ==> (#[trigger] gen[f]@[r]).is_proved
                == frags[f].rows@[r].is_proved,
    ensures
        proved_count(gen, k) == proved_frag_rows(frags, k),
    decreases k,
{
    if k > 0 {
        lemma_proved_count_of_spec(gen, frags, (k - 1) as nat);
        let f = k - 1;
        lemma_proved_in_frag_of_spec(gen[f]@, frags[f].rows@, gen[f]@.len());
    }
}

proof fn lemma_proved_in_frag_of_spec(exp: Seq<ExpandedRow>, rows: Seq<crate::comp_spec::SkeletonRow>, k: nat)
    requires
        k <= exp.len(),
        exp.len() == rows.len(),
        forall|r: int| 0 <= r < exp.len() ==> (#[trigger] exp[r]).is_proved == rows[r].is_proved,
    ensures
        proved_in_frag(exp, k) == proved_skeleton_rows(rows, k),
    decreases k,
{
    if k > 0 {
        lemma_proved_in_frag_of_spec(exp, rows, (k - 1) as nat);
    }
}

proof fn lemma_proved_count_mono(gen: Seq<Vec<ExpandedRow>>, a: nat, b: nat)
    requires
        a <= b <= gen.len(),
    ensures
        proved_count(gen, a) <= proved_count(gen, b),
    decreases b - a,
{
    if a < b {
        lemma_proved_count_mono(gen, a, (b - 1) as nat);
    }
}

/// The locations of all the entries of `flat` whose row is `v`.
pub open spec fn group_of(flat: Seq<(RowOrigin, Seq<usize>)>, v: Seq<usize>) -> Seq<RowLocation> {
    locs_with(flat, v, flat.len())
}

/// The row of entry `i` of `flat` occurs more than once.
pub open spec fn is_false_at(flat: Seq<(RowOrigin, Seq<usize>)>, i: int) -> bool {
    group_of(flat, flat[i].1).len() >= 2
}

/// The number of entries among the first `k` of `flat` whose row occurs more than once.
pub open spec fn false_count(flat: Seq<(RowOrigin, Seq<usize>)>, k: nat) -> nat
    decreases k,
{
    if k == 0 || k > flat.len() {
        0
    } else {
        false_count(flat, (k - 1) as nat) + if is_false_at(flat, k - 1) {
            1nat
        } else {
            0nat
        }
    }
}

/// The view of some falseness groups.
pub open spec fn group_views(groups: Seq<Vec<RowLocation>>) -> Seq<Seq<RowLocation>> {
    groups.map_values(|g: Vec<RowLocation>| g@)
}

/// Two groups are adjacent: of equal size, and each location of one sits in the same
/// fragment as the matching location of the other, one row away.
pub open spec fn adjacent(a: Seq<RowLocation>, b: Seq<RowLocation>) -> bool {
    &&& a.len() == b.len()
    &&& forall|k: int| 0 <= k < a.len() ==> #[trigger] one_row_apart(a[k], b[k])
}

/// Two locations sit in the same fragment, one row apart.
pub open spec fn one_row_apart(x: RowLocation, y: RowLocation) -> bool {
    x.frag == y.frag && (x.row == y.row + 1 || y.row == x.row + 1)
}

/// The number of runs of adjacent groups among the first `k` groups.
pub open spec fn meta_count(groups: Seq<Seq<RowLocation>>, k: nat) -> nat
    decreases k,
{
    if k == 0 || k > groups.len() {
        0
    } else if k == 1 {
        1
    } else {
        meta_count(groups, (k - 1) as nat) + if adjacent(groups[k - 2], groups[k - 1]) {
            0nat
        } else {
            1nat
        }
    }
}

/// The range that a meta-group spans at one matching pair of locations.
pub open spec fn range_between(a: RowLocation, b: RowLocation, group: usize) -> (usize, FalseRowRange) {
    (
        a.frag,
        FalseRowRange {
            start: if a.row <= b.row { a.row } else { b.row },
            end: if a.row <= b.row { b.row } else { a.row },
            group,
        },
    )
}

/// The ranges between two groups of equal size: for each matching pair of locations, the
/// range of rows between them in their fragment, tagged with `group`.
pub open spec fn ranges_between(a: Seq<RowLocation>, b: Seq<RowLocation>, group: usize) -> Seq<
    (usize, FalseRowRange),
> {
    Seq::new(a.len(), |k: int| range_between(a[k], b[k], group))
}

/// `p` widened by `g`, place by place: each location keeps its fragment and takes the lower
/// (or, where `lower` is false, the higher) of the two rows.
pub open spec fn widened(p: Seq<RowLocation>, g: Seq<RowLocation>, lower: bool) -> Seq<RowLocation> {
    Seq::new(
        p.len(),
        |k: int|
            RowLocation {
                frag: p[k].frag,
                row: if (p[k].row <= g[k].row) == lower {
                    p[k].row
                } else {
                    g[k].row
                },
            },
    )
}

/// Place by place, the lowest (or, where `lower` is false, the highest) row over the groups
/// `first..=last` of `gs`, in the fragment of group `first`.
pub open spec fn span(gs: Seq<Seq<RowLocation>>, first: nat, last: nat, lower: bool) -> Seq<RowLocation>
    decreases last - first,
{
    if last <= first {
        gs[first as int]
    } else {
        widened(span(gs, first, (last - 1) as nat, lower), gs[last as int], lower)
    }
}

/// The ranges of the meta-groups of `gs` from group `i` on, where the current meta-group
/// began at group `first` (so runs up to group `i - 1`) and has id `id`.  A meta-group ends
/// where the next group is not adjacent to the one before it, or at the end of `gs`; at each
/// place its range runs from the lowest to the highest row of its groups there.
pub open spec fn coalesced(gs: Seq<Seq<RowLocation>>, i: nat, first: nat, id: nat) -> Seq<
    (usize, FalseRowRange),
>
    decreases gs.len() - i,
{
    if i >= gs.len() {
        ranges_between(
            span(gs, first, (i - 1) as nat, true),
            span(gs, first, (i - 1) as nat, false),
            id as usize,
        )
    } else if adjacent(gs[i - 1], gs[i as int]) {
        coalesced(gs, i + 1, first, id)
    } else {
        ranges_between(
            span(gs, first, (i - 1) as nat, true),
            span(gs, first, (i - 1) as nat, false),
            id as usize,
        ) + coalesced(gs, i + 1, i, id + 1)
    }
}

/// `span` widened by `g` (see [`widened`]).
fn widen(span: &Vec<RowLocation>, g: &Vec<RowLocation>, lower: bool) -> (r: Vec<RowLocation>)
    requires
        g@.len() == span@.len(),
    ensures
        r@ == widened(span@, g@, lower),
{
    let mut out: Vec<RowLocation> = Vec::new();
    let mut k: usize = 0;
    while k < span.len()
        invariant
            g@.len() == span@.len(),
            k <= span@.len(),
            out@ == widened(span@, g@, lower).subrange(0, k as int),
        decreases span@.len() - k,
    {
        let p = span[k];
        let q = g[k];
        let row = if (p.row <= q.row) == lower {
            p.row
        } else {
            q.row
        };
        out.push(RowLocation { frag: p.frag, row });
        assert(out@ =~= widened(span@, g@, lower).subrange(0, k + 1));
        k += 1;
    }
    assert(out@ =~= widened(span@, g@, lower));
    out
}

/// A copy of a list of locations.
fn copy_locations(g: &Vec<RowLocation>) -> (r: Vec<RowLocation>)
    ensures
        r@ == g@,
{
    let r = g.clone();
    assert(r@ =~= g@);
    r
}

/// Location `a` comes no later than `b`: by fragment, then by row.
pub open spec fn loc_le(a: RowLocation, b: RowLocation) -> bool {
    a.frag < b.frag || (a.frag == b.frag && a.row <= b.row)
}

/// The order of locations, by fragment and then by row, as a relation.
pub open spec fn loc_order() -> spec_fn(RowLocation, RowLocation) -> bool {
    |a: RowLocation, b: RowLocation| loc_le(a, b)
}

/// The locations of all the entries of `flat` whose row is `v`, sorted by fragment and then
/// by row.
pub open spec fn sorted_group(flat: Seq<(RowOrigin, Seq<usize>)>, v: Seq<usize>) -> Seq<RowLocation> {
    group_of(flat, v).sort_by(loc_order())
}

/// Locations are totally ordered by fragment, then row.
pub proof fn lemma_loc_order_total()
    ensures
        total_ordering(loc_order()),
{
    let r = loc_order();
    assert forall|a: RowLocation, b: RowLocation| #[trigger] r(a, b) && #[trigger] r(b, a) implies a == b by {
        assert(a.frag == b.frag && a.row == b.row);
    }
}

/// Sorting a group keeps its size.
pub proof fn lemma_sorted_group_len(flat: Seq<(RowOrigin, Seq<usize>)>, v: Seq<usize>)
    ensures
        sorted_group(flat, v).len() == group_of(flat, v).len(),
        sorted_by(sorted_group(flat, v), loc_order()),
        forall|x: RowLocation| #[trigger] sorted_group(flat, v).contains(x) <==> group_of(flat, v).contains(x),
{
    broadcast use vstd::seq_lib::to_multiset_contains;

    lemma_loc_order_total();
    group_of(flat, v).lemma_sort_by_ensures(loc_order());
    vstd::seq_lib::to_multiset_len(group_of(flat, v));
    vstd::seq_lib::to_multiset_len(sorted_group(flat, v));
    assert forall|x: RowLocation| #[trigger] sorted_group(flat, v).contains(x) <==> group_of(flat, v).contains(x) by {
        vstd::seq_lib::to_multiset_contains(sorted_group(flat, v), x);
        vstd::seq_lib::to_multiset_contains(group_of(flat, v), x);
    }
}

/// Sorts locations by fragment, then row.
pub fn sort_locations(g: &Vec<RowLocation>) -> (r: Vec<RowLocation>)
    ensures
        r@ == g@.sort_by(loc_order()),
{
    broadcast use vstd::seq_lib::to_multiset_insert, vstd::seq_lib::to_multiset_build;

    let mut out: Vec<RowLocation> = Vec::new();
    let mut i: usize = 0;
    assert(out@ =~= g@.subrange(0, 0));
    while i < g.len()
        invariant
            i <= g@.len(),
            sorted_by(out@, loc_order()),
            out@.to_multiset() == g@.subrange(0, i as int).to_multiset(),
        decreases g@.len() - i,
    {
        let x = g[i];
        let mut j: usize = 0;
        while j < out.len() && (out[j].frag < x.frag || (out[j].frag == x.frag && out[j].row <= x.row))
            invariant
                j <= out@.len(),
                forall|k: int| 0 <= k < j ==> loc_le(#[trigger] out@[k], x),
            decreases out@.len() - j,
        {
            j += 1;
        }
        let ghost old_out = out@;
        out.insert(j, x);
        proof {
            assert(out@ == old_out.insert(j as int, x));
            assert forall|a: int, b: int| 0 <= a < b < out@.len() implies #[trigger] loc_order()(out@[a], out@[b]) by {
                if b < j {
                    assert(out@[a] == old_out[a] && out@[b] == old_out[b]);
                    assert(loc_order()(old_out[a], old_out[b]));
                } else if b == j {
                    assert(out@[a] == old_out[a]);
                } else if a == j {
                    assert(out@[b] == old_out[b - 1]);
                    assert(!loc_le(old_out[j as int], x));
                    if b - 1 > j {
                        assert(loc_order()(old_out[j as int], old_out[b - 1]));
                    }
                } else if a < j {
                    assert(out@[a] == old_out[a] && out@[b] == old_out[b - 1]);
                    assert(loc_order()(old_out[a], old_out[b - 1]));
                } else {
                    assert(out@[a] == old_out[a - 1] && out@[b] == old_out[b - 1]);
                    assert(loc_order()(old_out[a - 1], old_out[b - 1]));
                }
            }
            assert(g@.subrange(0, i + 1) =~= g@.subrange(0, i as int).push(x));
            vstd::seq_lib::to_multiset_insert(old_out, j as int, x);
            vstd::seq_lib::to_multiset_build(g@.subrange(0, i as int), x);
            assert(out@.to_multiset() =~= g@.subrange(0, i + 1).to_multiset());
        }
        i += 1;
    }
    proof {
        assert(g@.subrange(0, g@.len() as int) =~= g@);
        lemma_loc_order_total();
        g@.lemma_sort_by_ensures(loc_order());
        lemma_sorted_unique(out@, g@.sort_by(loc_order()), loc_order());
    }
    out
}

/// Whether two location lists are equal.
fn same_locations(a: &Vec<RowLocation>, b: &Vec<RowLocation>) -> (r: bool)
    ensures
        r == (a@ == b@),
{
    if a.len() != b.len() {
        return false;
    }
    let mut k: usize = 0;
    while k < a.len()
        invariant
            a@.len() == b@.len(),
            k <= a@.len(),
            forall|j: int| 0 <= j < k ==> a@[j] == b@[j],
        decreases a@.len() - k,
    {
        if a[k] != b[k] {
            return false;
        }
        k += 1;
    }
    assert(a@ =~= b@);
    true
}

/// Flattens the proved realised rows of every fragment, with their origins, in order of
/// fragment, then row, then part; and counts the proved rows of one part.
pub fn flatten_proved_rows(generated_rows: &Vec<Vec<ExpandedRow>>) -> (r: (
    Vec<(RowOrigin, Row)>,
    usize,
))
    requires
        proved_count(generated_rows@, generated_rows@.len()) <= usize::MAX,
    ensures
        flat_view(r.0@) == flat_frags(generated_rows@, generated_rows@.len()),
        r.1 == proved_count(generated_rows@, generated_rows@.len()),
{
    let ghost gen = generated_rows@;
    let mut flat: Vec<(RowOrigin, Row)> = Vec::new();
    let mut part_len: usize = 0;
    let mut f: usize = 0;
    while f < generated_rows.len()
        invariant
            gen == generated_rows@,
            proved_count(gen, gen.len()) <= usize::MAX,
            f <= gen.len(),
            flat_view(flat@) == flat_frags(gen, f as nat),
            part_len == proved_count(gen, f as nat),
        decreases gen.len() - f,
    {
        let exp = &generated_rows[f];
        let mut r: usize = 0;
        proof {
            lemma_proved_count_mono(gen, (f + 1) as nat, gen.len());
        }
        while r < exp.len()
            invariant
                gen == generated_rows@,
                proved_count(gen, f as nat) + proved_in_frag(exp@, exp@.len()) <= usize::MAX,
                f < gen.len(),
                exp@ == gen[f as int]@,
                r <= exp@.len(),
                flat_view(flat@) == flat_frags(gen, f as nat) + flat_rows(f as nat, exp@, r as nat),
                part_len == proved_count(gen, f as nat) + proved_in_frag(exp@, r as nat),
            decreases exp@.len() - r,
        {
            let e = &exp[r];
            if e.is_proved {
                let ghost before = flat_view(flat@);
                let ghost before_len = flat@.len();
                let mut p: usize = 0;
                while p < e.rows.len()
                    invariant
                        r < exp@.len(),
                        flat@.len() == before_len + p,
                        *e == exp@[r as int],
                        p <= e.rows@.len(),
                        flat_view(flat@) == before + flat_parts(f as nat, r as nat, e.rows@).subrange(
                            0,
                            p as int,
                        ),
                    decreases e.rows@.len() - p,
                {
                    let ghost old_flat = flat@;
                    let entry = (RowOrigin::new(p, f, r), e.rows[p].copied());
                    flat.push(entry);
                    proof {
                        assert(flat@ == old_flat.push(entry));
                        assert(flat_view(flat@) =~= flat_view(old_flat).push((entry.0, entry.1@)));
                        assert(flat_parts(f as nat, r as nat, e.rows@)[p as int] == (entry.0, entry.1@));
                        assert(flat_view(flat@) =~= before + flat_parts(
                            f as nat,
                            r as nat,
                            e.rows@,
                        ).subrange(0, p + 1));
                    }
                    p += 1;
                }
                proof {
                    assert(flat_parts(f as nat, r as nat, e.rows@).subrange(0, p as int) =~= flat_parts(
                        f as nat,
                        r as nat,
                        e.rows@,
                    ));
                }
                proof {
                    lemma_proved_in_frag_mono(exp@, (r + 1) as nat, exp@.len());
                }
                part_len += 1;
            }
            proof {
                assert(flat_frags(gen, f as nat) + flat_rows(f as nat, exp@, (r + 1) as nat) =~= (
                flat_frags(gen, f as nat) + flat_rows(f as nat, exp@, r as nat)) + if exp@[r as int].is_proved {
                    flat_parts(f as nat, r as nat, exp@[r as int].rows@)
                } else {
                    Seq::empty()
                });
            }
            r += 1;
        }
        proof {
            assert(flat_frags(gen, (f + 1) as nat) == flat_frags(gen, f as nat) + flat_rows(
                f as nat,
                gen[f as int]@,
                gen[f as int]@.len(),
            ));
        }
        f += 1;
    }
    (flat, part_len)
}

/// Groups the flattened rows into falseness groups: for each row value that occurs more than
/// once, the locations of its occurrences sorted by fragment and then row.  The entries are
/// sorted by row (then by position), which brings equal rows side by side, and the runs of
/// equal rows are swept up.  A group that arises from several row values (as when the part
/// heads form a group) is kept once.  Also counts the false entries.
pub fn gen_false_row_groups(flattened_rows: Vec<(RowOrigin, Row)>) -> (r: (
    Vec<Vec<RowLocation>>,
    usize,
))
    ensures
        forall|j: int|
            0 <= j < r.0@.len() ==> (#[trigger] r.0@[j])@.len() >= 2 && exists|i: int|
                0 <= i < flattened_rows@.len() && r.0@[j]@ == sorted_group(
                    flat_view(flattened_rows@),
                    flattened_rows@[i].1@,
                ),
        forall|i: int|
            0 <= i < flattened_rows@.len() && is_false_at(flat_view(flattened_rows@), i)
                ==> exists|j: int|
                0 <= j < r.0@.len() && (#[trigger] r.0@[j])@ == sorted_group(
                    flat_view(flattened_rows@),
                    flattened_rows@[i].1@,
                ),
        forall|j1: int, j2: int|
            0 <= j1 < r.0@.len() && 0 <= j2 < r.0@.len() && j1 != j2 ==> (#[trigger] r.0@[j1])@
                != (#[trigger] r.0@[j2])@,
        r.1 == false_count(flat_view(flattened_rows@), flattened_rows@.len()),
{
    let ghost fv = flat_view(flattened_rows@);
    let n = flattened_rows.len();
    let idx = sorted_positions(&flattened_rows);
    let mut run_size: Vec<usize> = vec![0; n];
    let mut groups: Vec<Vec<RowLocation>> = Vec::new();
    let mut s: usize = 0;
    while s < n
        invariant
            fv == flat_view(flattened_rows@),
            n == fv.len(),
            idx_sorted(fv, idx@),
            in_range(fv, idx@),
            idx@.len() == n,
            forall|x: usize| x < n ==> #[trigger] idx@.contains(x),
            run_size@.len() == n,
            s <= n,
            s == 0 || s == n || fv[idx@[s - 1] as int].1 != fv[idx@[s as int] as int].1,
            forall|t: int|
                0 <= t < s ==> run_size@[#[trigger] idx@[t] as int] == group_of(fv, fv[idx@[t] as int].1).len(),
            forall|j: int|
                0 <= j < groups@.len() ==> (#[trigger] groups@[j])@.len() >= 2 && exists|k: int|
                    0 <= k < fv.len() && groups@[j]@ == sorted_group(fv, fv[k].1),
            forall|t: int|
                0 <= t < s && is_false_at(fv, #[trigger] idx@[t] as int) ==> exists|j: int|
                    0 <= j < groups@.len() && (#[trigger] groups@[j])@ == sorted_group(fv, fv[idx@[t] as int].1),
            forall|j1: int, j2: int|
                0 <= j1 < groups@.len() && 0 <= j2 < groups@.len() && j1 != j2 ==> (
                #[trigger] groups@[j1])@ != (#[trigger] groups@[j2])@,
        decreases n - s,
    {
        let first = idx[s];
        assert(fv[first as int].1 == flattened_rows@[first as int].1@);
        let mut e: usize = s + 1;
        while e < n && flattened_rows[idx[e]].1 == flattened_rows[first].1
            invariant
                fv == flat_view(flattened_rows@),
                n == fv.len(),
                in_range(fv, idx@),
                idx@.len() == n,
                s < e <= n,
                first == idx@[s as int],
                forall|t: int| s <= t < e ==> fv[#[trigger] idx@[t] as int].1 == fv[first as int].1,
            decreases n - e,
        {
            assert(fv[idx@[e as int] as int].1 == flattened_rows@[idx@[e as int] as int].1@);
            e += 1;
        }
        proof {
            if e < n {
                assert(fv[idx@[e as int] as int].1 == flattened_rows@[idx@[e as int] as int].1@);
            }
            lemma_run_is_group(fv, idx@, s as int, e as int);
        }
        let ghost v = fv[first as int].1;
        let size = e - s;
        let ghost old_sizes = run_size@;
        let mut t: usize = s;
        while t < e
            invariant
                n == fv.len(),
                idx_sorted(fv, idx@),
                idx@.len() == n,
                in_range(fv, idx@),
                run_size@.len() == n,
                old_sizes.len() == n,
                s <= t <= e <= n,
                forall|a: int|
                    0 <= a < n ==> (#[trigger] run_size@[a] == old_sizes[a] || exists|b: int|
                        s <= b < t && idx@[b] == a),
                forall|b: int| s <= b < t ==> run_size@[#[trigger] idx@[b] as int] == size,
            decreases e - t,
        {
            let ghost before = run_size@;
            run_size.set(idx[t], size);
            proof {
                assert forall|b: int| s <= b < t + 1 implies run_size@[#[trigger] idx@[b] as int] == size by {
                    if b < t {
                        lemma_sorted_distinct(fv, idx@, b, t as int);
                    }
                }
                assert forall|a: int| 0 <= a < n implies (#[trigger] run_size@[a] == old_sizes[a] || exists|b: int|
                    s <= b < t + 1 && idx@[b] == a) by {
                    if a == idx@[t as int] {
                        assert(idx@[t as int] == a);
                    } else {
                        assert(run_size@[a] == before[a]);
                    }
                }
            }
            t += 1;
        }
        proof {
            assert forall|t2: int|
                0 <= t2 < e implies run_size@[#[trigger] idx@[t2] as int] == group_of(fv, fv[idx@[t2] as int].1).len() by {
                if t2 < s {
                    let a = idx@[t2] as int;
                    if run_size@[a] != old_sizes[a] {
                        let b = choose|b: int| s <= b < e && idx@[b] == a;
                        lemma_sorted_distinct(fv, idx@, b, t2);
                    }
                }
            }
        }
        if size >= 2 {
            let mut g: Vec<RowLocation> = Vec::new();
            let mut u: usize = s;
            while u < e
                invariant
                    fv == flat_view(flattened_rows@),
                    n == fv.len(),
                    in_range(fv, idx@),
                    idx@.len() == n,
                    s <= u <= e <= n,
                    g@ == locs_at(fv, idx@.subrange(s as int, u as int)),
                decreases e - u,
            {
                let k = idx[u];
                assert(fv[k as int].0 == flattened_rows@[k as int].0);
                g.push(RowLocation::from(flattened_rows[k].0));
                proof {
                    assert(g@ =~= locs_at(fv, idx@.subrange(s as int, u + 1)));
                }
                u += 1;
            }
            let g = sort_locations(&g);
            proof {
                lemma_loc_order_total();
                group_of(fv, v).lemma_sort_by_ensures(loc_order());
                vstd::seq_lib::to_multiset_len(group_of(fv, v));
                vstd::seq_lib::to_multiset_len(g@);
                assert(g@ == sorted_group(fv, v));
            }
            let mut seen = false;
            let mut j: usize = 0;
            while j < groups.len()
                invariant
                    j <= groups@.len(),
                    seen == exists|j2: int| 0 <= j2 < j && (#[trigger] groups@[j2])@ == g@,
                decreases groups@.len() - j,
            {
                if same_locations(&groups[j], &g) {
                    seen = true;
                }
                j += 1;
            }
            let ghost old_groups = groups@;
            if !seen {
                groups.push(g);
                proof {
                    assert(groups@[old_groups.len() as int] == g);
                    assert forall|j: int| 0 <= j < old_groups.len() implies groups@[j] == old_groups[j] by {}
                    assert(g@ == sorted_group(fv, fv[first as int].1));
                }
            }
            proof {
                let gi = if seen {
                    choose|j2: int| 0 <= j2 < old_groups.len() && (#[trigger] old_groups[j2])@ == g@
                } else {
                    old_groups.len() as int
                };
                assert(groups@[gi]@ == sorted_group(fv, v));
                assert forall|t2: int|
                    0 <= t2 < e && is_false_at(fv, #[trigger] idx@[t2] as int) implies exists|j: int|
                        0 <= j < groups@.len() && (#[trigger] groups@[j])@ == sorted_group(fv, fv[idx@[t2] as int].1) by {
                    if t2 >= s {
                        assert(fv[idx@[t2] as int].1 == v);
                        assert(groups@[gi]@ == sorted_group(fv, fv[idx@[t2] as int].1));
                    } else {
                        let j0 = choose|j: int|
                            0 <= j < old_groups.len() && (#[trigger] old_groups[j])@ == sorted_group(fv, fv[idx@[t2] as int].1);
                        assert(groups@[j0] == old_groups[j0]);
                    }
                }
            }
        } else {
            proof {
                assert forall|t2: int|
                    0 <= t2 < e && is_false_at(fv, #[trigger] idx@[t2] as int) implies exists|j: int|
                        0 <= j < groups@.len() && (#[trigger] groups@[j])@ == sorted_group(fv, fv[idx@[t2] as int].1) by {
                    if t2 >= s {
                        assert(fv[idx@[t2] as int].1 == v);
                        assert(!is_false_at(fv, idx@[t2] as int));
                    }
                }
            }
        }
        s = e;
    }
    proof {
        assert forall|x: int| 0 <= x < n implies (#[trigger] run_size@[x]) == group_of(fv, fv[x].1).len() by {
            assert(idx@.contains(x as usize));
            let t = choose|t: int| 0 <= t < idx@.len() && idx@[t] == x as usize;
        }
    }
    let mut num_false_rows: usize = 0;
    let mut x: usize = 0;
    while x < n
        invariant
            n == fv.len(),
            run_size@.len() == n,
            forall|x: int| 0 <= x < n ==> (#[trigger] run_size@[x]) == group_of(fv, fv[x].1).len(),
            x <= n,
            num_false_rows == false_count(fv, x as nat),
            num_false_rows <= x,
        decreases n - x,
    {
        if run_size[x] >= 2 {
            num_false_rows += 1;
        }
        x += 1;
    }
    proof {
        assert forall|i: int| 0 <= i < n && is_false_at(fv, i) implies exists|j: int|
            0 <= j < groups@.len() && (#[trigger] groups@[j])@ == sorted_group(fv, flattened_rows@[i].1@) by {
            assert(idx@.contains(i as usize));
            let t = choose|t: int| 0 <= t < idx@.len() && idx@[t] == i as usize;
            assert(fv[i].1 == flattened_rows@[i].1@);
            assert(is_false_at(fv, idx@[t] as int));
        }
        assert forall|j: int| 0 <= j < groups@.len() implies exists|i: int|
            0 <= i < n && (#[trigger] groups@[j])@ == sorted_group(fv, flattened_rows@[i].1@) by {
            let k = choose|k: int| 0 <= k < fv.len() && groups@[j]@ == sorted_group(fv, fv[k].1);
            assert(fv[k].1 == flattened_rows@[k].1@);
        }
    }
    let r = (groups, num_false_rows);
    proof {
        assert forall|i: int| 0 <= i < n && is_false_at(fv, i) implies exists|j: int|
            0 <= j < r.0@.len() && (#[trigger] r.0@[j])@ == sorted_group(fv, flattened_rows@[i].1@) by {
            let j0 = choose|j: int|
                0 <= j < groups@.len() && (#[trigger] groups@[j])@ == sorted_group(fv, flattened_rows@[i].1@);
            assert(r.0@[j0] == groups@[j0]);
        }
    }
    r
}

/// Appends, for each matching pair of locations of `start` and `end`, the range between
/// them, tagged with `group_id`.
pub fn add_ranges(
    ranges: &mut Vec<(usize, FalseRowRange)>,
    start: &Vec<RowLocation>,
    end: &Vec<RowLocation>,
    group_id: usize,
)
    requires
        start@.len() == end@.len(),
        forall|k: int| 0 <= k < start@.len() ==> #[trigger] start@[k].frag == end@[k].frag,
    ensures
        final(ranges)@ == old(ranges)@ + Seq::new(
            start@.len(),
            |k: int| range_between(start@[k], end@[k], group_id),
        ),
{
    let ghost before = ranges@;
    let mut k: usize = 0;
    while k < start.len()
        invariant
            start@.len() == end@.len(),
            k <= start@.len(),
            ranges@ == before + Seq::new(
                k as nat,
                |j: int| range_between(start@[j], end@[j], group_id),
            ),
        decreases start@.len() - k,
    {
        let a = start[k];
        let b = end[k];
        let range = if a.row <= b.row {
            FalseRowRange { start: a.row, end: b.row, group: group_id }
        } else {
            FalseRowRange { start: b.row, end: a.row, group: group_id }
        };
        ranges.push((a.frag, range));
        k += 1;
        assert(ranges@ =~= before + Seq::new(
            k as nat,
            |j: int| range_between(start@[j], end@[j], group_id),
        ));
    }
}

proof fn lemma_adjacent_symmetric(a: Seq<RowLocation>, b: Seq<RowLocation>)
    requires
        adjacent(a, b),
    ensures
        adjacent(b, a),
{
    assert forall|k: int| 0 <= k < b.len() implies #[trigger] one_row_apart(b[k], a[k]) by {
        assert(one_row_apart(a[k], b[k]));
    }
}

/// Whether two groups are adjacent (see [`adjacent`]).
fn is_adjacent(a: &Vec<RowLocation>, b: &Vec<RowLocation>) -> (r: bool)
    ensures
        r == adjacent(a@, b@),
{
    if a.len() != b.len() {
        return false;
    }
    let mut k: usize = 0;
    while k < a.len()
        invariant
            a@.len() == b@.len(),
            k <= a@.len(),
            forall|j: int| 0 <= j < k ==> #[trigger] one_row_apart(a@[j], b@[j]),
        decreases a@.len() - k,
    {
        let x = a[k];
        let y = b[k];
        if x.frag != y.frag {
            assert(!one_row_apart(a@[k as int], b@[k as int]));
            return false;
        }
        let one_apart = (y.row < usize::MAX && x.row == y.row + 1) || (x.row < usize::MAX && y.row
            == x.row + 1);
        if !one_apart {
            assert(!one_row_apart(a@[k as int], b@[k as int]));
            return false;
        }
        assert(one_row_apart(a@[k as int], b@[k as int]));
        k += 1;
    }
    true
}

/// `a` comes before `b`: by fragment, then by row.
pub open spec fn loc_lt(a: RowLocation, b: RowLocation) -> bool {
    a.frag < b.frag || (a.frag == b.frag && a.row < b.row)
}

/// `a` comes no later than `b` in lexicographic order of their locations.
pub open spec fn locs_le(a: Seq<RowLocation>, b: Seq<RowLocation>) -> bool
    decreases a.len(),
{
    if a.len() == 0 {
        true
    } else if b.len() == 0 {
        false
    } else if loc_lt(a[0], b[0]) {
        true
    } else if a[0] == b[0] {
        locs_le(a.drop_first(), b.drop_first())
    } else {
        false
    }
}

/// Any two location lists are ordered one way or the other.
proof fn lemma_locs_le_total(a: Seq<RowLocation>, b: Seq<RowLocation>)
    ensures
        locs_le(a, b) || locs_le(b, a),
    decreases a.len(),
{
    if a.len() > 0 && b.len() > 0 && a[0] == b[0] {
        lemma_locs_le_total(a.drop_first(), b.drop_first());
    }
}

/// Whether `a` comes no later than `b` (see [`locs_le`]).
fn locs_le_exec(a: &Vec<RowLocation>, b: &Vec<RowLocation>) -> (r: bool)
    ensures
        r == locs_le(a@, b@),
{
    let mut k: usize = 0;
    proof {
        assert(a@.subrange(0, a@.len() as int) =~= a@);
        assert(b@.subrange(0, b@.len() as int) =~= b@);
    }
    while k < a.len() && k < b.len() && a[k] == b[k]
        invariant
            k <= a@.len(),
            k <= b@.len(),
            locs_le(a@, b@) == locs_le(a@.subrange(k as int, a@.len() as int), b@.subrange(k as int, b@.len() as int)),
        decreases a@.len() - k,
    {
        proof {
            let x = a@.subrange(k as int, a@.len() as int);
            let y = b@.subrange(k as int, b@.len() as int);
            assert(x.drop_first() =~= a@.subrange(k + 1, a@.len() as int));
            assert(y.drop_first() =~= b@.subrange(k + 1, b@.len() as int));
        }
        k += 1;
    }
    if k == a.len() {
        return true;
    }
    if k == b.len() {
        return false;
    }
    let x = a[k];
    let y = b[k];
    x.frag < y.frag || (x.frag == y.frag && x.row < y.row)
}

/// Every pair of neighbouring groups is in order.
pub open spec fn groups_sorted(gs: Seq<Seq<RowLocation>>) -> bool {
    forall|i: int| 0 <= i < gs.len() - 1 ==> locs_le(#[trigger] gs[i], gs[i + 1])
}

/// Inserting `g` at a place where it is in order keeps a sorted list sorted.
proof fn lemma_insert_sorted(s: Seq<Seq<RowLocation>>, j: int, g: Seq<RowLocation>)
    requires
        groups_sorted(s),
        0 <= j <= s.len(),
        forall|k: int| 0 <= k < j ==> locs_le(#[trigger] s[k], g),
        j < s.len() ==> locs_le(g, s[j]),
    ensures
        groups_sorted(s.insert(j, g)),
{
    let t = s.insert(j, g);
    assert forall|i: int| 0 <= i < t.len() - 1 implies locs_le(#[trigger] t[i], t[i + 1]) by {
        if i + 1 < j {
            assert(t[i] == s[i] && t[i + 1] == s[i + 1]);
        } else if i + 1 == j {
            assert(t[i] == s[i]);
        } else if i == j {
            assert(t[i + 1] == s[i]);
        } else {
            assert(t[i] == s[i - 1] && t[i + 1] == s[i]);
        }
    }
}

/// What a list holds after an insertion.
proof fn lemma_insert_contains(s: Seq<Seq<RowLocation>>, j: int, g: Seq<RowLocation>)
    requires
        0 <= j <= s.len(),
    ensures
        forall|x: Seq<RowLocation>| #[trigger] s.insert(j, g).contains(x) <==> (s.contains(x) || x == g),
{
    let t = s.insert(j, g);
    assert forall|x: Seq<RowLocation>| #[trigger] t.contains(x) <==> (s.contains(x) || x == g) by {
        if t.contains(x) {
            let i = choose|i: int| 0 <= i < t.len() && t[i] == x;
            if i < j {
                assert(s[i] == x);
            } else if i > j {
                assert(s[i - 1] == x);
            }
        }
        if s.contains(x) {
            let i = choose|i: int| 0 <= i < s.len() && s[i] == x;
            if i < j {
                assert(t[i] == x);
            } else {
                assert(t[i + 1] == x);
            }
        }
        if x == g {
            assert(t[j] == x);
        }
    }
}

/// Sorts falseness groups into lexicographic order of their locations.
pub fn sort_groups(groups: Vec<Vec<RowLocation>>) -> (r: Vec<Vec<RowLocation>>)
    ensures
        r@.len() == groups@.len(),
        groups_sorted(group_views(r@)),
        forall|x: Seq<RowLocation>|
            #[trigger] group_views(r@).contains(x) <==> group_views(groups@).contains(x),
        group_views(r@).to_multiset() == group_views(groups@).to_multiset(),
{
    let ghost orig = group_views(groups@);
    let mut out: Vec<Vec<RowLocation>> = Vec::new();
    let mut rest = groups;
    let mut n: usize = 0;
    assert(group_views(out@) =~= orig.subrange(0, 0));
    while rest.len() > 0
        invariant
            orig.len() == n + rest@.len(),
            out@.len() == n,
            group_views(rest@) == orig.subrange(n as int, orig.len() as int),
            groups_sorted(group_views(out@)),
            forall|x: Seq<RowLocation>|
                #[trigger] group_views(out@).contains(x) <==> orig.subrange(0, n as int).contains(x),
            group_views(out@).to_multiset() == orig.subrange(0, n as int).to_multiset(),
        decreases rest@.len(),
    {
        let ghost old_rest = rest@;
        let g = rest.remove(0);
        proof {
            assert(g@ == group_views(old_rest)[0]);
            assert(group_views(rest@) =~= group_views(old_rest).drop_first());
        }
        let mut j: usize = 0;
        while j < out.len() && locs_le_exec(&out[j], &g)
            invariant
                j <= out@.len(),
                forall|k: int| 0 <= k < j ==> locs_le((#[trigger] out@[k])@, g@),
            decreases out@.len() - j,
        {
            j += 1;
        }
        let ghost old_out = out@;
        out.insert(j, g);
        proof {
            let gv = group_views(old_out);
            if j < old_out.len() {
                lemma_locs_le_total(old_out[j as int]@, g@);
            }
            assert forall|k: int| 0 <= k < j implies locs_le(#[trigger] gv[k], g@) by {
                assert(locs_le(old_out[k]@, g@));
            }
            lemma_insert_sorted(gv, j as int, g@);
            assert(group_views(out@) =~= gv.insert(j as int, g@));
            lemma_insert_contains(gv, j as int, g@);
            assert(orig.subrange(0, n + 1) =~= orig.subrange(0, n as int).push(g@));
            vstd::seq_lib::to_multiset_insert(gv, j as int, g@);
            vstd::seq_lib::to_multiset_build(orig.subrange(0, n as int), g@);
            assert(group_views(out@).to_multiset() =~= orig.subrange(0, n + 1).to_multiset());
            assert forall|x: Seq<RowLocation>|
                #[trigger] group_views(out@).contains(x) <==> orig.subrange(0, n + 1).contains(x) by {
                assert(gv.insert(j as int, g@).contains(x) <==> (gv.contains(x) || x == g@));
                let pre = orig.subrange(0, n as int);
                let post = orig.subrange(0, n + 1);
                if post.contains(x) {
                    let i = choose|i: int| 0 <= i < post.len() && #[trigger] post[i] == x;
                    if i < n {
                        assert(pre[i] == x);
                    }
                }
                if pre.contains(x) {
                    let i = choose|i: int| 0 <= i < pre.len() && #[trigger] pre[i] == x;
                    assert(post[i] == x);
                }
                if x == g@ {
                    assert(post[n as int] == x);
                }
            }
        }
        n = out.len();
    }
    proof {
        assert(orig.subrange(0, n as int) =~= orig);
    }
    out
}

/// Sorts the falseness groups, then merges runs of adjacent groups into meta-groups (see
/// [`coalesce_sorted_groups`]).  Returns the ranges, each with its fragment, and the number
/// of meta-groups.
pub fn coalesce_false_row_groups(false_rows: Vec<Vec<RowLocation>>) -> (r: (
    Vec<(usize, FalseRowRange)>,
    usize,
))
    ensures
        exists|sorted: Seq<Seq<RowLocation>>|
            groups_sorted(sorted) && sorted.len() == false_rows@.len() && (forall|x: Seq<RowLocation>|
                #[trigger] sorted.contains(x) <==> group_views(false_rows@).contains(x))
                && sorted.to_multiset() == group_views(false_rows@).to_multiset() && r.1
                == meta_count(sorted, sorted.len()) && (sorted.len() > 0 ==> r.0@ == coalesced(
                sorted,
                1,
                0,
                0,
            )),
        false_rows@.len() == 0 <==> r.1 == 0,
        false_rows@.len() == 0 ==> r.0@.len() == 0,
        forall|k: int|
            0 <= k < r.0@.len() ==> (#[trigger] r.0@[k]).1.start <= r.0@[k].1.end && r.0@[k].1.group
                < r.1,
{
    let sorted = sort_groups(false_rows);
    let r = coalesce_sorted_groups(&sorted);
    proof {
        let gv = group_views(sorted@);
        if gv.len() > 0 {
            lemma_meta_count_positive(gv, gv.len());
        }
    }
    r
}

proof fn lemma_meta_count_positive(gs: Seq<Seq<RowLocation>>, k: nat)
    requires
        1 <= k <= gs.len(),
    ensures
        meta_count(gs, k) >= 1,
    decreases k,
{
    if k > 1 {
        lemma_meta_count_positive(gs, (k - 1) as nat);
    }
}

/// Walks groups in the order given, merging runs of adjacent groups into meta-groups; for
/// each meta-group, adds at each place the range from the lowest to the highest row of its
/// groups there, tagged with the meta-group's id.  Returns the ranges, each with its
/// fragment, and the number of meta-groups.
pub fn coalesce_sorted_groups(groups: &Vec<Vec<RowLocation>>) -> (r: (
    Vec<(usize, FalseRowRange)>,
    usize,
))
    ensures
        r.1 == meta_count(group_views(groups@), groups@.len()),
        groups@.len() == 0 ==> r.0@.len() == 0,
        groups@.len() > 0 ==> r.0@ == coalesced(group_views(groups@), 1, 0, 0),
        forall|k: int|
            0 <= k < r.0@.len() ==> (#[trigger] r.0@[k]).1.start <= r.0@[k].1.end && r.0@[k].1.group
                < r.1,
{
    let ghost gs = group_views(groups@);
    let mut ranges: Vec<(usize, FalseRowRange)> = Vec::new();
    if groups.len() == 0 {
        return (ranges, 0);
    }
    let mut first: usize = 0;
    let mut last: usize = 0;
    let mut lo = copy_locations(&groups[0]);
    let mut hi = copy_locations(&groups[0]);
    let mut group_id: usize = 0;
    let mut i: usize = 1;
    while i < groups.len()
        invariant
            gs == group_views(groups@),
            1 <= i <= groups@.len(),
            first <= last,
            last == i - 1,
            group_id < i,
            group_id + 1 == meta_count(gs, i as nat),
            ranges@ + coalesced(gs, i as nat, first as nat, group_id as nat) == coalesced(gs, 1, 0, 0),
            gs[first as int].len() == gs[last as int].len(),
            lo@ == span(gs, first as nat, last as nat, true),
            hi@ == span(gs, first as nat, last as nat, false),
            lo@.len() == gs[first as int].len(),
            hi@.len() == gs[first as int].len(),
            forall|k: int|
                0 <= k < gs[first as int].len() ==> #[trigger] gs[first as int][k].frag
                    == gs[last as int][k].frag && lo@[k].frag == gs[first as int][k].frag
                    && hi@[k].frag == gs[first as int][k].frag,
            forall|k: int|
                0 <= k < ranges@.len() ==> (#[trigger] ranges@[k]).1.start <= ranges@[k].1.end
                    && ranges@[k].1.group < group_id,
        decreases groups@.len() - i,
    {
        assert(gs[i as int] == groups@[i as int]@);
        assert(gs[last as int] == groups@[last as int]@);
        if !is_adjacent(&groups[i], &groups[last]) {
            assert(!adjacent(gs[i - 1], gs[i as int])) by {
                if adjacent(gs[i - 1], gs[i as int]) {
                    lemma_adjacent_symmetric(gs[i - 1], gs[i as int]);
                }
            }
            assert forall|k: int| 0 <= k < lo@.len() implies #[trigger] lo@[k].frag == hi@[k].frag by {
                assert(gs[first as int][k].frag == gs[last as int][k].frag);
            }
            let ghost before = ranges@;
            add_ranges(&mut ranges, &lo, &hi, group_id);
            proof {
                assert(ranges_between(lo@, hi@, group_id) =~= Seq::new(
                    lo@.len(),
                    |k: int| range_between(lo@[k], hi@[k], group_id),
                ));
                assert(ranges@ =~= before + ranges_between(lo@, hi@, group_id));
            }
            first = i;
            lo = copy_locations(&groups[i]);
            hi = copy_locations(&groups[i]);
            group_id += 1;
        } else {
            proof {
                lemma_adjacent_symmetric(gs[i as int], gs[last as int]);
                assert(adjacent(gs[i - 1], gs[i as int]));
                assert forall|k: int| 0 <= k < gs[first as int].len() implies #[trigger] gs[first as int][k].frag
                    == gs[i as int][k].frag by {
                    assert(gs[first as int][k].frag == gs[last as int][k].frag);
                    assert(one_row_apart(gs[i as int][k], gs[last as int][k]));
                }
            }
            lo = widen(&lo, &groups[i], true);
            hi = widen(&hi, &groups[i], false);
        }
        last = i;
        i += 1;
    }
    assert forall|k: int| 0 <= k < lo@.len() implies #[trigger] lo@[k].frag == hi@[k].frag by {
        assert(gs[first as int][k].frag == gs[last as int][k].frag);
    }
    let ghost before = ranges@;
    add_ranges(&mut ranges, &lo, &hi, group_id);
    proof {
        assert(ranges_between(lo@, hi@, group_id) =~= Seq::new(
            lo@.len(),
            |k: int| range_between(lo@[k], hi@[k], group_id),
        ));
        assert(ranges@ =~= before + coalesced(gs, i as nat, first as nat, group_id as nat));
    }
    (ranges, group_id + 1)
}

/// Each fragment has a first and a last row, and each of those has a row for part 0.
pub open spec fn frags_linkable(gen: Seq<Vec<ExpandedRow>>) -> bool {
    forall|f: int|
        0 <= f < gen.len() ==> #[trigger] gen[f]@.len() >= 1 && gen[f]@[0].rows@.len() >= 1
            && gen[f]@.last().rows@.len() >= 1
}

/// The leftover (last) row of fragment `f`, in part 0.
pub open spec fn leftover_row(gen: Seq<Vec<ExpandedRow>>, f: int) -> Seq<usize> {
    gen[f]@.last().rows@[0]@
}

/// The first row of fragment `f`, in part 0.
pub open spec fn first_row(gen: Seq<Vec<ExpandedRow>>, f: int) -> Seq<usize> {
    gen[f]@[0].rows@[0]@
}

/// Fragment `g` can follow fragment `f`: `g` starts with the leftover row of `f`.
pub open spec fn links_to(gen: Seq<Vec<ExpandedRow>>, f: int, g: int) -> bool {
    leftover_row(gen, f) == first_row(gen, g)
}

/// The pair `(f1, g1)` comes before `(f2, g2)`, by `f` and then by `g`.
pub open spec fn pair_before(f1: usize, g1: usize, f2: usize, g2: usize) -> bool {
    f1 < f2 || (f1 == f2 && g1 < g2)
}

/// Index in `seen` of a row equal to `r`, if any.
fn find_row(seen: &Vec<Row>, r: &Row) -> (idx: Option<usize>)
    ensures
        match idx {
            Some(i) => i < seen@.len() && seen@[i as int]@ == r@,
            None => forall|i: int| 0 <= i < seen@.len() ==> (#[trigger] seen@[i])@ != r@,
        },
{
    let mut i: usize = 0;
    while i < seen.len()
        invariant
            i <= seen@.len(),
            forall|k: int| 0 <= k < i ==> (#[trigger] seen@[k])@ != r@,
        decreases seen@.len() - i,
    {
        if seen[i] == *r {
            return Some(i);
        }
        i += 1;
    }
    None
}

/// `links` are exactly the links between the fragments of `gen`, in order of `from` and then
/// `to`; two links share a group exactly when they pass through equal rows; and `groups`
/// records, for each fragment, the group of a link leaving its bottom and of one reaching its
/// top, where there is one.
pub open spec fn is_link_graph(
    gen: Seq<Vec<ExpandedRow>>,
    links: Seq<FragLink>,
    groups: Seq<FragLinkGroups>,
) -> bool {
    &&& forall|k: int|
        0 <= k < links.len() ==> (#[trigger] links[k]).from < gen.len() && links[k].to < gen.len()
            && links_to(gen, links[k].from as int, links[k].to as int)
    &&& forall|f: int, g: int|
        0 <= f < gen.len() && 0 <= g < gen.len() && links_to(gen, f, g) ==> exists|k: int|
            0 <= k < links.len() && (#[trigger] links[k]).from == f && links[k].to == g
    &&& forall|k1: int, k2: int|
        0 <= k1 < k2 < links.len() ==> pair_before(
            (#[trigger] links[k1]).from,
            links[k1].to,
            (#[trigger] links[k2]).from,
            links[k2].to,
        )
    &&& forall|k1: int, k2: int|
        0 <= k1 < links.len() && 0 <= k2 < links.len() ==> ((#[trigger] links[k1]).group
            == (#[trigger] links[k2]).group <==> leftover_row(gen, links[k1].from as int)
            == leftover_row(gen, links[k2].from as int))
    &&& groups.len() == gen.len()
    &&& forall|f: int|
        0 <= f < gen.len() ==> match (#[trigger] groups[f]).link_group_bottom {
            Some(g) => exists|k: int|
                0 <= k < links.len() && (#[trigger] links[k]).from == f && links[k].group == g,
            None => forall|k: int| 0 <= k < links.len() ==> (#[trigger] links[k]).from != f,
        }
    &&& forall|f: int|
        0 <= f < gen.len() ==> match (#[trigger] groups[f]).link_group_top {
            Some(g) => exists|k: int|
                0 <= k < links.len() && (#[trigger] links[k]).to == f && links[k].group == g,
            None => forall|k: int| 0 <= k < links.len() ==> (#[trigger] links[k]).to != f,
        }
}

/// Link `k` is the first to use its group id.
pub open spec fn is_first_use(links: Seq<FragLink>, k: int) -> bool {
    forall|k2: int| 0 <= k2 < k ==> (#[trigger] links[k2]).group != links[k].group
}

/// The number of group ids first used among the first `k` links.
pub open spec fn ids_used(links: Seq<FragLink>, k: nat) -> nat
    decreases k,
{
    if k == 0 || k > links.len() {
        0
    } else {
        ids_used(links, (k - 1) as nat) + if is_first_use(links, k - 1) {
            1nat
        } else {
            0nat
        }
    }
}

/// Some link uses group id `g`.
pub open spec fn group_used(links: Seq<FragLink>, g: int) -> bool {
    exists|k: int| 0 <= k < links.len() && (#[trigger] links[k]).group == g
}

/// Group ids are handed out as `0, 1, 2, ...` in order of first use.
pub open spec fn ids_in_first_use_order(links: Seq<FragLink>) -> bool {
    forall|k: int|
        0 <= k < links.len() ==> (#[trigger] links[k]).group < ids_used(links, (k + 1) as nat) && (
        is_first_use(links, k) ==> links[k].group == ids_used(links, k as nat))
}

proof fn lemma_ids_used_push(links: Seq<FragLink>, x: FragLink, k: nat)
    requires
        k <= links.len(),
    ensures
        ids_used(links.push(x), k) == ids_used(links, k),
    decreases k,
{
    if k > 0 {
        lemma_ids_used_push(links, x, (k - 1) as nat);
        let l2 = links.push(x);
        assert(is_first_use(l2, k - 1) == is_first_use(links, k - 1)) by {
            assert forall|k2: int| 0 <= k2 < k - 1 implies l2[k2] == links[k2] by {}
            assert(l2[k - 1] == links[k - 1]);
        }
    }
}

/// `used` ids have been handed out to `links`, each to some link, in order of first use.
#[verifier::opaque]
pub open spec fn id_bookkeeping(links: Seq<FragLink>, used: nat) -> bool {
    &&& used == ids_used(links, links.len())
    &&& ids_in_first_use_order(links)
    &&& forall|g: int| 0 <= g < used ==> #[trigger] group_used(links, g)
}

/// Adding a link keeps group ids in order of first use, where the link takes an id already
/// used or the next new one.
proof fn lemma_link_ids_push(links: Seq<FragLink>, link: FragLink, used: nat, new_used: nat)
    requires
        id_bookkeeping(links, used),
        forall|k: int| 0 <= k < links.len() ==> (#[trigger] links[k]).group < used,
        (link.group < used && new_used == used) || (link.group == used && new_used == used + 1),
    ensures
        id_bookkeeping(links.push(link), new_used),
{
    reveal(id_bookkeeping);
    let l2 = links.push(link);
    let last = links.len() as int;
    assert forall|k: int| 0 <= k < last implies l2[k] == links[k] by {}
    lemma_ids_used_push(links, link, links.len());
    if link.group < used {
        assert(group_used(links, link.group as int));
        let k0 = choose|k: int| 0 <= k < links.len() && (#[trigger] links[k]).group == link.group;
        assert(l2[k0].group == link.group);
        assert(!is_first_use(l2, last));
    } else {
        assert forall|k2: int| 0 <= k2 < last implies (#[trigger] l2[k2]).group != l2[last].group by {
            assert(l2[k2] == links[k2]);
        }
        assert(is_first_use(l2, last));
    }
    assert forall|k: int| 0 <= k < l2.len() implies (#[trigger] l2[k]).group < ids_used(l2, (k + 1) as nat) && (
        is_first_use(l2, k) ==> l2[k].group == ids_used(l2, k as nat)) by {
        if k < last {
            lemma_ids_used_push(links, link, (k + 1) as nat);
            lemma_ids_used_push(links, link, k as nat);
            assert(is_first_use(l2, k) == is_first_use(links, k)) by {
                assert forall|k2: int| 0 <= k2 < k implies l2[k2] == links[k2] by {}
            }
        }
    }
    assert forall|g: int| 0 <= g < new_used implies #[trigger] group_used(l2, g) by {
        if g < used {
            assert(group_used(links, g));
            let k0 = choose|k: int| 0 <= k < links.len() && (#[trigger] links[k]).group == g;
            assert(l2[k0] == links[k0]);
        } else {
            assert(l2[last].group == g);
        }
    }
}

/// Finds every pair of fragments `(f, g)`, `f == g` included, such that `g` starts with the
/// leftover row of `f` (both in part 0), in order of `f` and then `g`.  Links through equal
/// rows share a group id, handed out in order of first use.  Also records, for each
/// fragment, the group of a link leaving its bottom and of one reaching its top.
pub fn gen_frag_links(generated_rows: &Vec<Vec<ExpandedRow>>) -> (r: (Vec<FragLink>, Vec<FragLinkGroups>))
    requires
        frags_linkable(generated_rows@),
    ensures
        is_link_graph(generated_rows@, r.0@, r.1@),
        ids_in_first_use_order(r.0@),
{
    let ghost gen = generated_rows@;
    let n = generated_rows.len();
    let mut seen: Vec<Row> = Vec::new();
    let mut links: Vec<FragLink> = Vec::new();
    let mut groups: Vec<FragLinkGroups> = Vec::new();
    let mut z: usize = 0;
    while z < n
        invariant
            n == gen.len(),
            z <= n,
            groups@.len() == z,
            forall|f: int| 0 <= f < z ==> (#[trigger] groups@[f]) == (FragLinkGroups {
                link_group_top: None,
                link_group_bottom: None,
            }),
        decreases n - z,
    {
        groups.push(FragLinkGroups { link_group_top: None, link_group_bottom: None });
        z += 1;
    }
    let mut i: usize = 0;
    proof {
        reveal(id_bookkeeping);
        assert(id_bookkeeping(links@, seen@.len()));
    }
    while i < n
        invariant
            gen == generated_rows@,
            frags_linkable(gen),
            n == gen.len(),
            i <= n,
            groups@.len() == n,
            forall|a: int, b: int|
                0 <= a < seen@.len() && 0 <= b < seen@.len() && a != b ==> (#[trigger] seen@[a])@
                    != (#[trigger] seen@[b])@,
            id_bookkeeping(links@, seen@.len()),
            forall|k: int|
                0 <= k < links@.len() ==> (#[trigger] links@[k]).from < i && links@[k].to < n
                    && links_to(gen, links@[k].from as int, links@[k].to as int)
                    && links@[k].group < seen@.len()
                    && seen@[links@[k].group as int]@ == leftover_row(gen, links@[k].from as int),
            forall|f: int, g: int|
                0 <= f < i && 0 <= g < n && links_to(gen, f, g) ==> exists|k: int|
                    0 <= k < links@.len() && (#[trigger] links@[k]).from == f && links@[k].to == g,
            forall|k1: int, k2: int|
                0 <= k1 < k2 < links@.len() ==> pair_before(
                    (#[trigger] links@[k1]).from,
                    links@[k1].to,
                    (#[trigger] links@[k2]).from,
                    links@[k2].to,
                ),
            forall|f: int|
                0 <= f < n ==> match (#[trigger] groups@[f]).link_group_bottom {
                    Some(g) => exists|k: int|
                        0 <= k < links@.len() && (#[trigger] links@[k]).from == f && links@[k].group == g,
                    None => forall|k: int| 0 <= k < links@.len() ==> (#[trigger] links@[k]).from != f,
                },
            forall|f: int|
                0 <= f < n ==> match (#[trigger] groups@[f]).link_group_top {
                    Some(g) => exists|k: int|
                        0 <= k < links@.len() && (#[trigger] links@[k]).to == f && links@[k].group == g,
                    None => forall|k: int| 0 <= k < links@.len() ==> (#[trigger] links@[k]).to != f,
                },
        decreases n - i,
    {
        assert(gen[i as int]@.len() >= 1);
        let fi = &generated_rows[i];
        let leftover = &fi[fi.len() - 1].rows[0];
        assert(leftover@ == leftover_row(gen, i as int));
        let mut j: usize = 0;
        while j < n
            invariant
                gen == generated_rows@,
                frags_linkable(gen),
                n == gen.len(),
                i < n,
                j <= n,
                leftover@ == leftover_row(gen, i as int),
                groups@.len() == n,
                forall|a: int, b: int|
                    0 <= a < seen@.len() && 0 <= b < seen@.len() && a != b ==> (#[trigger] seen@[a])@
                        != (#[trigger] seen@[b])@,
                id_bookkeeping(links@, seen@.len()),
                forall|k: int|
                    0 <= k < links@.len() ==> (#[trigger] links@[k]).from <= i && links@[k].to < n
                        && (links@[k].from == i ==> links@[k].to < j)
                        && links_to(gen, links@[k].from as int, links@[k].to as int)
                        && links@[k].group < seen@.len()
                        && seen@[links@[k].group as int]@ == leftover_row(gen, links@[k].from as int),
                forall|f: int, g: int|
                    0 <= f < n && 0 <= g < n && (f < i || (f == i && g < j)) && links_to(gen, f, g)
                        ==> exists|k: int|
                        0 <= k < links@.len() && (#[trigger] links@[k]).from == f && links@[k].to == g,
                forall|k1: int, k2: int|
                    0 <= k1 < k2 < links@.len() ==> pair_before(
                        (#[trigger] links@[k1]).from,
                        links@[k1].to,
                        (#[trigger] links@[k2]).from,
                        links@[k2].to,
                    ),
                forall|f: int|
                    0 <= f < n ==> match (#[trigger] groups@[f]).link_group_bottom {
                        Some(g) => exists|k: int|
                            0 <= k < links@.len() && (#[trigger] links@[k]).from == f && links@[k].group == g,
                        None => forall|k: int| 0 <= k < links@.len() ==> (#[trigger] links@[k]).from != f,
                    },
                forall|f: int|
                    0 <= f < n ==> match (#[trigger] groups@[f]).link_group_top {
                        Some(g) => exists|k: int|
                            0 <= k < links@.len() && (#[trigger] links@[k]).to == f && links@[k].group == g,
                        None => forall|k: int| 0 <= k < links@.len() ==> (#[trigger] links@[k]).to != f,
                    },
            decreases n - j,
        {
            assert(gen[j as int]@.len() >= 1);
            let first = &generated_rows[j][0].rows[0];
            assert(first@ == first_row(gen, j as int));
            if *leftover == *first {
                let ghost old_seen_len = seen@.len();
                let group = match find_row(&seen, leftover) {
                    Some(g) => g,
                    None => {
                        let ghost old_seen = seen@;
                        seen.push(leftover.copied());
                        proof {
                            assert forall|a: int, b: int|
                                0 <= a < seen@.len() && 0 <= b < seen@.len() && a != b implies (
                                #[trigger] seen@[a])@ != (#[trigger] seen@[b])@ by {
                                if a < old_seen.len() && b < old_seen.len() {
                                    assert(seen@[a] == old_seen[a]);
                                    assert(seen@[b] == old_seen[b]);
                                } else if a < old_seen.len() {
                                    assert(seen@[a] == old_seen[a]);
                                } else {
                                    assert(seen@[b] == old_seen[b]);
                                }
                            }
                            assert forall|k: int| 0 <= k < links@.len() implies seen@[(
                            #[trigger] links@[k]).group as int]@ == leftover_row(
                                gen,
                                links@[k].from as int,
                            ) by {
                                assert(seen@[links@[k].group as int] == old_seen[links@[k].group as int]);
                            }
                        }
                        seen.len() - 1
                    },
                };
                let link = FragLink { from: i, to: j, group };
                let ghost old_links = links@;
                let ghost old_groups = groups@;
                links.push(link);
                let mut gb = groups[i];
                gb.link_group_bottom = Some(group);
                groups.set(i, gb);
                let mut gt = groups[j];
                gt.link_group_top = Some(group);
                groups.set(j, gt);
                proof {
                    let last = old_links.len() as int;
                    assert(links@[last] == link);
                    assert forall|k: int| 0 <= k < last implies links@[k] == old_links[k] by {}
                    assert(links@ == old_links.push(link));
                    lemma_link_ids_push(old_links, link, old_seen_len, seen@.len());
                    assert forall|f: int| 0 <= f < n implies match (#[trigger] groups@[f]).link_group_bottom {
                        Some(g) => exists|k: int|
                            0 <= k < links@.len() && (#[trigger] links@[k]).from == f && links@[k].group == g,
                        None => forall|k: int| 0 <= k < links@.len() ==> (#[trigger] links@[k]).from != f,
                    } by {
                        if f == i {
                            assert(links@[last].from == f && links@[last].group == group);
                        } else {
                            assert(groups@[f].link_group_bottom == old_groups[f].link_group_bottom);
                            match old_groups[f].link_group_bottom {
                                Some(g) => {
                                    let k0 = choose|k: int|
                                        0 <= k < old_links.len() && (#[trigger] old_links[k]).from == f
                                            && old_links[k].group == g;
                                    assert(links@[k0] == old_links[k0]);
                                },
                                None => {
                                    assert forall|k: int| 0 <= k < links@.len() implies (
                                    #[trigger] links@[k]).from != f by {
                                        if k < last {
                                            assert(links@[k] == old_links[k]);
                                        }
                                    }
                                },
                            }
                        }
                    }
                    assert forall|f: int| 0 <= f < n implies match (#[trigger] groups@[f]).link_group_top {
                        Some(g) => exists|k: int|
                            0 <= k < links@.len() && (#[trigger] links@[k]).to == f && links@[k].group == g,
                        None => forall|k: int| 0 <= k < links@.len() ==> (#[trigger] links@[k]).to != f,
                    } by {
                        if f == j {
                            assert(links@[last].to == f && links@[last].group == group);
                        } else {
                            assert(groups@[f].link_group_top == old_groups[f].link_group_top);
                            match old_groups[f].link_group_top {
                                Some(g) => {
                                    let k0 = choose|k: int|
                                        0 <= k < old_links.len() && (#[trigger] old_links[k]).to == f
                                            && old_links[k].group == g;
                                    assert(links@[k0] == old_links[k0]);
                                },
                                None => {
                                    assert forall|k: int| 0 <= k < links@.len() implies (
                                    #[trigger] links@[k]).to != f by {
                                        if k < last {
                                            assert(links@[k] == old_links[k]);
                                        }
                                    }
                                },
                            }
                        }
                    }
                    assert forall|f: int, g: int|
                        0 <= f < n && 0 <= g < n && (f < i || (f == i && g < j + 1)) && links_to(gen, f, g)
                            implies exists|k: int|
                            0 <= k < links@.len() && (#[trigger] links@[k]).from == f && links@[k].to == g by {
                        if f == i && g == j {
                            assert(links@[last].from == f);
                        } else {
                            let k0 = choose|k: int|
                                0 <= k < old_links.len() && (#[trigger] old_links[k]).from == f
                                    && old_links[k].to == g;
                            assert(links@[k0] == old_links[k0]);
                        }
                    }
                }
            }
            j += 1;
        }
        i += 1;
    }
    proof {
        assert forall|k1: int, k2: int|
            0 <= k1 < links@.len() && 0 <= k2 < links@.len() implies ((#[trigger] links@[k1]).group
            == (#[trigger] links@[k2]).group <==> leftover_row(gen, links@[k1].from as int)
            == leftover_row(gen, links@[k2].from as int)) by {
            let g1 = links@[k1].group as int;
            let g2 = links@[k2].group as int;
            if g1 != g2 {
                assert(seen@[g1]@ != seen@[g2]@);
            }
        }
        assert forall|k: int| 0 <= k < links@.len() implies (#[trigger] links@[k]).from < gen.len()
            && links@[k].to < gen.len() && links_to(gen, links@[k].from as int, links@[k].to as int) by {}
        assert forall|f: int, g: int|
            0 <= f < gen.len() && 0 <= g < gen.len() && links_to(gen, f, g) implies exists|k: int|
                0 <= k < links@.len() && (#[trigger] links@[k]).from == f && links@[k].to == g by {
            assert(f < i);
        }
    }
    proof {
        reveal(id_bookkeeping);
    }
    let r = (links, groups);
    assert forall|f: int, g: int|
        0 <= f < gen.len() && 0 <= g < gen.len() && links_to(gen, f, g) implies exists|k: int|
            0 <= k < r.0@.len() && (#[trigger] r.0@[k]).from == f && r.0@[k].to == g by {
        let k0 = choose|k: int| 0 <= k < links@.len() && (#[trigger] links@[k]).from == f && links@[k].to == g;
        assert(r.0@[k0] == links@[k0]);
    }
    r
}

impl ExpandedRow {
    /// Realises `row` under each part head (`part_head * row`), with the music of each
    /// realised row.
    pub fn new(
        row: &Row,
        call_str: Option<String>,
        method_str: Option<String>,
        is_lead_end: bool,
        part_heads: &Vec<Row>,
        is_proved: bool,
    ) -> (r: Self)
        requires
            row.wf(),
            forall|p: int|
                0 <= p < part_heads@.len() ==> (#[trigger] part_heads@[p]).wf() && part_heads@[p]@.len()
                    == row@.len(),
        ensures
            r.call_str == call_str,
            r.method_str == method_str,
            r.is_lead_end == is_lead_end,
            r.is_proved == is_proved,
            r.rows@.len() == part_heads@.len(),
            forall|p: int|
                0 <= p < r.rows@.len() ==> (#[trigger] r.rows@[p])@ == perm_mul(part_heads@[p]@, row@)
                    && r.rows@[p].wf(),
            r.music_highlights@.len() == row@.len(),
            forall|pos: int|
                0 <= pos < r.music_highlights@.len() ==> (#[trigger] r.music_highlights@[pos])@
                    == music_parts(views(r.rows@), row@.len(), pos, r.rows@.len()),
    {
        let mut all_rows: Vec<Row> = Vec::new();
        let mut p: usize = 0;
        while p < part_heads.len()
            invariant
                row.wf(),
                forall|p: int|
                    0 <= p < part_heads@.len() ==> (#[trigger] part_heads@[p]).wf()
                        && part_heads@[p]@.len() == row@.len(),
                p <= part_heads@.len(),
                all_rows@.len() == p,
                forall|q: int|
                    0 <= q < p ==> (#[trigger] all_rows@[q])@ == perm_mul(part_heads@[q]@, row@)
                        && all_rows@[q].wf(),
            decreases part_heads@.len() - p,
        {
            let ph = &part_heads[p];
            all_rows.push(ph.mul_unchecked(row));
            p += 1;
        }
        let music_highlights = calculate_music(&all_rows, row.stage());
        assert(views(all_rows@) == all_rows@.map_values(|row: Row| row@));
        ExpandedRow { call_str, method_str, is_lead_end, is_proved, rows: all_rows, music_highlights }
    }
}

/// The ranges, in order, of the fragment `f` among `ranges`.
pub open spec fn ranges_for(ranges: Seq<(usize, FalseRowRange)>, f: usize, k: nat) -> Seq<FalseRowRange>
    decreases k,
{
    if k == 0 || k > ranges.len() {
        Seq::empty()
    } else {
        let rest = ranges_for(ranges, f, (k - 1) as nat);
        if ranges[k - 1].0 == f {
            rest.push(ranges[k - 1].1)
        } else {
            rest
        }
    }
}

/// The ranges of fragment `f`, in order.
fn collect_ranges(ranges: &Vec<(usize, FalseRowRange)>, f: usize) -> (r: Vec<FalseRowRange>)
    ensures
        r@ == ranges_for(ranges@, f, ranges@.len()),
{
    let mut out: Vec<FalseRowRange> = Vec::new();
    let mut k: usize = 0;
    while k < ranges.len()
        invariant
            k <= ranges@.len(),
            out@ == ranges_for(ranges@, f, k as nat),
        decreases ranges@.len() - k,
    {
        if ranges[k].0 == f {
            out.push(ranges[k].1);
        }
        k += 1;
    }
    out
}

/// What the display needs of one fragment.
#[derive(Debug)]
pub struct AnnotFrag {
    pub false_row_ranges: Vec<FalseRowRange>,
    pub exp_rows: Vec<ExpandedRow>,
    pub is_proved: bool,
    pub link_groups: FragLinkGroups,
}

/// Everything derived from a composition.
#[derive(Debug)]
pub struct DerivedState {
    pub annot_frags: Vec<AnnotFrag>,
    pub frag_links: Vec<FragLink>,
    pub stats: DerivedStats,
    pub part_heads: Vec<Row>,
    pub stage: usize,
}

/// The realised rows of each annotated fragment.
pub open spec fn exp_rows_of(annot: Seq<AnnotFrag>) -> Seq<Vec<ExpandedRow>> {
    annot.map_values(|a: AnnotFrag| a.exp_rows)
}

impl DerivedState {
    /// The realised row of part `part_ind` at row `row_ind` of fragment `frag_ind`, or `None`
    /// where there is none.
    pub fn get_row(&self, part_ind: usize, frag_ind: usize, row_ind: usize) -> (r: Option<&Row>)
        ensures
            ({
                let gen = exp_rows_of(self.annot_frags@);
                if frag_ind < gen.len() && row_ind < gen[frag_ind as int]@.len() && part_ind
                    < gen[frag_ind as int]@[row_ind as int].rows@.len() {
                    r == Some(&gen[frag_ind as int]@[row_ind as int].rows@[part_ind as int])
                } else {
                    r is None
                }
            }),
    {
        if frag_ind >= self.annot_frags.len() {
            return None;
        }
        let frag = &self.annot_frags[frag_ind];
        if row_ind >= frag.exp_rows.len() {
            return None;
        }
        let exp = &frag.exp_rows[row_ind];
        if part_ind >= exp.rows.len() {
            return None;
        }
        Some(&exp.rows[part_ind])
    }

    /// The part head of part `part_ind`, or `None` where there is no such part.
    pub fn get_part_head(&self, part_ind: usize) -> (r: Option<&Row>)
        ensures
            part_ind < self.part_heads@.len() ==> r == Some(&self.part_heads@[part_ind as int]),
            part_ind >= self.part_heads@.len() ==> r is None,
    {
        if part_ind < self.part_heads.len() {
            Some(&self.part_heads[part_ind])
        } else {
            None
        }
    }
}

/// `gs` are the falseness groups of `flat`: each is the sorted locations of a row that
/// occurs more than once, every such row has its group there, and no group is listed twice.
pub open spec fn false_groups_of(flat: Seq<(RowOrigin, Seq<usize>)>, gs: Seq<Seq<RowLocation>>) -> bool {
    &&& forall|j: int|
        0 <= j < gs.len() ==> (#[trigger] gs[j]).len() >= 2 && exists|i: int|
            0 <= i < flat.len() && gs[j] == sorted_group(flat, flat[i].1)
    &&& forall|i: int|
        0 <= i < flat.len() && is_false_at(flat, i) ==> exists|j: int|
            0 <= j < gs.len() && #[trigger] gs[j] == sorted_group(flat, flat[i].1)
    &&& forall|j1: int, j2: int|
        0 <= j1 < gs.len() && 0 <= j2 < gs.len() && j1 != j2 ==> #[trigger] gs[j1] != #[trigger] gs[j2]
}

/// `sorted` lists the groups of `gs` in lexicographic order of their locations.
pub open spec fn sorted_arrangement(gs: Seq<Seq<RowLocation>>, sorted: Seq<Seq<RowLocation>>) -> bool {
    &&& groups_sorted(sorted)
    &&& sorted.len() == gs.len()
    &&& forall|x: Seq<RowLocation>| #[trigger] sorted.contains(x) <==> gs.contains(x)
    &&& sorted.to_multiset() == gs.to_multiset()
}

/// The falseness ranges and group count of `r` come from the falseness groups `gs` of its
/// proved rows, put in order as `sorted` and merged into `ranges`.
pub open spec fn ranges_from(
    r: DerivedState,
    gs: Seq<Seq<RowLocation>>,
    sorted: Seq<Seq<RowLocation>>,
    ranges: Seq<(usize, FalseRowRange)>,
) -> bool {
    &&& false_groups_of(flat_frags(exp_rows_of(r.annot_frags@), r.annot_frags@.len()), gs)
    &&& sorted_arrangement(gs, sorted)
    &&& r.stats.num_false_groups == meta_count(sorted, sorted.len())
    &&& ranges == if sorted.len() == 0 {
        Seq::empty()
    } else {
        coalesced(sorted, 1, 0, 0)
    }
    &&& forall|f: int|
        0 <= f < r.annot_frags@.len() ==> (#[trigger] r.annot_frags@[f]).false_row_ranges@
            == ranges_for(ranges, f as usize, ranges.len())
}

/// Two optional labels hold the same text.
pub open spec fn same_label(a: Option<String>, b: Option<String>) -> bool {
    (a is Some <==> b is Some) && (a is Some ==> a->Some_0@ == b->Some_0@)
}

/// `r` is what is derived from the skeleton `spec`: the part heads and stage, every skeleton
/// row realised in every part with its labels and music, the statistics of the proved rows,
/// the falseness ranges of each fragment, and the links between fragments.
pub open spec fn derived_from(r: DerivedState, spec: CompSpec) -> bool {
    &&& r.stage == spec.stage.num_bells
    &&& r.part_heads@.len() == spec.part_heads@.len()
    &&& forall|p: int|
        0 <= p < r.part_heads@.len() ==> (#[trigger] r.part_heads@[p])@ == spec.part_heads@[p]@
    &&& r.annot_frags@.len() == spec.frags@.len()
    &&& forall|f: int|
        0 <= f < r.annot_frags@.len() ==> (#[trigger] r.annot_frags@[f]).is_proved
            == !spec.frags@[f].is_muted && r.annot_frags@[f].exp_rows@.len()
            == spec.frags@[f].rows@.len()
    &&& forall|f: int, k: int|
        0 <= f < r.annot_frags@.len() && 0 <= k < r.annot_frags@[f].exp_rows@.len() ==> {
            let e = #[trigger] r.annot_frags@[f].exp_rows@[k];
            let s = spec.frags@[f].rows@[k];
            &&& e.is_proved == s.is_proved
            &&& e.is_lead_end == s.is_lead_end
            &&& same_label(e.call_str, s.call_str)
            &&& same_label(e.method_str, s.method_str)
            &&& e.rows@.len() == spec.part_heads@.len()
            &&& forall|p: int|
                0 <= p < e.rows@.len() ==> (#[trigger] e.rows@[p])@ == perm_mul(
                    spec.part_heads@[p]@,
                    s.row@,
                )
            &&& e.music_highlights@.len() == s.row@.len()
            &&& forall|pos: int|
                0 <= pos < e.music_highlights@.len() ==> (#[trigger] e.music_highlights@[pos])@
                    == music_parts(views(e.rows@), s.row@.len(), pos, e.rows@.len())
        }
    &&& r.stats.part_len == proved_count(exp_rows_of(r.annot_frags@), r.annot_frags@.len())
    &&& r.stats.num_false_rows == false_count(
        flat_frags(exp_rows_of(r.annot_frags@), r.annot_frags@.len()),
        flat_frags(exp_rows_of(r.annot_frags@), r.annot_frags@.len()).len(),
    )
    &&& r.stats.num_false_groups == 0 <==> r.stats.num_false_rows == 0
    &&& exists|gs: Seq<Seq<RowLocation>>, sorted: Seq<Seq<RowLocation>>, ranges: Seq<(usize, FalseRowRange)>|
        #[trigger] ranges_from(r, gs, sorted, ranges)
    &&& is_link_graph(
        exp_rows_of(r.annot_frags@),
        r.frag_links@,
        r.annot_frags@.map_values(|a: AnnotFrag| a.link_groups),
    )
    &&& ids_in_first_use_order(r.frag_links@)
    &&& forall|f: int, k: int|
        0 <= f < r.annot_frags@.len() && 0 <= k < r.annot_frags@[f].false_row_ranges@.len()
            ==> (#[trigger] r.annot_frags@[f].false_row_ranges@[k]).start
            <= r.annot_frags@[f].false_row_ranges@[k].end
            && r.annot_frags@[f].false_row_ranges@[k].group < r.stats.num_false_groups
}

impl DerivedState {
    /// Derives everything from a composition: realises every row in every part, proves the
    /// proved rows for truth, coalesces the falseness groups into ranges, links the fragments
    /// and finds the music.
    pub fn from_spec(spec: &CompSpec) -> (r: DerivedState)
        requires
            spec.wf(),
        ensures
            derived_from(r, *spec),
    {
        let (generated_rows, part_heads) = spec.expand();
        let ghost orig = generated_rows@;
        proof {
            assert forall|f: int, k: int|
                0 <= f < orig.len() && 0 <= k < orig[f]@.len() implies #[trigger] orig[f]@[k].rows@.len() >= 1 by {
                assert(orig[f]@[k].rows@.len() == spec.part_heads@.len());
            }
            assert forall|f: int| 0 <= f < orig.len() implies #[trigger] orig[f]@.len() >= 1
                && orig[f]@[0].rows@.len() >= 1 && orig[f]@.last().rows@.len() >= 1 by {
                assert(orig[f]@.len() == spec.frags@[f].rows@.len());
                assert(orig[f]@[0].rows@.len() == spec.part_heads@.len());
                assert(orig[f]@[orig[f]@.len() - 1].rows@.len() == spec.part_heads@.len());
            }
        }
        proof {
            lemma_proved_count_of_spec(orig, spec.frags@, orig.len());
        }
        let (flat, part_len) = flatten_proved_rows(&generated_rows);
        let ghost flat_seq = flat@;
        let ghost fv = flat_view(flat@);
        let (false_rows, num_false_rows) = gen_false_row_groups(flat);
        proof {
            lemma_false_count_zero(fv, fv.len());
            if false_rows@.len() > 0 {
                assert(false_rows@[0]@.len() >= 2);
                let i = choose|i: int|
                    0 <= i < flat_seq.len() && false_rows@[0]@ == sorted_group(fv, flat_seq[i].1@);
                lemma_sorted_group_len(fv, flat_seq[i].1@);
                assert(fv[i].1 == flat_seq[i].1@);
                assert(is_false_at(fv, i));
            }
            if num_false_rows > 0 {
                let i = choose|i: int| 0 <= i < fv.len() && is_false_at(fv, i);
                assert(fv[i].1 == flat_seq[i].1@);
                let j = choose|j: int|
                    0 <= j < false_rows@.len() && (#[trigger] false_rows@[j])@ == sorted_group(fv, flat_seq[i].1@);
            }
        }
        let ghost gs = group_views(false_rows@);
        proof {
            assert forall|j: int| 0 <= j < gs.len() implies (#[trigger] gs[j]).len() >= 2 && exists|i: int|
                0 <= i < fv.len() && gs[j] == sorted_group(fv, fv[i].1) by {
                assert(gs[j] == false_rows@[j]@);
                let i = choose|i: int|
                    0 <= i < flat_seq.len() && false_rows@[j]@ == sorted_group(fv, flat_seq[i].1@);
                assert(fv[i].1 == flat_seq[i].1@);
            }
            assert forall|i: int| 0 <= i < fv.len() && is_false_at(fv, i) implies exists|j: int|
                0 <= j < gs.len() && #[trigger] gs[j] == sorted_group(fv, fv[i].1) by {
                assert(fv[i].1 == flat_seq[i].1@);
                let j = choose|j: int|
                    0 <= j < false_rows@.len() && (#[trigger] false_rows@[j])@ == sorted_group(fv, flat_seq[i].1@);
                assert(gs[j] == false_rows@[j]@);
            }
            assert forall|j1: int, j2: int|
                0 <= j1 < gs.len() && 0 <= j2 < gs.len() && j1 != j2 implies #[trigger] gs[j1] != #[trigger] gs[j2] by {
                assert(gs[j1] == false_rows@[j1]@ && gs[j2] == false_rows@[j2]@);
            }
            assert(false_groups_of(fv, gs));
        }
        let (ranges, num_false_groups) = coalesce_false_row_groups(false_rows);
        let ghost sorted = choose|sorted: Seq<Seq<RowLocation>>|
            groups_sorted(sorted) && sorted.len() == gs.len() && (forall|x: Seq<RowLocation>|
                #[trigger] sorted.contains(x) <==> gs.contains(x)) && sorted.to_multiset()
                == gs.to_multiset() && num_false_groups
                == meta_count(sorted, sorted.len()) && (sorted.len() > 0 ==> ranges@ == coalesced(
                sorted,
                1,
                0,
                0,
            ));
        proof {
            assert(sorted_arrangement(gs, sorted));
            if sorted.len() == 0 {
                assert(ranges@ =~= Seq::empty());
            }
        }
        let (frag_links, frag_link_groups) = gen_frag_links(&generated_rows);
        let mut annot_frags: Vec<AnnotFrag> = Vec::new();
        let mut gen = generated_rows;
        let mut i: usize = 0;
        let num_frags = spec.frags.len();
        while gen.len() > 0
            invariant
                spec.wf(),
                num_frags == orig.len(),
                orig.len() == spec.frags@.len(),
                frag_link_groups@.len() == orig.len(),
                i + gen@.len() == orig.len(),
                annot_frags@.len() == i,
                exp_rows_of(annot_frags@) == orig.subrange(0, i as int),
                gen@ == orig.subrange(i as int, orig.len() as int),
                forall|f: int| 0 <= f < i ==> (#[trigger] annot_frags@[f]).is_proved == !spec.frags@[f].is_muted,
                forall|f: int| 0 <= f < i ==> (#[trigger] annot_frags@[f]).link_groups == frag_link_groups@[f],
                forall|f: int|
                    0 <= f < i ==> (#[trigger] annot_frags@[f]).false_row_ranges@ == ranges_for(
                        ranges@,
                        f as usize,
                        ranges@.len(),
                    ),
                forall|k: int|
                    0 <= k < ranges@.len() ==> (#[trigger] ranges@[k]).1.start <= ranges@[k].1.end
                        && ranges@[k].1.group < num_false_groups,
                forall|f: int, k: int|
                    0 <= f < i && 0 <= k < annot_frags@[f].false_row_ranges@.len()
                        ==> (#[trigger] annot_frags@[f].false_row_ranges@[k]).start
                        <= annot_frags@[f].false_row_ranges@[k].end
                        && annot_frags@[f].false_row_ranges@[k].group < num_false_groups,
            decreases gen@.len(),
        {
            let exp_rows = gen.remove(0);
            let false_row_ranges = collect_ranges(&ranges, i);
            proof {
                lemma_ranges_for_bounded(ranges@, i, ranges@.len(), num_false_groups);
            }
            let ghost old_annot = annot_frags@;
            annot_frags.push(AnnotFrag {
                false_row_ranges,
                exp_rows,
                is_proved: !spec.frags[i].is_muted,
                link_groups: frag_link_groups[i],
            });
            proof {
                assert(exp_rows_of(annot_frags@) =~= orig.subrange(0, i + 1));
                assert(gen@ =~= orig.subrange(i + 1, orig.len() as int));
                assert forall|f: int, k: int|
                    0 <= f < i + 1 && 0 <= k < annot_frags@[f].false_row_ranges@.len()
                        implies (#[trigger] annot_frags@[f].false_row_ranges@[k]).start
                        <= annot_frags@[f].false_row_ranges@[k].end
                        && annot_frags@[f].false_row_ranges@[k].group < num_false_groups by {
                    if f < i {
                        assert(annot_frags@[f] == old_annot[f]);
                    }
                }
                assert forall|f: int| 0 <= f < i + 1 implies (#[trigger] annot_frags@[f]).false_row_ranges@
                    == ranges_for(ranges@, f as usize, ranges@.len()) by {
                    if f < i {
                        assert(annot_frags@[f] == old_annot[f]);
                    }
                }
            }
            i += 1;
        }
        proof {
            assert(exp_rows_of(annot_frags@) =~= orig);
            assert(annot_frags@.map_values(|a: AnnotFrag| a.link_groups) =~= frag_link_groups@);
        }
        let r = DerivedState {
            annot_frags,
            frag_links,
            stats: DerivedStats { part_len, num_false_rows, num_false_groups },
            part_heads,
            stage: spec.stage.as_usize(),
        };
        proof {
            assert(exp_rows_of(r.annot_frags@) == orig);
            assert(flat_frags(exp_rows_of(r.annot_frags@), r.annot_frags@.len()) == fv);
            assert(ranges_from(r, gs, sorted, ranges@));
        }
        r
    }
}

/// No entry is false exactly when the false count is zero.
proof fn lemma_false_count_zero(flat: Seq<(RowOrigin, Seq<usize>)>, k: nat)
    requires
        k <= flat.len(),
    ensures
        false_count(flat, k) == 0 <==> forall|i: int| 0 <= i < k ==> !is_false_at(flat, i),
    decreases k,
{
    if k > 0 {
        lemma_false_count_zero(flat, (k - 1) as nat);
    }
}

proof fn lemma_ranges_for_bounded(ranges: Seq<(usize, FalseRowRange)>, f: usize, k: nat, bound: usize)
    requires
        forall|j: int|
            0 <= j < ranges.len() ==> (#[trigger] ranges[j]).1.start <= ranges[j].1.end
                && ranges[j].1.group < bound,
    ensures
        forall|j: int|
            0 <= j < ranges_for(ranges, f, k).len() ==> (#[trigger] ranges_for(ranges, f, k)[j]).start
                <= ranges_for(ranges, f, k)[j].end && ranges_for(ranges, f, k)[j].group < bound,
    decreases k,
{
    if k > 0 && k <= ranges.len() {
        lemma_ranges_for_bounded(ranges, f, (k - 1) as nat, bound);
        let rest = ranges_for(ranges, f, (k - 1) as nat);
        assert(ranges[k - 1].1.start <= ranges[k - 1].1.end);
    }
}

/// An entry whose row is `v` puts its location into the group of `v`.
proof fn lemma_locs_with_contains(flat: Seq<(RowOrigin, Seq<usize>)>, v: Seq<usize>, k: nat, i: int)
    requires
        0 <= i < k <= flat.len(),
        flat[i].1 == v,
    ensures
        locs_with(flat, v, k).contains(loc_of(flat[i].0)),
        locs_with(flat, v, k).len() >= 1,
    decreases k,
{
    let prev = locs_with(flat, v, (k - 1) as nat);
    if i == k - 1 {
        assert(locs_with(flat, v, k) == prev.push(loc_of(flat[i].0)));
        assert(locs_with(flat, v, k)[prev.len() as int] == loc_of(flat[i].0));
    } else {
        lemma_locs_with_contains(flat, v, (k - 1) as nat, i);
        let w = choose|w: int| 0 <= w < prev.len() && prev[w] == loc_of(flat[i].0);
        if flat[k - 1].1 == v {
            assert(locs_with(flat, v, k)[w] == prev[w]);
        }
    }
}

/// Two entries whose row is `v` make the group of `v` hold at least two locations.
proof fn lemma_locs_with_two(flat: Seq<(RowOrigin, Seq<usize>)>, v: Seq<usize>, k: nat, i: int, j: int)
    requires
        0 <= i < j < k <= flat.len(),
        flat[i].1 == v,
        flat[j].1 == v,
    ensures
        locs_with(flat, v, k).len() >= 2,
    decreases k,
{
    if j == k - 1 {
        lemma_locs_with_contains(flat, v, (k - 1) as nat, i);
    } else {
        lemma_locs_with_two(flat, v, (k - 1) as nat, i, j);
    }
}

/// Two realised rows with the same value, wherever they come from, are false: both of them
/// are counted, and the one falseness group of that value holds both their locations.  (By
/// the contract of [`gen_false_row_groups`], that group is reported exactly once, however
/// many parts repeat it.)
pub proof fn lemma_repeated_row_grouped(flat: Seq<(RowOrigin, Seq<usize>)>, i: int, j: int)
    requires
        0 <= i < flat.len(),
        0 <= j < flat.len(),
        i != j,
        flat[i].1 == flat[j].1,
    ensures
        is_false_at(flat, i),
        is_false_at(flat, j),
        group_of(flat, flat[i].1) == group_of(flat, flat[j].1),
        group_of(flat, flat[i].1).contains(loc_of(flat[i].0)),
        group_of(flat, flat[i].1).contains(loc_of(flat[j].0)),
        sorted_group(flat, flat[i].1).contains(loc_of(flat[i].0)),
        sorted_group(flat, flat[i].1).contains(loc_of(flat[j].0)),
        sorted_by(sorted_group(flat, flat[i].1), loc_order()),
{
    let v = flat[i].1;
    if i < j {
        lemma_locs_with_two(flat, v, flat.len(), i, j);
    } else {
        lemma_locs_with_two(flat, v, flat.len(), j, i);
    }
    lemma_locs_with_contains(flat, v, flat.len(), i);
    lemma_locs_with_contains(flat, v, flat.len(), j);
    lemma_sorted_group_len(flat, v);
}

/// Falseness repeated across parts is reported once: where several false rows (as the same
/// pair of skeleton rows realised in every part) have the same sorted locations, the
/// falseness groups hold exactly one group with those locations.
pub proof fn lemma_repeated_falseness_reported_once(
    flat: Seq<(RowOrigin, Seq<usize>)>,
    gs: Seq<Seq<RowLocation>>,
    i: int,
    j: int,
)
    requires
        false_groups_of(flat, gs),
        0 <= i < flat.len(),
        0 <= j < flat.len(),
        is_false_at(flat, i),
        sorted_group(flat, flat[i].1) == sorted_group(flat, flat[j].1),
    ensures
        exists|k: int|
            0 <= k < gs.len() && gs[k] == sorted_group(flat, flat[j].1) && forall|k2: int|
                0 <= k2 < gs.len() && #[trigger] gs[k2] == sorted_group(flat, flat[j].1) ==> k2 == k,
{
    let k = choose|k: int| 0 <= k < gs.len() && #[trigger] gs[k] == sorted_group(flat, flat[i].1);
    assert forall|k2: int| 0 <= k2 < gs.len() && #[trigger] gs[k2] == sorted_group(flat, flat[j].1) implies k2 == k by {
        if k2 != k {
            assert(gs[k2] != gs[k]);
        }
    }
}

} // verus!
