//! Runs of bells at the front and back of rows, and the places that they highlight.

use vstd::prelude::*;
use crate::bell::Bell;
use crate::row::Row;
use crate::stage::Stage;

verus! {

/// Two bells are next to each other in order, one way or the other.
pub open spec fn next_to(x: usize, y: usize) -> bool {
    x == y + 1 || y == x + 1
}

/// The number of consecutive steps between neighbouring bells from the front of `s`.
pub open spec fn run_steps(s: Seq<usize>) -> nat
    decreases s.len(),
{
    if s.len() < 2 {
        0
    } else if next_to(s[0], s[1]) {
        1 + run_steps(s.drop_first())
    } else {
        0
    }
}

/// The length of the run at the front of `s`: the longest prefix in which each bell is next
/// to the one before it (at least one, even for no bells).
pub open spec fn run_len_spec(s: Seq<usize>) -> nat {
    run_steps(s) + 1
}

/// `s` back to front.
pub open spec fn reversed(s: Seq<usize>) -> Seq<usize> {
    Seq::new(s.len(), |i: int| s[s.len() - 1 - i])
}

/// Place `pos` of a row `s` on `n` bells is covered by music: by a front run of at least
/// four bells, or by a back run of at least four bells where it does not overlap the front
/// run.
pub open spec fn music_at(s: Seq<usize>, n: nat, pos: int) -> bool {
    let f = run_len_spec(s);
    let b = run_len_spec(reversed(s));
    ||| f >= 4 && 0 <= pos < f
    ||| b >= 4 && pos >= n - b && pos >= f && 0 <= pos < n
}

/// The parts among the first `k` whose row has music at place `pos`, in increasing order.
pub open spec fn music_parts(rows: Seq<Seq<usize>>, n: nat, pos: int, k: nat) -> Seq<usize>
    decreases k,
{
    if k == 0 || k > rows.len() {
        Seq::empty()
    } else {
        let rest = music_parts(rows, n, pos, (k - 1) as nat);
        if music_at(rows[k - 1], n, pos) {
            rest.push((k - 1) as usize)
        } else {
            rest
        }
    }
}

proof fn lemma_run_steps_bound(s: Seq<usize>)
    ensures
        s.len() >= 1 ==> run_steps(s) <= s.len() - 1,
    decreases s.len(),
{
    if s.len() >= 2 {
        lemma_run_steps_bound(s.drop_first());
    }
}

/// The length of the run at the front of `bells` (see [`run_len_spec`]).
pub fn run_len(bells: &[Bell]) -> (r: usize)
    ensures
        r == run_len_spec(bells@.map_values(|b: Bell| b.index)),
        bells@.len() >= 1 ==> r <= bells@.len(),
{
    let ghost s = bells@.map_values(|b: Bell| b.index);
    let n = bells.len();
    let mut i: usize = 0;
    proof {
        assert(s.subrange(0, n as int) =~= s);
    }
    while i + 1 < n && ((bells[i + 1].index < usize::MAX && bells[i].index == bells[i + 1].index
        + 1) || (bells[i].index < usize::MAX && bells[i + 1].index == bells[i].index + 1))
        invariant
            s == bells@.map_values(|b: Bell| b.index),
            n == s.len(),
            i < n || n == 0,
            run_steps(s) == i + run_steps(s.subrange(i as int, n as int)),
        decreases n - i,
    {
        proof {
            let t = s.subrange(i as int, n as int);
            assert(t.drop_first() =~= s.subrange(i + 1, n as int));
            assert(next_to(t[0], t[1]));
        }
        i += 1;
    }
    proof {
        lemma_run_steps_bound(s);
        if i + 1 < n {
            let t = s.subrange(i as int, n as int);
            assert(!next_to(t[0], t[1]));
        }
    }
    i + 1
}

/// The bells of a row, back to front.
fn reversed_bells(row: &Row) -> (r: Vec<Bell>)
    ensures
        r@.map_values(|b: Bell| b.index) == reversed(row@),
{
    let bells = row.slice();
    let n = bells.len();
    let mut out: Vec<Bell> = Vec::new();
    let mut i: usize = 0;
    while i < n
        invariant
            n == bells@.len(),
            bells@.map_values(|b: Bell| b.index) == row@,
            i <= n,
            out@.len() == i,
            forall|k: int| 0 <= k < i ==> #[trigger] out@[k] == bells@[n - 1 - k],
        decreases n - i,
    {
        out.push(bells[n - 1 - i]);
        i += 1;
    }
    assert(out@.map_values(|b: Bell| b.index) =~= reversed(row@));
    out
}

/// For each place of a row on `stage`, the parts whose row (in `all_rows`) has music there.
pub fn calculate_music(all_rows: &Vec<Row>, stage: Stage) -> (r: Vec<Vec<usize>>)
    requires
        forall|p: int| 0 <= p < all_rows@.len() ==> (#[trigger] all_rows@[p])@.len() == stage.num_bells,
    ensures
        r@.len() == stage.num_bells,
        forall|pos: int|
            0 <= pos < r@.len() ==> (#[trigger] r@[pos])@ == music_parts(
                all_rows@.map_values(|row: Row| row@),
                stage.num_bells as nat,
                pos,
                all_rows@.len(),
            ),
{
    let ghost rows = all_rows@.map_values(|row: Row| row@);
    let n = stage.as_usize();
    let parts = all_rows.len();
    let mut fronts: Vec<usize> = Vec::new();
    let mut backs: Vec<usize> = Vec::new();
    let mut p: usize = 0;
    while p < parts
        invariant
            rows == all_rows@.map_values(|row: Row| row@),
            parts == rows.len(),
            n == stage.num_bells,
            forall|q: int| 0 <= q < parts ==> (#[trigger] rows[q]).len() == n,
            p <= parts,
            fronts@.len() == p,
            backs@.len() == p,
            forall|q: int| 0 <= q < p ==> #[trigger] fronts@[q] == run_len_spec(rows[q]),
            forall|q: int| 0 <= q < p ==> #[trigger] backs@[q] == run_len_spec(reversed(rows[q])),
            forall|q: int| 0 <= q < p && n >= 1 ==> #[trigger] backs@[q] <= n,
        decreases parts - p,
    {
        assert(rows[p as int] == all_rows@[p as int]@);
        fronts.push(run_len(all_rows[p].slice()));
        let rev = reversed_bells(&all_rows[p]);
        backs.push(run_len(rev.as_slice()));
        p += 1;
    }
    let mut music: Vec<Vec<usize>> = Vec::new();
    let mut pos: usize = 0;
    while pos < n
        invariant
            rows == all_rows@.map_values(|row: Row| row@),
            parts == rows.len(),
            n == stage.num_bells,
            fronts@.len() == parts,
            backs@.len() == parts,
            forall|q: int| 0 <= q < parts ==> #[trigger] fronts@[q] == run_len_spec(rows[q]),
            forall|q: int| 0 <= q < parts ==> #[trigger] backs@[q] == run_len_spec(reversed(rows[q])),
            forall|q: int| 0 <= q < parts && n >= 1 ==> #[trigger] backs@[q] <= n,
            pos <= n,
            music@.len() == pos,
            forall|x: int|
                0 <= x < pos ==> (#[trigger] music@[x])@ == music_parts(rows, n as nat, x, parts as nat),
        decreases n - pos,
    {
        let mut here: Vec<usize> = Vec::new();
        let mut q: usize = 0;
        while q < parts
            invariant
                parts == rows.len(),
                fronts@.len() == parts,
                backs@.len() == parts,
                forall|q: int| 0 <= q < parts ==> #[trigger] fronts@[q] == run_len_spec(rows[q]),
                forall|q: int| 0 <= q < parts ==> #[trigger] backs@[q] == run_len_spec(reversed(rows[q])),
                forall|q: int| 0 <= q < parts && n >= 1 ==> #[trigger] backs@[q] <= n,
                pos < n,
                q <= parts,
                here@ == music_parts(rows, n as nat, pos as int, q as nat),
            decreases parts - q,
        {
            let f = fronts[q];
            let b = backs[q];
            let in_front = f >= 4 && pos < f;
            let in_back = b >= 4 && pos >= n - b && pos >= f;
            if in_front || in_back {
                here.push(q);
            }
            q += 1;
        }
        music.push(here);
        pos += 1;
    }
    music
}

} // verus!
