//! Ordering realised rows so that equal rows sit side by side: a total order on rows, a merge
//! sort of entry positions by it, and the fact that a run of equal rows in that order is
//! exactly the falseness group of that row.

use vstd::prelude::*;
use crate::derived_state::{flat_view, group_of, loc_of, locs_with, RowLocation, RowOrigin};
use crate::row::Row;

verus! {

/// Row `a` comes strictly before row `b`: lexicographically by bell index, a proper prefix
/// first.
pub open spec fn row_lt(a: Seq<usize>, b: Seq<usize>) -> bool
    decreases a.len(),
{
    if a.len() == 0 {
        b.len() > 0
    } else if b.len() == 0 {
        false
    } else if a[0] < b[0] {
        true
    } else if a[0] == b[0] {
        row_lt(a.drop_first(), b.drop_first())
    } else {
        false
    }
}

proof fn lemma_row_lt_trans(a: Seq<usize>, b: Seq<usize>, c: Seq<usize>)
    requires
        row_lt(a, b),
        row_lt(b, c),
    ensures
        row_lt(a, c),
    decreases a.len(),
{
    if a.len() > 0 && b.len() > 0 && c.len() > 0 && a[0] == b[0] && b[0] == c[0] {
        lemma_row_lt_trans(a.drop_first(), b.drop_first(), c.drop_first());
    }
}

proof fn lemma_row_lt_irreflexive(a: Seq<usize>)
    ensures
        !row_lt(a, a),
    decreases a.len(),
{
    if a.len() > 0 {
        lemma_row_lt_irreflexive(a.drop_first());
    }
}

proof fn lemma_row_lt_total(a: Seq<usize>, b: Seq<usize>)
    ensures
        a == b || row_lt(a, b) || row_lt(b, a),
    decreases a.len(),
{
    if a.len() > 0 && b.len() > 0 && a[0] == b[0] {
        lemma_row_lt_total(a.drop_first(), b.drop_first());
        if a.drop_first() == b.drop_first() {
            assert forall|k: int| 0 <= k < a.len() implies a[k] == b[k] by {
                if k > 0 {
                    assert(a[k] == a.drop_first()[k - 1]);
                    assert(b[k] == b.drop_first()[k - 1]);
                }
            }
            assert(a =~= b);
        }
    }
    if a.len() == 0 && b.len() == 0 {
        assert(a =~= b);
    }
}

/// Whether row `a` comes strictly before row `b` (see [`row_lt`]).
fn row_lt_exec(a: &Row, b: &Row) -> (r: bool)
    ensures
        r == row_lt(a@, b@),
{
    let n = a.len();
    let m = b.len();
    let mut k: usize = 0;
    proof {
        assert(a@.subrange(0, n as int) =~= a@);
        assert(b@.subrange(0, m as int) =~= b@);
    }
    while k < n && k < m && a.get(k).index == b.get(k).index
        invariant
            n == a@.len(),
            m == b@.len(),
            k <= n,
            k <= m,
            row_lt(a@, b@) == row_lt(a@.subrange(k as int, n as int), b@.subrange(k as int, m as int)),
        decreases n - k,
    {
        proof {
            let x = a@.subrange(k as int, n as int);
            let y = b@.subrange(k as int, m as int);
            assert(x.drop_first() =~= a@.subrange(k + 1, n as int));
            assert(y.drop_first() =~= b@.subrange(k + 1, m as int));
        }
        k += 1;
    }
    if k == n {
        return k < m;
    }
    if k == m {
        return false;
    }
    a.get(k).index < b.get(k).index
}

/// Entry `i` of `flat` comes strictly before entry `j`: by row, then by position.
pub open spec fn key_lt(flat: Seq<(RowOrigin, Seq<usize>)>, i: usize, j: usize) -> bool {
    row_lt(flat[i as int].1, flat[j as int].1) || (flat[i as int].1 == flat[j as int].1 && i < j)
}

proof fn lemma_key_trans(flat: Seq<(RowOrigin, Seq<usize>)>, i: usize, j: usize, k: usize)
    requires
        key_lt(flat, i, j),
        key_lt(flat, j, k),
    ensures
        key_lt(flat, i, k),
{
    let (a, b, c) = (flat[i as int].1, flat[j as int].1, flat[k as int].1);
    if row_lt(a, b) && row_lt(b, c) {
        lemma_row_lt_trans(a, b, c);
    }
}

proof fn lemma_key_total(flat: Seq<(RowOrigin, Seq<usize>)>, i: usize, j: usize)
    requires
        i != j,
    ensures
        key_lt(flat, i, j) || key_lt(flat, j, i),
{
    lemma_row_lt_total(flat[i as int].1, flat[j as int].1);
}

proof fn lemma_key_irreflexive(flat: Seq<(RowOrigin, Seq<usize>)>, i: usize)
    ensures
        !key_lt(flat, i, i),
{
    lemma_row_lt_irreflexive(flat[i as int].1);
}

/// The entries named by `s` are in strictly increasing order.
pub open spec fn idx_sorted(flat: Seq<(RowOrigin, Seq<usize>)>, s: Seq<usize>) -> bool {
    forall|a: int, b: int| 0 <= a < b < s.len() ==> key_lt(flat, #[trigger] s[a], #[trigger] s[b])
}

/// Every entry of `s` names an entry of `flat`.
pub open spec fn in_range(flat: Seq<(RowOrigin, Seq<usize>)>, s: Seq<usize>) -> bool {
    forall|a: int| 0 <= a < s.len() ==> #[trigger] s[a] < flat.len()
}

/// Whether entry `i` comes before entry `j` (see [`key_lt`]).
fn key_lt_exec(flat: &Vec<(RowOrigin, Row)>, i: usize, j: usize) -> (r: bool)
    requires
        i < flat@.len(),
        j < flat@.len(),
    ensures
        r == key_lt(flat_view(flat@), i, j),
{
    let ghost fv = flat_view(flat@);
    assert(fv[i as int].1 == flat@[i as int].1@);
    assert(fv[j as int].1 == flat@[j as int].1@);
    if row_lt_exec(&flat[i].1, &flat[j].1) {
        true
    } else {
        flat[i].1 == flat[j].1 && i < j
    }
}

proof fn lemma_push_contains(s: Seq<usize>, x: usize)
    ensures
        forall|y: usize| #[trigger] s.push(x).contains(y) <==> (s.contains(y) || y == x),
{
    assert forall|y: usize| #[trigger] s.push(x).contains(y) <==> (s.contains(y) || y == x) by {
        let t = s.push(x);
        if t.contains(y) {
            let a = choose|a: int| 0 <= a < t.len() && t[a] == y;
            if a < s.len() {
                assert(s[a] == y);
            }
        }
        if s.contains(y) {
            let a = choose|a: int| 0 <= a < s.len() && s[a] == y;
            assert(t[a] == y);
        }
        if y == x {
            assert(t[s.len() as int] == y);
        }
    }
}

/// Merges two sorted, disjoint lists of entries into one sorted list.
fn merge(flat: &Vec<(RowOrigin, Row)>, l: Vec<usize>, r: Vec<usize>) -> (out: Vec<usize>)
    requires
        idx_sorted(flat_view(flat@), l@),
        idx_sorted(flat_view(flat@), r@),
        in_range(flat_view(flat@), l@),
        in_range(flat_view(flat@), r@),
        forall|a: int, b: int| 0 <= a < l@.len() && 0 <= b < r@.len() ==> l@[a] != r@[b],
    ensures
        idx_sorted(flat_view(flat@), out@),
        in_range(flat_view(flat@), out@),
        out@.len() == l@.len() + r@.len(),
        forall|x: usize| #[trigger] out@.contains(x) <==> (l@.contains(x) || r@.contains(x)),
{
    let ghost fv = flat_view(flat@);
    let mut out: Vec<usize> = Vec::new();
    let mut i: usize = 0;
    let mut j: usize = 0;
    while i < l.len() || j < r.len()
        invariant
            fv == flat_view(flat@),
            fv.len() == flat@.len(),
            idx_sorted(fv, l@),
            idx_sorted(fv, r@),
            in_range(fv, l@),
            in_range(fv, r@),
            forall|a: int, b: int| 0 <= a < l@.len() && 0 <= b < r@.len() ==> l@[a] != r@[b],
            i <= l@.len(),
            j <= r@.len(),
            out@.len() == i + j,
            idx_sorted(fv, out@),
            in_range(fv, out@),
            forall|a: int, b: int| 0 <= a < out@.len() && i <= b < l@.len() ==> key_lt(fv, #[trigger] out@[a], #[trigger] l@[b]),
            forall|a: int, b: int| 0 <= a < out@.len() && j <= b < r@.len() ==> key_lt(fv, #[trigger] out@[a], #[trigger] r@[b]),
            forall|x: usize|
                #[trigger] out@.contains(x) <==> (l@.subrange(0, i as int).contains(x) || r@.subrange(
                    0,
                    j as int,
                ).contains(x)),
        decreases l@.len() + r@.len() - i - j,
    {
        let take_left = if i < l.len() && j < r.len() {
            key_lt_exec(flat, l[i], r[j])
        } else {
            i < l.len()
        };
        let ghost old_out = out@;
        let x = if take_left {
            l[i]
        } else {
            r[j]
        };
        proof {
            if i < l@.len() && j < r@.len() && !take_left {
                lemma_key_total(fv, l@[i as int], r@[j as int]);
            }
            if take_left {
                assert forall|b: int| i < b < l@.len() implies key_lt(fv, x, #[trigger] l@[b]) by {}
                assert forall|b: int| j <= b < r@.len() implies key_lt(fv, x, #[trigger] r@[b]) by {
                    if b > j {
                        lemma_key_trans(fv, x, r@[j as int], r@[b]);
                    }
                }
            } else {
                assert forall|b: int| j < b < r@.len() implies key_lt(fv, x, #[trigger] r@[b]) by {}
                assert forall|b: int| i <= b < l@.len() implies key_lt(fv, x, #[trigger] l@[b]) by {
                    if b > i {
                        lemma_key_trans(fv, x, l@[i as int], l@[b]);
                    }
                }
            }
        }
        out.push(x);
        proof {
            assert forall|a: int, b: int| 0 <= a < b < out@.len() implies key_lt(fv, #[trigger] out@[a], #[trigger] out@[b]) by {
                if b == out@.len() - 1 {
                    assert(out@[a] == old_out[a]);
                    if take_left {
                        assert(key_lt(fv, old_out[a], l@[i as int]));
                    } else {
                        assert(key_lt(fv, old_out[a], r@[j as int]));
                    }
                } else {
                    assert(out@[a] == old_out[a] && out@[b] == old_out[b]);
                }
            }
        }
        if take_left {
            i += 1;
        } else {
            j += 1;
        }
        proof {
            assert forall|a: int, b: int| 0 <= a < out@.len() && i <= b < l@.len() implies key_lt(fv, #[trigger] out@[a], #[trigger] l@[b]) by {
                if a < old_out.len() {
                    assert(out@[a] == old_out[a]);
                }
            }
            assert forall|a: int, b: int| 0 <= a < out@.len() && j <= b < r@.len() implies key_lt(fv, #[trigger] out@[a], #[trigger] r@[b]) by {
                if a < old_out.len() {
                    assert(out@[a] == old_out[a]);
                }
            }
            let li = l@.subrange(0, i as int);
            let rj = r@.subrange(0, j as int);
            if take_left {
                assert(li =~= l@.subrange(0, i - 1).push(x));
                assert(rj =~= r@.subrange(0, j as int));
            } else {
                assert(rj =~= r@.subrange(0, j - 1).push(x));
                assert(li =~= l@.subrange(0, i as int));
            }
            assert(out@ == old_out.push(x));
            lemma_push_contains(old_out, x);
            if take_left {
                lemma_push_contains(l@.subrange(0, i - 1), x);
            } else {
                lemma_push_contains(r@.subrange(0, j - 1), x);
            }
            assert forall|y: usize| #[trigger] out@.contains(y) <==> (li.contains(y) || rj.contains(y)) by {
                assert(old_out.push(x).contains(y) <==> (old_out.contains(y) || y == x));
            }
        }
    }
    proof {
        assert(l@.subrange(0, i as int) =~= l@);
        assert(r@.subrange(0, j as int) =~= r@);
    }
    out
}

/// Sorts distinct entry positions by the rows of their entries, then by position.
fn sort_entries(flat: &Vec<(RowOrigin, Row)>, v: Vec<usize>) -> (out: Vec<usize>)
    requires
        in_range(flat_view(flat@), v@),
        v@.no_duplicates(),
    ensures
        idx_sorted(flat_view(flat@), out@),
        in_range(flat_view(flat@), out@),
        out@.len() == v@.len(),
        forall|x: usize| #[trigger] out@.contains(x) <==> v@.contains(x),
    decreases v@.len(),
{
    let ghost fv = flat_view(flat@);
    let n = v.len();
    if n <= 1 {
        return v;
    }
    let mid = n / 2;
    let ghost whole = v@;
    let mut left = v;
    let right = left.split_off(mid);
    proof {
        assert forall|a: int, b: int| 0 <= a < left@.len() && 0 <= b < left@.len() && a != b implies left@[a]
            != left@[b] by {
            assert(left@[a] == whole[a] && left@[b] == whole[b]);
        }
        assert forall|a: int, b: int| 0 <= a < right@.len() && 0 <= b < right@.len() && a != b implies right@[a]
            != right@[b] by {
            assert(right@[a] == whole[a + mid] && right@[b] == whole[b + mid]);
        }
        assert forall|a: int| 0 <= a < left@.len() implies #[trigger] left@[a] < fv.len() by {
            assert(left@[a] == whole[a]);
        }
        assert forall|a: int| 0 <= a < right@.len() implies #[trigger] right@[a] < fv.len() by {
            assert(right@[a] == whole[a + mid]);
        }
    }
    let ghost lv = left@;
    let ghost rv = right@;
    let ls = sort_entries(flat, left);
    let rs = sort_entries(flat, right);
    proof {
        assert forall|a: int, b: int| 0 <= a < ls@.len() && 0 <= b < rs@.len() implies ls@[a] != rs@[b] by {
            assert(ls@.contains(ls@[a]));
            assert(rs@.contains(rs@[b]));
            let p = choose|p: int| 0 <= p < lv.len() && lv[p] == ls@[a];
            let q = choose|q: int| 0 <= q < rv.len() && rv[q] == rs@[b];
            assert(lv[p] == whole[p]);
            assert(rv[q] == whole[q + mid]);
        }
    }
    let out = merge(flat, ls, rs);
    proof {
        assert forall|x: usize| #[trigger] out@.contains(x) <==> whole.contains(x) by {
            if whole.contains(x) {
                let p = choose|p: int| 0 <= p < whole.len() && whole[p] == x;
                if p < mid {
                    assert(lv[p] == x);
                    assert(lv.contains(x));
                } else {
                    assert(rv[p - mid] == x);
                    assert(rv.contains(x));
                }
            }
            if lv.contains(x) {
                let p = choose|p: int| 0 <= p < lv.len() && lv[p] == x;
                assert(whole[p] == x);
            }
            if rv.contains(x) {
                let p = choose|p: int| 0 <= p < rv.len() && rv[p] == x;
                assert(whole[p + mid] == x);
            }
        }
    }
    out
}

/// The positions of `flat`, sorted by their rows and then by position.
pub fn sorted_positions(flat: &Vec<(RowOrigin, Row)>) -> (out: Vec<usize>)
    ensures
        idx_sorted(flat_view(flat@), out@),
        in_range(flat_view(flat@), out@),
        out@.len() == flat@.len(),
        forall|x: usize| x < flat@.len() ==> #[trigger] out@.contains(x),
{
    let n = flat.len();
    let mut v: Vec<usize> = Vec::new();
    let mut i: usize = 0;
    while i < n
        invariant
            n == flat@.len(),
            i <= n,
            v@.len() == i,
            forall|k: int| 0 <= k < i ==> #[trigger] v@[k] == k,
        decreases n - i,
    {
        v.push(i);
        i += 1;
    }
    proof {
        assert forall|x: usize| x < n implies #[trigger] v@.contains(x) by {
            assert(v@[x as int] == x);
        }
    }
    sort_entries(flat, v)
}

/// Row `a` comes no later than row `b`.
pub open spec fn row_le(a: Seq<usize>, b: Seq<usize>) -> bool {
    row_lt(a, b) || a == b
}

/// Positions in strictly increasing order.
pub open spec fn increasing(q: Seq<usize>) -> bool {
    forall|a: int, b: int| 0 <= a < b < q.len() ==> #[trigger] q[a] < #[trigger] q[b]
}

/// The locations of the entries at positions `q`, in order.
pub open spec fn locs_at(flat: Seq<(RowOrigin, Seq<usize>)>, q: Seq<usize>) -> Seq<RowLocation> {
    Seq::new(q.len(), |t: int| loc_of(flat[q[t] as int].0))
}

/// Listing, in increasing order, the positions below `k` whose row is `v` gives the
/// locations of the group of `v` up to `k`.
proof fn lemma_locs_with_enum(flat: Seq<(RowOrigin, Seq<usize>)>, v: Seq<usize>, k: nat, q: Seq<usize>)
    requires
        k <= flat.len(),
        flat.len() <= usize::MAX,
        increasing(q),
        forall|t: int| 0 <= t < q.len() ==> #[trigger] q[t] < k && flat[q[t] as int].1 == v,
        forall|j: usize| j < k && flat[j as int].1 == v ==> #[trigger] q.contains(j),
    ensures
        locs_with(flat, v, k) == locs_at(flat, q),
    decreases k,
{
    if k == 0 {
        if q.len() > 0 {
            assert(q[0] < k);
        }
        assert(locs_at(flat, q) =~= Seq::empty());
    } else {
        let j = (k - 1) as usize;
        if flat[j as int].1 == v {
            assert(q.contains(j));
            let p = choose|p: int| 0 <= p < q.len() && q[p] == j;
            assert(q[q.len() - 1] < k);
            if p < q.len() - 1 {
                assert(q[p] < q[q.len() - 1]);
            }
            assert(p == q.len() - 1);
            assert(q[q.len() - 1] == j);
            let q2 = q.drop_last();
            assert forall|x: usize| x < k - 1 && flat[x as int].1 == v implies #[trigger] q2.contains(x) by {
                assert(q.contains(x));
                let a = choose|a: int| 0 <= a < q.len() && q[a] == x;
                assert(a != q.len() - 1);
                assert(q2[a] == x);
            }
            assert forall|t: int| 0 <= t < q2.len() implies #[trigger] q2[t] < k - 1 && flat[q2[t] as int].1 == v by {
                assert(q[t] < q[q.len() - 1]);
            }
            lemma_locs_with_enum(flat, v, (k - 1) as nat, q2);
            assert(locs_at(flat, q) =~= locs_at(flat, q2).push(loc_of(flat[j as int].0)));
        } else {
            assert forall|t: int| 0 <= t < q.len() implies #[trigger] q[t] < k - 1 && flat[q[t] as int].1 == v by {
                assert(q[t] != j);
            }
            lemma_locs_with_enum(flat, v, (k - 1) as nat, q);
        }
    }
}

/// Sorted positions name distinct entries.
pub proof fn lemma_sorted_distinct(flat: Seq<(RowOrigin, Seq<usize>)>, idx: Seq<usize>, a: int, b: int)
    requires
        idx_sorted(flat, idx),
        0 <= a < idx.len(),
        0 <= b < idx.len(),
        a != b,
    ensures
        idx[a] != idx[b],
{
    if a < b {
        assert(key_lt(flat, idx[a], idx[b]));
    } else {
        assert(key_lt(flat, idx[b], idx[a]));
    }
    lemma_key_irreflexive(flat, idx[a]);
}

/// In sorted positions, rows never decrease.
proof fn lemma_sorted_row_le(flat: Seq<(RowOrigin, Seq<usize>)>, idx: Seq<usize>, a: int, b: int)
    requires
        idx_sorted(flat, idx),
        0 <= a <= b < idx.len(),
    ensures
        row_le(flat[idx[a] as int].1, flat[idx[b] as int].1),
{
    if a < b {
        assert(key_lt(flat, idx[a], idx[b]));
    }
}

/// A maximal run of equal rows in the sorted positions lists, in increasing order, exactly
/// the entries with that row; so its locations are the group of that row.
pub proof fn lemma_run_is_group(flat: Seq<(RowOrigin, Seq<usize>)>, idx: Seq<usize>, s: int, e: int)
    requires
        idx_sorted(flat, idx),
        in_range(flat, idx),
        flat.len() <= usize::MAX,
        forall|x: usize| x < flat.len() ==> #[trigger] idx.contains(x),
        0 <= s < e <= idx.len(),
        forall|t: int| s <= t < e ==> flat[#[trigger] idx[t] as int].1 == flat[idx[s] as int].1,
        s == 0 || flat[idx[s - 1] as int].1 != flat[idx[s] as int].1,
        e == idx.len() || flat[idx[e] as int].1 != flat[idx[s] as int].1,
    ensures
        group_of(flat, flat[idx[s] as int].1) == locs_at(flat, idx.subrange(s, e)),
        group_of(flat, flat[idx[s] as int].1).len() == e - s,
{
    let v = flat[idx[s] as int].1;
    let q = idx.subrange(s, e);
    assert forall|a: int, b: int| 0 <= a < b < q.len() implies #[trigger] q[a] < #[trigger] q[b] by {
        assert(key_lt(flat, idx[s + a], idx[s + b]));
        lemma_row_lt_irreflexive(v);
    }
    assert forall|j: usize| j < flat.len() && flat[j as int].1 == v implies #[trigger] q.contains(j) by {
        assert(idx.contains(j));
        let t = choose|t: int| 0 <= t < idx.len() && idx[t] == j;
        if t < s {
            lemma_sorted_row_le(flat, idx, t, s - 1);
            lemma_sorted_row_le(flat, idx, s - 1, s);
            let w = flat[idx[s - 1] as int].1;
            assert(row_lt(w, v));
            if row_lt(v, w) {
                lemma_row_lt_trans(v, w, v);
            }
            lemma_row_lt_irreflexive(v);
        } else if t >= e {
            lemma_sorted_row_le(flat, idx, e, t);
            lemma_sorted_row_le(flat, idx, s, e);
            let w = flat[idx[e] as int].1;
            assert(row_lt(v, w));
            if row_lt(w, v) {
                lemma_row_lt_trans(v, w, v);
            }
            lemma_row_lt_irreflexive(v);
        } else {
            assert(q[t - s] == j);
        }
    }
    assert forall|t: int| 0 <= t < q.len() implies #[trigger] q[t] < flat.len() && flat[q[t] as int].1 == v by {
        assert(q[t] == idx[s + t]);
    }
    lemma_locs_with_enum(flat, v, flat.len(), q);
}

} // verus!
