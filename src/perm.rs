//! Facts of the permutation algebra: associativity, inverses, and the order of a row.

use vstd::prelude::*;
use vstd::set_lib::{lemma_int_range, lemma_len_subset, lemma_map_size, set_int_range};
use vstd::relations::injective_on;
use crate::row::{is_perm, perm_mul, perm_pow, rounds_seq, Row};

verus! {

/// `n!`.
pub open spec fn factorial(n: nat) -> nat
    decreases n,
{
    if n == 0 {
        1
    } else {
        n * factorial((n - 1) as nat)
    }
}

/// Permuting is associative: `(a * b) * c == a * (b * c)`, wherever the entries of `b` index
/// `a` and those of `c` index `b`.
pub proof fn lemma_mul_assoc(a: Seq<usize>, b: Seq<usize>, c: Seq<usize>)
    requires
        forall|i: int| 0 <= i < b.len() ==> #[trigger] b[i] < a.len(),
        forall|i: int| 0 <= i < c.len() ==> #[trigger] c[i] < b.len(),
    ensures
        perm_mul(perm_mul(a, b), c) == perm_mul(a, perm_mul(b, c)),
{
    assert(perm_mul(perm_mul(a, b), c) =~= perm_mul(a, perm_mul(b, c)));
}

/// Row multiplication is associative over valid rows of one stage:
/// `(a * b) * c == a * (b * c)`.
pub proof fn lemma_row_mul_associative(a: Row, b: Row, c: Row)
    requires
        a.wf(),
        b.wf(),
        c.wf(),
        a@.len() == b@.len(),
        b@.len() == c@.len(),
    ensures
        perm_mul(perm_mul(a@, b@), c@) == perm_mul(a@, perm_mul(b@, c@)),
{
    lemma_mul_assoc(a@, b@, c@);
}

/// Rounds is neutral on either side.
proof fn lemma_mul_rounds(a: Seq<usize>)
    requires
        is_perm(a),
    ensures
        perm_mul(a, rounds_seq(a.len())) == a,
        perm_mul(rounds_seq(a.len()), a) == a,
{
    assert(perm_mul(a, rounds_seq(a.len())) =~= a);
    assert(perm_mul(rounds_seq(a.len()), a) =~= a);
}

/// Every power of a permutation is a permutation of the same length.
pub proof fn lemma_pow_perm(a: Seq<usize>, k: nat)
    requires
        is_perm(a),
    ensures
        is_perm(perm_pow(a, k)),
        perm_pow(a, k).len() == a.len(),
    decreases k,
{
    if k > 0 {
        lemma_pow_perm(a, (k - 1) as nat);
        crate::row::lemma_mul_perm(perm_pow(a, (k - 1) as nat), a);
    }
}

/// `a^(i + j) == a^i * a^j`.
proof fn lemma_pow_add(a: Seq<usize>, i: nat, j: nat)
    requires
        is_perm(a),
    ensures
        perm_pow(a, i + j) == perm_mul(perm_pow(a, i), perm_pow(a, j)),
    decreases j,
{
    lemma_pow_perm(a, i);
    if j == 0 {
        lemma_mul_rounds(perm_pow(a, i));
    } else {
        lemma_pow_add(a, i, (j - 1) as nat);
        lemma_pow_perm(a, (j - 1) as nat);
        lemma_pow_perm(a, (i + j - 1) as nat);
        lemma_mul_assoc(perm_pow(a, i), perm_pow(a, (j - 1) as nat), a);
        assert(perm_pow(a, i + j) == perm_mul(perm_pow(a, (i + j - 1) as nat), a));
    }
}

/// The value at `p` of `a^m`.
spec fn orbit(a: Seq<usize>, p: int, m: int) -> int {
    perm_pow(a, m as nat)[p] as int
}

/// Each position comes back to itself after between `1` and `n` applications of `a`.
proof fn lemma_position_returns(a: Seq<usize>, p: int) -> (k: nat)
    requires
        is_perm(a),
        0 <= p < a.len(),
    ensures
        1 <= k <= a.len(),
        perm_pow(a, k)[p] == p,
{
    let n = a.len() as int;
    let dom = set_int_range(0, n + 1);
    let f = |m: int| orbit(a, p, m);
    let img = dom.map(f);
    lemma_int_range(0, n + 1);
    lemma_int_range(0, n);
    assert(img.subset_of(set_int_range(0, n))) by {
        assert forall|x: int| img.contains(x) implies set_int_range(0, n).contains(x) by {
            let m = choose|m: int| dom.contains(m) && f(m) == x;
            lemma_pow_perm(a, m as nat);
        }
    }
    lemma_len_subset(img, set_int_range(0, n));
    if injective_on(f, dom) {
        lemma_map_size(dom, img, f);
        assert(false);
    }
    let (m1, m2) = choose|m1: int, m2: int|
        dom.contains(m1) && dom.contains(m2) && #[trigger] f(m1) == #[trigger] f(m2) && m1 != m2;
    let (lo, hi) = if m1 < m2 {
        (m1 as nat, m2 as nat)
    } else {
        (m2 as nat, m1 as nat)
    };
    let d = (hi - lo) as nat;
    lemma_pow_add(a, lo, d);
    assert(lo + d == hi);
    lemma_pow_perm(a, lo);
    lemma_pow_perm(a, d);
    let q = perm_pow(a, d)[p] as int;
    assert(perm_pow(a, lo)[q] == perm_pow(a, lo)[p]);
    d
}

/// Applying `a` a whole multiple of times that brings `p` back keeps bringing it back.
proof fn lemma_position_returns_multiple(a: Seq<usize>, p: int, k: nat, q: nat)
    requires
        is_perm(a),
        0 <= p < a.len(),
        perm_pow(a, k)[p] == p,
    ensures
        perm_pow(a, q * k)[p] == p,
    decreases q,
{
    if q == 0 {
    } else {
        let q1 = (q - 1) as nat;
        lemma_position_returns_multiple(a, p, k, q1);
        let m = q1 * k;
        assert(q * k == m + k) by (nonlinear_arith)
            requires
                q1 == q - 1,
                m == q1 * k,
        ;
        lemma_pow_add(a, m, k);
        lemma_pow_perm(a, k);
        lemma_pow_perm(a, m);
        assert(perm_pow(a, q * k) == perm_mul(perm_pow(a, m), perm_pow(a, k)));
        assert(perm_pow(a, q * k)[p] == perm_pow(a, m)[perm_pow(a, k)[p] as int]);
    }
}

/// Every `k` in `1..=n` divides `n!`; the result is the quotient.
proof fn lemma_divides_factorial(n: nat, k: nat) -> (q: nat)
    requires
        1 <= k <= n,
    ensures
        factorial(n) == q * k,
    decreases n,
{
    let g = factorial((n - 1) as nat);
    assert(factorial(n) == n * g);
    if k == n {
        assert(n * g == g * k) by (nonlinear_arith)
            requires
                k == n,
        ;
        g
    } else {
        let q0 = lemma_divides_factorial((n - 1) as nat, k);
        assert(n * g == (n * q0) * k) by (nonlinear_arith)
            requires
                g == q0 * k,
        ;
        n * q0
    }
}

/// `a^(n!)` is rounds, for a permutation `a` of `n` entries.
pub proof fn lemma_pow_factorial(a: Seq<usize>)
    requires
        is_perm(a),
    ensures
        perm_pow(a, factorial(a.len())) == rounds_seq(a.len()),
        factorial(a.len()) >= 1,
{
    let n = a.len();
    lemma_factorial_positive(n);
    lemma_pow_perm(a, factorial(n));
    assert forall|p: int| 0 <= p < n implies perm_pow(a, factorial(n))[p] == p by {
        let k = lemma_position_returns(a, p);
        let q = lemma_divides_factorial(n, k);
        lemma_position_returns_multiple(a, p, k, q);
    }
    assert(perm_pow(a, factorial(n)) =~= rounds_seq(n));
}

/// `n! >= 1`.
proof fn lemma_factorial_positive(n: nat)
    ensures
        factorial(n) >= 1,
    decreases n,
{
    if n > 0 {
        lemma_factorial_positive((n - 1) as nat);
        assert(n * factorial((n - 1) as nat) >= 1) by (nonlinear_arith)
            requires
                n >= 1,
                factorial((n - 1) as nat) >= 1,
        ;
    }
}

/// A power of rounds is rounds.
proof fn lemma_pow_of_rounds_multiple(a: Seq<usize>, l: nat, q: nat)
    requires
        is_perm(a),
        perm_pow(a, l) == rounds_seq(a.len()),
    ensures
        perm_pow(a, q * l) == rounds_seq(a.len()),
    decreases q,
{
    if q > 0 {
        let q1 = (q - 1) as nat;
        lemma_pow_of_rounds_multiple(a, l, q1);
        let m = q1 * l;
        assert(q * l == m + l) by (nonlinear_arith)
            requires
                q1 == q - 1,
                m == q1 * l,
        ;
        lemma_pow_add(a, m, l);
        lemma_pow_perm(a, 0);
        assert(perm_pow(a, 0) == rounds_seq(a.len()));
        lemma_mul_rounds(rounds_seq(a.len()));
        assert(perm_pow(a, m + l) == perm_mul(rounds_seq(a.len()), rounds_seq(a.len())));
    } else {
        assert(q * l == 0) by (nonlinear_arith)
            requires
                q == 0,
        ;
    }
}

/// The order of a row divides the factorial of its stage: where `l` is the least positive
/// number of times that `a` must be applied to reach rounds, `l` divides `n!`.
pub proof fn lemma_order_divides_factorial(a: Seq<usize>, l: nat)
    requires
        is_perm(a),
        l >= 1,
        perm_pow(a, l) == rounds_seq(a.len()),
        forall|k: nat| 1 <= k < l ==> perm_pow(a, k) != rounds_seq(a.len()),
    ensures
        factorial(a.len()) % l == 0,
{
    let f = factorial(a.len());
    lemma_pow_factorial(a);
    let q = f / l;
    let r = f % l;
    assert(f == q * l + r) by (nonlinear_arith)
        requires
            l >= 1,
            q == f / l,
            r == f % l,
    ;
    lemma_pow_of_rounds_multiple(a, l, q);
    lemma_pow_add(a, q * l, r);
    lemma_pow_perm(a, r);
    lemma_mul_rounds(perm_pow(a, r));
    if r != 0 {
        assert(perm_pow(a, r) == rounds_seq(a.len()));
        assert(1 <= r < l);
    }
}

} // verus!
