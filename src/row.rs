//! A row of bells, which is also a permutation of rounds.

use vstd::prelude::*;
use vstd::relations::injective_on;
use vstd::set_lib::{lemma_int_range, lemma_map_size, lemma_subset_equality, set_int_range};
use vstd::string::*;
use crate::bell::{display_name, index_of_name, lemma_name_round_trip, name_of_index, Bell, NUM_NAMED_BELLS};
use crate::stage::Stage;
use crate::text::push_text;
use vstd::arithmetic::power::pow;
use vstd::arithmetic::div_mod::{lemma_add_mod_noop, lemma_mul_mod_noop_right, lemma_small_mod};

verus! {

/// `s` is a permutation of `0..s.len()`: every entry is in range and no entry repeats.
pub open spec fn is_perm(s: Seq<usize>) -> bool {
    &&& s.len() <= usize::MAX
    &&& forall|i: int| 0 <= i < s.len() ==> #[trigger] s[i] < s.len()
    &&& forall|i: int, j: int| 0 <= i < s.len() && 0 <= j < s.len() && i != j ==> s[i] != s[j]
}

/// Rounds on `n` bells: the identity permutation.
pub open spec fn rounds_seq(n: nat) -> Seq<usize> {
    Seq::new(n, |i: int| i as usize)
}

/// Backrounds on `n` bells: the bells in descending order.
pub open spec fn backrounds_seq(n: nat) -> Seq<usize> {
    Seq::new(n, |i: int| (n - 1 - i) as usize)
}

/// Queens on `n` bells: the odd-numbered bells ascending, then the even-numbered ones.
pub open spec fn queens_seq(n: nat) -> Seq<usize> {
    Seq::new(
        n,
        |i: int|
            if i < (n + 1) / 2 {
                (2 * i) as usize
            } else {
                (2 * (i - (n + 1) / 2) + 1) as usize
            },
    )
}

/// `b` used to permute `a`: the entry at `i` is `a[b[i]]`.
pub open spec fn perm_mul(a: Seq<usize>, b: Seq<usize>) -> Seq<usize> {
    Seq::new(b.len(), |i: int| a[b[i] as int])
}

/// `a` permuted by itself `k` times over (rounds for `k == 0`).
pub open spec fn perm_pow(a: Seq<usize>, k: nat) -> Seq<usize>
    decreases k,
{
    if k == 0 {
        rounds_seq(a.len())
    } else {
        perm_mul(perm_pow(a, (k - 1) as nat), a)
    }
}

/// The bell at position `k` of `s` spoils it as a row on `s.len()` bells: it is out of range,
/// or it appeared earlier.
pub open spec fn bad_at(s: Seq<usize>, k: int) -> bool {
    s[k] >= s.len() || exists|j: int| 0 <= j < k && s[j] == s[k]
}

/// The error that the bell at position `k` of `s` stands for.
pub open spec fn error_at(s: Seq<usize>, k: int) -> InvalidRowError {
    if s[k] >= s.len() {
        InvalidRowError::BellOutOfStage(Bell { index: s[k] }, Stage { num_bells: s.len() as usize })
    } else {
        InvalidRowError::DuplicateBell(Bell { index: s[k] })
    }
}

/// The first error found by scanning `s` from position `k` on.
pub open spec fn first_error_from(s: Seq<usize>, k: nat) -> Option<InvalidRowError>
    decreases s.len() - k,
{
    if k >= s.len() {
        None
    } else if bad_at(s, k as int) {
        Some(error_at(s, k as int))
    } else {
        first_error_from(s, k + 1)
    }
}

/// The first error found by scanning `s` from the front, if any.
pub open spec fn validity_error(s: Seq<usize>) -> Option<InvalidRowError> {
    first_error_from(s, 0)
}

/// The bells named in `t`, in order, skipping characters that name no bell.
pub open spec fn bells_of_text(t: Seq<char>) -> Seq<usize>
    decreases t.len(),
{
    if t.len() == 0 {
        Seq::empty()
    } else {
        let rest = bells_of_text(t.drop_last());
        match index_of_name(t.last()) {
            Some(i) => rest.push(i),
            None => rest,
        }
    }
}

/// The names of the bells of `s`, left to right.
pub open spec fn row_text(s: Seq<usize>) -> Seq<char>
    decreases s.len(),
{
    if s.len() == 0 {
        Seq::empty()
    } else {
        row_text(s.drop_last()) + display_name(s.last())
    }
}

/// The first `k` bells of `s` read as a number in base `base`, the leftmost bell being the
/// least significant digit.
pub open spec fn mixed_radix(s: Seq<usize>, base: int, k: nat) -> int
    decreases k,
{
    if k == 0 || k > s.len() {
        0
    } else {
        mixed_radix(s, base, (k - 1) as nat) + s[k - 1] * pow(base, (k - 1) as nat)
    }
}

/// One more than the largest `usize`: the modulus of wrapping arithmetic.
pub open spec fn hash_modulus() -> int {
    usize::MAX as int + 1
}

/// All the ways in which a sequence of bells can fail to be a row.
///
/// No third kind is needed for a missing bell: in a sequence of `n` bells where one of
/// `0..n` is missing, some other bell is duplicated or out of range.
#[derive(Clone, Copy, Debug, PartialEq, Eq, Structural, Hash)]
pub enum InvalidRowError {
    /// A bell would appear twice.
    DuplicateBell(Bell),
    /// A bell is not within the stage of the row.
    BellOutOfStage(Bell, Stage),
}

/// The result of building a row with a validity check.
pub type RowResult = Result<Row, InvalidRowError>;

/// Two rows of different stages were combined.
#[derive(Clone, Copy, Debug, PartialEq, Eq, Structural, Hash)]
pub struct IncompatibleStages {
    /// The stage of the row being permuted.
    pub lhs_stage: Stage,
    /// The stage of the row doing the permuting.
    pub rhs_stage: Stage,
}

impl IncompatibleStages {
    /// `Ok` if the two stages are equal, else the error that carries both.
    pub fn test_err(lhs_stage: Stage, rhs_stage: Stage) -> (r: Result<(), IncompatibleStages>)
        ensures
            lhs_stage == rhs_stage ==> r is Ok,
            lhs_stage != rhs_stage ==> r == Err::<(), IncompatibleStages>(
                IncompatibleStages { lhs_stage, rhs_stage },
            ),
    {
        if lhs_stage == rhs_stage {
            Ok(())
        } else {
            Err(IncompatibleStages { lhs_stage, rhs_stage })
        }
    }
}

/// A sequence of bells.  A valid row (see [`Row::wf`]) holds every bell of its stage exactly
/// once; every constructor but [`Row::from_vec_unchecked`] guarantees that.
#[derive(Clone, Debug, PartialOrd, Ord, Hash)]
pub struct Row {
    bells: Vec<Bell>,
}

impl View for Row {
    type V = Seq<usize>;

    /// The indices of the bells, left to right.
    closed spec fn view(&self) -> Seq<usize> {
        self.bells@.map_values(|b: Bell| b.index)
    }
}

impl PartialEq for Row {
    fn eq(&self, other: &Row) -> (r: bool) {
        let n = self.bells.len();
        if n != other.bells.len() {
            return false;
        }
        let mut i: usize = 0;
        while i < n
            invariant
                n == self@.len(),
                n == other@.len(),
                i <= n,
                forall|k: int| 0 <= k < i ==> self@[k] == other@[k],
            decreases n - i,
        {
            if self.bells[i].index != other.bells[i].index {
                assert(self@[i as int] != other@[i as int]);
                return false;
            }
            i += 1;
        }
        assert(self@ =~= other@);
        true
    }
}

impl vstd::std_specs::cmp::PartialEqSpecImpl for Row {
    open spec fn obeys_eq_spec() -> bool {
        true
    }

    open spec fn eq_spec(&self, other: &Row) -> bool {
        self@ == other@
    }
}

impl Eq for Row {}

/// Some position of `s` holds `j`.
spec fn holds(s: Seq<usize>, j: int) -> bool {
    exists|i: int| 0 <= i < s.len() && s[i] == j
}

/// Every entry of a permutation is taken by some position.
proof fn lemma_perm_onto(s: Seq<usize>)
    requires
        is_perm(s),
    ensures
        forall|j: int| 0 <= j < s.len() ==> #[trigger] holds(s, j),
{
    let n = s.len() as int;
    let dom = set_int_range(0, n);
    let f = |i: int| s[i] as int;
    let img = dom.map(f);
    lemma_int_range(0, n);
    assert(injective_on(f, dom));
    lemma_map_size(dom, img, f);
    assert(img.subset_of(dom)) by {
        assert forall|x: int| img.contains(x) implies dom.contains(x) by {
            let i = choose|i: int| dom.contains(i) && f(i) == x;
        }
    }
    lemma_subset_equality(img, dom);
    assert forall|j: int| 0 <= j < s.len() implies #[trigger] holds(s, j) by {
        assert(dom.contains(j));
        assert(img.contains(j));
    }
}

/// The product of two permutations of one length is a permutation.
pub proof fn lemma_mul_perm(a: Seq<usize>, b: Seq<usize>)
    requires
        is_perm(a),
        is_perm(b),
        a.len() == b.len(),
    ensures
        is_perm(perm_mul(a, b)),
{
    let p = perm_mul(a, b);
    assert forall|i: int, j: int| 0 <= i < p.len() && 0 <= j < p.len() && i != j implies p[i]
        != p[j] by {
        assert(b[i] != b[j]);
    }
}

impl Row {
    /// This row holds every bell of its stage exactly once.
    pub open spec fn wf(&self) -> bool {
        is_perm(self@)
    }

    /// Rounds on `stage`: every bell in ascending order.
    pub fn rounds(stage: Stage) -> (r: Row)
        ensures
            r@ == rounds_seq(stage.num_bells as nat),
            r.wf(),
    {
        let n = stage.as_usize();
        let mut bells: Vec<Bell> = Vec::new();
        let mut i: usize = 0;
        while i < n
            invariant
                i <= n,
                bells@.len() == i,
                forall|k: int| 0 <= k < i ==> #[trigger] bells@[k].index == k,
            decreases n - i,
        {
            bells.push(Bell::from_index(i));
            i += 1;
        }
        let r = Row { bells };
        assert(r@ =~= rounds_seq(n as nat));
        r
    }

    /// Backrounds on `stage`: every bell in descending order.
    pub fn backrounds(stage: Stage) -> (r: Row)
        ensures
            r@ == backrounds_seq(stage.num_bells as nat),
            r.wf(),
    {
        let n = stage.as_usize();
        let mut bells: Vec<Bell> = Vec::new();
        let mut i: usize = 0;
        while i < n
            invariant
                i <= n,
                bells@.len() == i,
                forall|k: int| 0 <= k < i ==> #[trigger] bells@[k].index == n - 1 - k,
            decreases n - i,
        {
            bells.push(Bell::from_index(n - 1 - i));
            i += 1;
        }
        let r = Row { bells };
        assert(r@ =~= backrounds_seq(n as nat));
        r
    }

    /// Queens on `stage`: the odd-numbered bells ascending, then the even-numbered ones.
    pub fn queens(stage: Stage) -> (r: Row)
        ensures
            r@ == queens_seq(stage.num_bells as nat),
            r.wf(),
    {
        let n = stage.as_usize();
        let half = n - n / 2;
        let mut bells: Vec<Bell> = Vec::new();
        let mut i: usize = 0;
        while i < half
            invariant
                half == n - n / 2,
                i <= half,
                bells@.len() == i,
                forall|k: int| 0 <= k < i ==> #[trigger] bells@[k].index == 2 * k,
            decreases half - i,
        {
            bells.push(Bell::from_index(2 * i));
            i += 1;
        }
        let mut j: usize = 0;
        while j < n / 2
            invariant
                half == n - n / 2,
                j <= n / 2,
                bells@.len() == half + j,
                forall|k: int| 0 <= k < half ==> #[trigger] bells@[k].index == 2 * k,
                forall|k: int| half <= k < half + j ==> #[trigger] bells@[k].index == 2 * (k - half) + 1,
            decreases n / 2 - j,
        {
            bells.push(Bell::from_index(2 * j + 1));
            j += 1;
        }
        let r = Row { bells };
        assert(r@ =~= queens_seq(n as nat));
        r
    }

    /// The stage of this row: its number of bells.
    pub fn stage(&self) -> (r: Stage)
        ensures
            r.num_bells == self@.len(),
    {
        Stage::new(self.bells.len())
    }

    /// A hash that reads the row as a number in base `stage`, the leftmost bell being the least
    /// significant digit, wrapped to the width of `usize`.  Distinct rows get distinct hashes
    /// while `stage!` fits in a `usize` (up to 16 bells on 64-bit machines); beyond that,
    /// rows may collide.
    pub fn fast_hash(&self) -> (r: usize)
        ensures
            r as int == mixed_radix(self@, self@.len() as int, self@.len()) % hash_modulus(),
    {
        let n = self.bells.len();
        let ghost s = self@;
        let ghost m = hash_modulus();
        let mut accum: usize = 0;
        let mut multiplier: usize = 1;
        let mut i: usize = 0;
        proof {
            lemma_small_mod(0, m as nat);
            lemma_small_mod(1, m as nat);
            vstd::arithmetic::power::lemma_pow0(n as int);
        }
        while i < n
            invariant
                s == self@,
                n == s.len(),
                m == hash_modulus(),
                i <= n,
                accum as int == mixed_radix(s, n as int, i as nat) % m,
                multiplier as int == pow(n as int, i as nat) % m,
            decreases n - i,
        {
            let b = self.bells[i].index;
            assert(b == s[i as int]);
            let term = b.wrapping_mul(multiplier);
            let next = accum.wrapping_add(term);
            proof {
                let p = pow(n as int, i as nat);
                let prev = mixed_radix(s, n as int, i as nat);
                assert(term as int == (b as int * multiplier as int) % m);
                lemma_mul_mod_noop_right(b as int, p, m);
                assert(term as int == (b * p) % m);
                lemma_add_mod_noop(prev, b * p, m);
                assert(next as int == (accum as int + term as int) % m);
                assert(mixed_radix(s, n as int, (i + 1) as nat) == prev + b * p);
            }
            accum = next;
            let next_mult = multiplier.wrapping_mul(n);
            proof {
                let p = pow(n as int, i as nat);
                vstd::arithmetic::power::lemma_pow_adds(n as int, i as nat, 1);
                vstd::arithmetic::power::lemma_pow1(n as int);
                assert(pow(n as int, (i + 1) as nat) == p * n);
                vstd::arithmetic::mul::lemma_mul_is_commutative(multiplier as int, n as int);
                lemma_mul_mod_noop_right(n as int, p, m);
                vstd::arithmetic::mul::lemma_mul_is_commutative(p, n as int);
                assert(next_mult as int == (multiplier as int * n as int) % m);
            }
            multiplier = next_mult;
            i += 1;
        }
        accum
    }

    /// Builds a row from bells, checking that it holds each bell of its stage exactly once.
    /// On failure the error is that of the first bell, from the left, that is out of range or
    /// appeared earlier.
    fn check_validity(bells: Vec<Bell>) -> (r: RowResult)
        ensures
            r is Ok <==> is_perm(bells@.map_values(|b: Bell| b.index)),
            match r {
                Ok(row) => row@ == bells@.map_values(|b: Bell| b.index),
                Err(e) => validity_error(bells@.map_values(|b: Bell| b.index)) == Some(e),
            },
    {
        let ghost s = bells@.map_values(|b: Bell| b.index);
        let n = bells.len();
        let mut checklist: Vec<bool> = vec![false; n];
        let mut i: usize = 0;
        while i < n
            invariant
                n == s.len(),
                s == bells@.map_values(|b: Bell| b.index),
                checklist@.len() == n,
                i <= n,
                forall|k: int| 0 <= k < i ==> !bad_at(s, k),
                forall|v: int|
                    0 <= v < n ==> (#[trigger] checklist@[v] <==> exists|j: int|
                        0 <= j < i && s[j] == v),
                validity_error(s) == first_error_from(s, i as nat),
            decreases n - i,
        {
            let b = bells[i];
            assert(s[i as int] == b.index);
            if b.index >= n {
                return Err(InvalidRowError::BellOutOfStage(b, Stage::new(n)));
            }
            if checklist[b.index] {
                return Err(InvalidRowError::DuplicateBell(b));
            }
            assert(!bad_at(s, i as int));
            checklist.set(b.index, true);
            i += 1;
            assert forall|v: int| 0 <= v < n implies (#[trigger] checklist@[v] <==> exists|j: int|
                0 <= j < i && s[j] == v) by {
                if checklist@[v] && v != b.index {
                    let j = choose|j: int| 0 <= j < i - 1 && s[j] == v;
                }
                if v == b.index {
                    assert(s[i - 1] == v);
                }
            }
        }
        assert forall|x: int, y: int| 0 <= x < s.len() && 0 <= y < s.len() && x != y implies s[x]
            != s[y] by {
            if x < y {
                assert(!bad_at(s, y));
            } else {
                assert(!bad_at(s, x));
            }
        }
        assert forall|k: int| 0 <= k < s.len() implies #[trigger] s[k] < s.len() by {
            assert(!bad_at(s, k));
        }
        Ok(Row { bells })
    }

    /// Builds a row from `bells`, checking its validity.
    pub fn from_vec(bells: Vec<Bell>) -> (r: RowResult)
        ensures
            r is Ok <==> is_perm(bells@.map_values(|b: Bell| b.index)),
            match r {
                Ok(row) => row@ == bells@.map_values(|b: Bell| b.index) && row.wf(),
                Err(e) => validity_error(bells@.map_values(|b: Bell| b.index)) == Some(e),
            },
    {
        Self::check_validity(bells)
    }

    /// Builds a row from a slice of bells, checking its validity.
    pub fn from_iter_checked(bells: &[Bell]) -> (r: RowResult)
        ensures
            r is Ok <==> is_perm(bells@.map_values(|b: Bell| b.index)),
            match r {
                Ok(row) => row@ == bells@.map_values(|b: Bell| b.index) && row.wf(),
                Err(e) => validity_error(bells@.map_values(|b: Bell| b.index)) == Some(e),
            },
    {
        let mut v: Vec<Bell> = Vec::new();
        let mut i: usize = 0;
        while i < bells.len()
            invariant
                i <= bells@.len(),
                v@ == bells@.subrange(0, i as int),
            decreases bells@.len() - i,
        {
            v.push(bells[i]);
            i += 1;
        }
        assert(v@ =~= bells@);
        Self::check_validity(v)
    }

    /// Builds a row from `bells` with no validity check.  The result is a valid row only
    /// where `bells` holds each bell of its stage exactly once.
    pub fn from_vec_unchecked(bells: Vec<Bell>) -> (r: Row)
        ensures
            r@ == bells@.map_values(|b: Bell| b.index),
    {
        Row { bells }
    }

    /// Parses the bells named in `s`, skipping characters that name no bell, then checks
    /// that they form a row.
    pub fn parse(s: &str) -> (r: RowResult)
        ensures
            r is Ok <==> is_perm(bells_of_text(s@)),
            match r {
                Ok(row) => row@ == bells_of_text(s@) && row.wf(),
                Err(e) => validity_error(bells_of_text(s@)) == Some(e),
            },
    {
        let len = s.unicode_len();
        let mut bells: Vec<Bell> = Vec::new();
        let mut i: usize = 0;
        while i < len
            invariant
                len == s@.len(),
                i <= len,
                bells@.map_values(|b: Bell| b.index) == bells_of_text(s@.subrange(0, i as int)),
            decreases len - i,
        {
            let c = s.get_char(i);
            let ghost pre = s@.subrange(0, i as int);
            assert(s@.subrange(0, i + 1).drop_last() =~= pre);
            match Bell::from_name(c) {
                Some(b) => {
                    bells.push(b);
                    assert(bells@.map_values(|b: Bell| b.index) =~= bells_of_text(pre).push(
                        b.index,
                    ));
                },
                None => {},
            }
            i += 1;
        }
        assert(s@.subrange(0, len as int) =~= s@);
        Self::check_validity(bells)
    }

    /// The bell at position `i`.
    pub fn get(&self, i: usize) -> (r: Bell)
        requires
            i < self@.len(),
        ensures
            r.index == self@[i as int],
    {
        self.bells[i]
    }

    /// The number of bells in this row.
    pub fn len(&self) -> (r: usize)
        ensures
            r == self@.len(),
    {
        self.bells.len()
    }

    /// The bells of this row, left to right.
    pub fn slice(&self) -> (r: &[Bell])
        ensures
            r@.map_values(|b: Bell| b.index) == self@,
    {
        self.bells.as_slice()
    }

    /// A copy of the bells of this row, left to right.
    pub fn bells(&self) -> (r: Vec<Bell>)
        ensures
            r@.map_values(|b: Bell| b.index) == self@,
    {
        let r = self.bells.clone();
        assert(r@.map_values(|b: Bell| b.index) =~= self@);
        r
    }

    /// A copy of this row.
    pub fn copied(&self) -> (r: Row)
        ensures
            r@ == self@,
    {
        let bells = self.bells.clone();
        assert(bells@.map_values(|b: Bell| b.index) =~= self@);
        Row { bells }
    }

    /// Whether this row is rounds.
    pub fn is_rounds(&self) -> (r: bool)
        ensures
            r == (self@ == rounds_seq(self@.len())),
    {
        let n = self.bells.len();
        let mut i: usize = 0;
        while i < n
            invariant
                n == self@.len(),
                i <= n,
                forall|k: int| 0 <= k < i ==> self@[k] == k,
            decreases n - i,
        {
            if self.bells[i].index != i {
                assert(self@[i as int] != rounds_seq(n as nat)[i as int]);
                return false;
            }
            i += 1;
        }
        assert(self@ =~= rounds_seq(n as nat));
        true
    }

    /// Uses `rhs` to permute this row, with no check of the stages: the bell at position `i`
    /// of the result is `self[rhs[i]]`.  The result is a valid row where both rows are valid
    /// and of one stage.
    pub fn mul_unchecked(&self, rhs: &Row) -> (r: Row)
        requires
            forall|i: int| 0 <= i < rhs@.len() ==> #[trigger] rhs@[i] < self@.len(),
        ensures
            r@ == perm_mul(self@, rhs@),
            self.wf() && rhs.wf() && self@.len() == rhs@.len() ==> r.wf(),
    {
        let n = rhs.bells.len();
        let mut bells: Vec<Bell> = Vec::new();
        let mut i: usize = 0;
        while i < n
            invariant
                n == rhs@.len(),
                forall|i: int| 0 <= i < rhs@.len() ==> #[trigger] rhs@[i] < self@.len(),
                i <= n,
                bells@.len() == i,
                forall|k: int| 0 <= k < i ==> #[trigger] bells@[k].index == self@[rhs@[k] as int],
            decreases n - i,
        {
            assert(rhs@[i as int] == rhs.bells@[i as int].index);
            bells.push(self.bells[rhs.bells[i].index]);
            i += 1;
        }
        let r = Row { bells };
        assert(r@ =~= perm_mul(self@, rhs@));
        proof {
            if self.wf() && rhs.wf() && self@.len() == rhs@.len() {
                lemma_mul_perm(self@, rhs@);
            }
        }
        r
    }

    /// Uses `rhs` to permute this row: the bell at position `i` of the result is
    /// `self[rhs[i]]`.  Fails where the stages differ, with both stages.
    pub fn mul(&self, rhs: &Row) -> (r: Result<Row, IncompatibleStages>)
        requires
            self.wf(),
            rhs.wf(),
        ensures
            self@.len() == rhs@.len() ==> r is Ok,
            self@.len() != rhs@.len() ==> r is Err,
            match r {
                Ok(p) => p@ == perm_mul(self@, rhs@) && p.wf(),
                Err(e) => self@.len() != rhs@.len() && e == (IncompatibleStages {
                    lhs_stage: Stage { num_bells: self@.len() as usize },
                    rhs_stage: Stage { num_bells: rhs@.len() as usize },
                }),
            },
    {
        match IncompatibleStages::test_err(self.stage(), rhs.stage()) {
            Ok(()) => Ok(self.mul_unchecked(rhs)),
            Err(e) => Err(e),
        }
    }

    /// The inverse of this row: the row that, multiplied with this one on either side, gives
    /// rounds.
    pub fn inverse(&self) -> (r: Row)
        requires
            self.wf(),
        ensures
            r.wf(),
            r@.len() == self@.len(),
            perm_mul(self@, r@) == rounds_seq(self@.len()),
            perm_mul(r@, self@) == rounds_seq(self@.len()),
    {
        let n = self.bells.len();
        let mut inv: Vec<Bell> = vec![Bell::from_index(0); n];
        let mut i: usize = 0;
        while i < n
            invariant
                n == self@.len(),
                is_perm(self@),
                inv@.len() == n,
                i <= n,
                forall|k: int| 0 <= k < i ==> #[trigger] inv@[self@[k] as int].index == k,
            decreases n - i,
        {
            assert(self@[i as int] == self.bells@[i as int].index);
            let b = self.bells[i].index;
            inv.set(b, Bell::from_index(i));
            assert forall|k: int| 0 <= k < i + 1 implies #[trigger] inv@[self@[k] as int].index
                == k by {
                if k < i {
                    assert(self@[k] != self@[i as int]);
                }
            }
            i += 1;
        }
        let r = Row { bells: inv };
        let ghost s = self@;
        proof {
            lemma_perm_onto(s);
            assert forall|j: int| 0 <= j < n implies r@[j] < n && s[r@[j] as int] == j by {
                assert(holds(s, j));
                let k = choose|k: int| 0 <= k < n && s[k] == j;
                assert(inv@[s[k] as int].index == k);
            }
            assert forall|x: int, y: int| 0 <= x < n && 0 <= y < n && x != y implies r@[x]
                != r@[y] by {
                assert(s[r@[x] as int] == x);
                assert(s[r@[y] as int] == y);
            }
            assert(perm_mul(s, r@) =~= rounds_seq(n as nat));
            assert forall|k: int| 0 <= k < n implies #[trigger] r@[s[k] as int] == k by {
                assert(inv@[s[k] as int].index == k);
            }
            assert(perm_mul(r@, s) =~= rounds_seq(n as nat));
        }
        r
    }

    /// The powers of this row, from itself up to and including the first that is rounds:
    /// repeatedly permuting by this row always reaches rounds, in at most `stage!` steps.
    pub fn closure(&self) -> (r: Vec<Row>)
        requires
            self.wf(),
        ensures
            r@.len() >= 1,
            forall|i: int| 0 <= i < r@.len() ==> (#[trigger] r@[i])@ == perm_pow(self@, (i + 1) as nat),
            forall|i: int| 0 <= i < r@.len() ==> (#[trigger] r@[i]).wf(),
            r@.last()@ == rounds_seq(self@.len()),
            forall|i: int| 0 <= i < r@.len() - 1 ==> (#[trigger] r@[i])@ != rounds_seq(self@.len()),
    {
        let ghost a = self@;
        let ghost f = crate::perm::factorial(a.len());
        proof {
            crate::perm::lemma_pow_factorial(a);
            assert(perm_pow(a, 0) == rounds_seq(a.len()));
            assert(perm_mul(rounds_seq(a.len()), a) =~= a);
            assert(perm_pow(a, 1) == perm_mul(perm_pow(a, 0), a));
        }
        let mut out: Vec<Row> = Vec::new();
        let mut row = self.copied();
        let ghost mut k: nat = 1;
        loop
            invariant
                a == self@,
                is_perm(a),
                f == crate::perm::factorial(a.len()),
                perm_pow(a, f) == rounds_seq(a.len()),
                1 <= k <= f,
                row@ == perm_pow(a, k),
                out@.len() == k - 1,
                forall|i: int| 0 <= i < out@.len() ==> (#[trigger] out@[i])@ == perm_pow(a, (i + 1) as nat),
                forall|i: int| 0 <= i < out@.len() ==> (#[trigger] out@[i]).wf(),
                forall|i: int| 0 <= i < out@.len() ==> (#[trigger] out@[i])@ != rounds_seq(a.len()),
            decreases f - k,
        {
            proof {
                crate::perm::lemma_pow_perm(a, k);
            }
            out.push(row.copied());
            if row.is_rounds() {
                return out;
            }
            assert(k != f);
            row = row.mul_unchecked(self);
            proof {
                k = k + 1;
            }
        }
    }

    /// Appends the names of the bells of this row, left to right, to `string`.
    pub fn push_to_string(&self, string: &mut String)
        requires
            forall|i: int| 0 <= i < self@.len() ==> #[trigger] self@[i] < usize::MAX,
        ensures
            final(string)@ == old(string)@ + row_text(self@),
    {
        let n = self.bells.len();
        let mut i: usize = 0;
        while i < n
            invariant
                n == self@.len(),
                forall|i: int| 0 <= i < self@.len() ==> #[trigger] self@[i] < usize::MAX,
                i <= n,
                string@ == old(string)@ + row_text(self@.subrange(0, i as int)),
            decreases n - i,
        {
            assert(self@[i as int] == self.bells@[i as int].index);
            let name = self.bells[i].name();
            push_text(string, name.as_str());
            proof {
                assert(self@.subrange(0, i + 1).drop_last() =~= self@.subrange(0, i as int));
                assert(row_text(self@.subrange(0, i + 1)) == row_text(self@.subrange(0, i as int))
                    + display_name(self@[i as int]));
            }
            i += 1;
        }
        assert(self@.subrange(0, n as int) =~= self@);
    }

    /// The names of the bells of this row, left to right.
    pub fn to_string(&self) -> (r: String)
        requires
            forall|i: int| 0 <= i < self@.len() ==> #[trigger] self@[i] < usize::MAX,
        ensures
            r@ == row_text(self@),
    {
        let mut s = String::new();
        self.push_to_string(&mut s);
        assert(s@ =~= row_text(self@));
        s
    }
}

/// Reading back the names of a row's bells gives that row again, where every bell has a
/// one-character name.
pub proof fn lemma_text_round_trip(s: Seq<usize>)
    requires
        forall|i: int| 0 <= i < s.len() ==> #[trigger] s[i] < NUM_NAMED_BELLS,
    ensures
        bells_of_text(row_text(s)) == s,
    decreases s.len(),
{
    if s.len() > 0 {
        let p = s.drop_last();
        lemma_text_round_trip(p);
        lemma_name_round_trip(s.last(), ' ');
        let c = name_of_index(s.last())->Some_0;
        let t = row_text(s);
        assert(t == row_text(p).push(c));
        assert(t.drop_last() =~= row_text(p));
        assert(s =~= p.push(s.last()));
    }
}

/// Parsing the displayed form of a valid row gives back that row, for rows of at most as
/// many bells as have one-character names.
pub proof fn lemma_parse_display(r: Row)
    requires
        r.wf(),
        r@.len() <= NUM_NAMED_BELLS,
    ensures
        bells_of_text(row_text(r@)) == r@,
        is_perm(bells_of_text(row_text(r@))),
        validity_error(bells_of_text(row_text(r@))) is None,
{
    lemma_text_round_trip(r@);
    lemma_perm_no_error(r@, 0);
}

/// A permutation has no validity error from any position on.
proof fn lemma_perm_no_error(s: Seq<usize>, k: nat)
    requires
        is_perm(s),
    ensures
        first_error_from(s, k) is None,
    decreases s.len() - k,
{
    if k < s.len() {
        assert(!bad_at(s, k as int));
        lemma_perm_no_error(s, k + 1);
    }
}

} // verus!
