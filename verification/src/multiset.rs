//! A `MultiSet` is a variation of a set where duplicate members are allowed,
//! held as an ordered sequence of scalars. It carries the operations the
//! lookup argument needs: sorting by canonical representative, order-aware
//! coverage testing, halving, and random-linear aggregation under a
//! challenge scalar.

use vstd::prelude::*;
use vstd::seq_lib::*;
use vstd::relations::*;
use vstd::arithmetic::div_mod::*;
use crate::scalar::Scalar;
use crate::scalar::fr_order;
use crate::scalar::lemma_value_injective;
use crate::scalar::scalar_from_nat;
use crate::scalar::lemma_scalar_from_nat_of_value;

verus! {

/// The order on scalars used throughout: by canonical integer
/// representative.
pub open spec fn scalar_le() -> spec_fn(Scalar, Scalar) -> bool {
    |a: Scalar, b: Scalar| a.value() <= b.value()
}

/// `scalar_le` is a total ordering (antisymmetry rests on the injectivity
/// of the limb representation).
pub proof fn lemma_scalar_le_total()
    ensures
        total_ordering(scalar_le()),
{
    assert forall|a: Scalar, b: Scalar| #[trigger] scalar_le()(a, b) && scalar_le()(b, a)
        implies a == b by {
        lemma_value_injective(a, b);
    }
}

/// Every element of the sequence is a canonical scalar.
pub open spec fn seq_wf(s: Seq<Scalar>) -> bool {
    forall|i: int| 0 <= i < s.len() ==> (#[trigger] s[i]).is_canonical()
}

/// `s` appears in `t` left to right: each element of `s` is matched by an
/// element of `t`, the match positions never move backwards, and a position
/// may be reused by consecutive equal elements.
pub open spec fn covered_by(s: Seq<Scalar>, t: Seq<Scalar>) -> bool
    decreases s.len() + t.len(),
{
    if s.len() == 0 {
        true
    } else if t.len() == 0 {
        false
    } else if t[0] == s[0] {
        covered_by(s.drop_first(), t)
    } else {
        covered_by(s, t.drop_first())
    }
}

/// The coordinate `j` of a sequence, read as a value and padded with zeros
/// past its end.
pub open spec fn padded_at(s: Seq<Scalar>, j: int) -> nat {
    if 0 <= j < s.len() {
        s[j].value()
    } else {
        0
    }
}

/// The length of the longest sequence in `views`.
pub open spec fn max_len(views: Seq<Seq<Scalar>>) -> nat
    decreases views.len(),
{
    if views.len() == 0 {
        0
    } else {
        let rest = max_len(views.drop_first());
        if views[0].len() >= rest {
            views[0].len()
        } else {
            rest
        }
    }
}

/// Coordinate `j` of the random-linear aggregation of `views` under the
/// challenge `alpha`: `views[0][j] + alpha * views[1][j] + alpha^2 * ...`
/// (mod the field order), in Horner form, with zero padding past each
/// sequence's end.
pub open spec fn aggregate_at(views: Seq<Seq<Scalar>>, alpha: nat, j: int) -> nat
    decreases views.len(),
{
    if views.len() == 0 {
        0
    } else {
        (padded_at(views[0], j) + alpha * aggregate_at(views.drop_first(), alpha, j)) % fr_order()
    }
}

/// The whole aggregation of `views` under `alpha`, coordinate by
/// coordinate, as long as the longest view.
pub open spec fn aggregate_seq(views: Seq<Seq<Scalar>>, alpha: nat) -> Seq<Scalar> {
    Seq::new(max_len(views), |j: int| scalar_from_nat(aggregate_at(views, alpha, j)))
}

/// The sequences held by a list of borrowed multisets.
pub open spec fn set_views(sets: Seq<&MultiSet>) -> Seq<Seq<Scalar>> {
    sets.map_values(|m: &MultiSet| m@)
}

/// A multiset of scalars: an ordered sequence in which duplicates count.
#[derive(Clone, PartialEq, Eq, Debug)]
pub struct MultiSet(pub Vec<Scalar>);

impl View for MultiSet {
    type V = Seq<Scalar>;

    open spec fn view(&self) -> Seq<Scalar> {
        self.0@
    }
}

impl MultiSet {
    /// All members are canonical scalars.
    pub open spec fn wf(self) -> bool {
        seq_wf(self@)
    }

    /// Creates an empty multiset.
    pub fn new() -> (r: MultiSet)
        ensures
            r@ == Seq::<Scalar>::empty(),
            r.wf(),
    {
        MultiSet(Vec::new())
    }

    /// Pushes a value onto the end of the multiset.
    pub fn push(&mut self, value: Scalar)
        ensures
            final(self)@ == old(self)@.push(value),
    {
        self.0.push(value);
    }

    /// Pushes `n` copies of `value` onto the end of the multiset.
    #[verifier::loop_isolation(false)]
    pub fn extend(&mut self, n: usize, value: Scalar)
        ensures
            final(self)@ == old(self)@ + Seq::new(n as nat, |i: int| value),
    {
        let mut k: usize = 0;
        while k < n
            invariant
                k <= n,
                self@ == old(self)@ + Seq::new(k as nat, |i: int| value),
            decreases n - k,
        {
            self.0.push(value);
            proof {
                assert(old(self)@ + Seq::new((k + 1) as nat, |i: int| value) =~= (old(self)@
                    + Seq::new(k as nat, |i: int| value)).push(value));
            }
            k = k + 1;
        }
        proof {
            assert(self@ == old(self)@ + Seq::new(n as nat, |i: int| value));
        }
    }

    /// Fetches the last element in the multiset; the multiset must not be
    /// empty.
    pub fn last(&self) -> (r: Scalar)
        requires
            self@.len() >= 1,
        ensures
            r == self@.last(),
    {
        self.0[self.0.len() - 1]
    }

    /// The cardinality of the multiset.
    pub fn len(&self) -> (r: usize)
        ensures
            r == self@.len(),
    {
        self.0.len()
    }

    /// Whether `element` is a member of the multiset (linear scan).
    #[verifier::loop_isolation(false)]
    pub fn contains(&self, element: &Scalar) -> (r: bool)
        ensures
            r == self@.contains(*element),
    {
        let mut i: usize = 0;
        while i < self.0.len()
            invariant
                i <= self@.len(),
                forall|k: int| 0 <= k < i ==> self@[k] != *element,
            decreases self@.len() - i,
        {
            if self.0[i] == *element {
                return true;
            }
            i = i + 1;
        }
        false
    }

    /// Returns an ascending copy of the multiset, ordered by canonical
    /// representative.
    #[verifier::loop_isolation(false)]
    pub fn sort(&self) -> (r: MultiSet)
        ensures
            r@ == self@.sort_by(scalar_le()),
            r@.to_multiset() == self@.to_multiset(),
            sorted_by(r@, scalar_le()),
            self.wf() ==> r.wf(),
    {
        proof {
            lemma_scalar_le_total();
        }
        let mut out: Vec<Scalar> = Vec::new();
        let mut i: usize = 0;
        proof {
            assert(self@.subrange(0, 0) =~= Seq::<Scalar>::empty());
        }
        while i < self.0.len()
            invariant
                i <= self@.len(),
                out@.len() == i,
                sorted_by(out@, scalar_le()),
                out@.to_multiset() == self@.subrange(0, i as int).to_multiset(),
            decreases self@.len() - i,
        {
            let x = self.0[i];
            let mut j: usize = 0;
            while j < out.len() && !x.lt(&out[j])
                invariant
                    j <= out@.len(),
                    forall|k: int| 0 <= k < j ==> (#[trigger] out@[k]).value() <= x.value(),
                decreases out@.len() - j,
            {
                j = j + 1;
            }
            let ghost prev = out@;
            proof {
                assert(j == prev.len() || x.value() < prev[j as int].value());
            }
            out.insert(j, x);
            proof {
                to_multiset_insert(prev, j as int, x);
                to_multiset_build(self@.subrange(0, i as int), x);
                assert(self@.subrange(0, i + 1 as int) =~= self@.subrange(0, i as int).push(x));
                let now = out@;
                assert forall|m: int, n: int| 0 <= m < n < now.len() implies scalar_le()(
                    now[m],
                    now[n],
                ) by {
                    if n < j {
                        assert(now[m] == prev[m] && now[n] == prev[n]);
                    } else if n == j {
                        assert(now[n] == x && now[m] == prev[m]);
                    } else {
                        assert(now[n] == prev[n - 1]);
                        assert(x.value() < prev[j as int].value());
                        if j < n - 1 {
                            assert(scalar_le()(prev[j as int], prev[n - 1]));
                        }
                        if m < j {
                            assert(now[m] == prev[m]);
                            assert(scalar_le()(prev[m], prev[n - 1]));
                        } else if m == j {
                            assert(now[m] == x);
                        } else {
                            assert(now[m] == prev[m - 1]);
                            assert(scalar_le()(prev[m - 1], prev[n - 1]));
                        }
                    }
                }
            }
            i = i + 1;
        }
        proof {
            assert(self@.subrange(0, self@.len() as int) =~= self@);
            self@.lemma_sort_by_ensures(scalar_le());
            lemma_sorted_unique(out@, self@.sort_by(scalar_le()), scalar_le());
            if self.wf() {
                assert forall|k: int| 0 <= k < out@.len() implies (
                #[trigger] out@[k]).is_canonical() by {
                    assert(out@.contains(out@[k]));
                    to_multiset_contains(out@, out@[k]);
                    to_multiset_contains(self@, out@[k]);
                    assert(self@.contains(out@[k]));
                    let w = choose|w: int| 0 <= w < self@.len() && self@[w] == out@[k];
                    assert(self@[w].is_canonical());
                }
            }
        }
        MultiSet(out)
    }

    /// Concatenates two multisets, keeping order and without sorting.
    #[verifier::loop_isolation(false)]
    pub fn concatenate(&self, other: &MultiSet) -> (r: MultiSet)
        ensures
            r@ == self@ + other@,
    {
        let mut result: Vec<Scalar> = Vec::new();
        let mut i: usize = 0;
        while i < self.0.len()
            invariant
                i <= self@.len(),
                result@ == self@.subrange(0, i as int),
            decreases self@.len() - i,
        {
            result.push(self.0[i]);
            proof {
                assert(self@.subrange(0, i + 1 as int) =~= self@.subrange(0, i as int).push(
                    self@[i as int],
                ));
            }
            i = i + 1;
        }
        let mut k: usize = 0;
        while k < other.0.len()
            invariant
                k <= other@.len(),
                result@ == self@.subrange(0, self@.len() as int) + other@.subrange(0, k as int),
            decreases other@.len() - k,
        {
            result.push(other.0[k]);
            proof {
                assert(self@.subrange(0, self@.len() as int) + other@.subrange(0, k + 1 as int)
                    =~= (self@.subrange(0, self@.len() as int) + other@.subrange(0, k as int)).push(
                    other@[k as int],
                ));
            }
            k = k + 1;
        }
        proof {
            assert(self@.subrange(0, self@.len() as int) =~= self@);
            assert(other@.subrange(0, other@.len() as int) =~= other@);
            assert(result@ =~= self@ + other@);
        }
        MultiSet(result)
    }

    /// Whether the members of `self`, read left to right, appear in `t` in
    /// the same order, a position of `t` being reusable by consecutive
    /// equal members.
    ///
    /// `[1,2,2]` is covered by `[1,2,3]`; `[2,1]` is not covered by `[1,2]`.
    #[verifier::loop_isolation(false)]
    pub fn sorted_by(&self, t: &MultiSet) -> (r: bool)
        ensures
            r == covered_by(self@, t@),
    {
        let mut i: usize = 0;
        let mut e: usize = 0;
        proof {
            assert(self@.skip(0) =~= self@);
            assert(t@.skip(0) =~= t@);
        }
        while e < self.0.len()
            invariant
                e <= self@.len(),
                i <= t@.len(),
                covered_by(self@, t@) == covered_by(self@.skip(e as int), t@.skip(i as int)),
            decreases self@.len() - e,
        {
            let x = self.0[e];
            while i < t.0.len() && !(t.0[i] == x)
                invariant
                    i <= t@.len(),
                    covered_by(self@, t@) == covered_by(self@.skip(e as int), t@.skip(i as int)),
                decreases t@.len() - i,
            {
                proof {
                    let s1 = self@.skip(e as int);
                    let t1 = t@.skip(i as int);
                    assert(s1.len() > 0 && t1.len() > 0);
                    assert(t1[0] == t@[i as int] && s1[0] == self@[e as int]);
                    assert(t1.drop_first() =~= t@.skip(i + 1 as int));
                    assert(covered_by(s1, t1) == covered_by(s1, t1.drop_first()));
                }
                i = i + 1;
            }
            if i == t.0.len() {
                proof {
                    assert(self@.skip(e as int).len() > 0);
                    assert(t@.skip(i as int).len() == 0);
                    assert(!covered_by(self@.skip(e as int), t@.skip(i as int)));
                }
                return false;
            }
            proof {
                let s1 = self@.skip(e as int);
                let t1 = t@.skip(i as int);
                assert(s1.len() > 0 && t1.len() > 0);
                assert(t1[0] == t@[i as int] && s1[0] == self@[e as int]);
                assert(t1[0] == s1[0]);
                assert(s1.drop_first() =~= self@.skip(e + 1 as int));
                assert(covered_by(s1, t1) == covered_by(s1.drop_first(), t1));
            }
            e = e + 1;
        }
        proof {
            assert(self@.skip(e as int).len() == 0);
        }
        true
    }

    /// Whether every member of `self` occurs at least once in `other`,
    /// ignoring multiplicity. The caller must hand a candidate superset at
    /// least as large as `self`.
    #[verifier::loop_isolation(false)]
    pub fn is_subset_of(&self, other: &MultiSet) -> (r: bool)
        requires
            other@.len() >= self@.len(),
        ensures
            r == (forall|i: int| 0 <= i < self@.len() ==> other@.contains(#[trigger] self@[i])),
    {
        let mut e: usize = 0;
        while e < self.0.len()
            invariant
                e <= self@.len(),
                forall|k: int| 0 <= k < e ==> other@.contains(#[trigger] self@[k]),
            decreases self@.len() - e,
        {
            let inside = other.contains(&self.0[e]);
            if !inside {
                return false;
            }
            e = e + 1;
        }
        true
    }

    /// Splits the multiset into overlapping halves. On a sequence of odd
    /// length `2n+1` both halves have length `n+1` and share the middle
    /// element: the last of the first half is the first of the second.
    #[verifier::loop_isolation(false)]
    pub fn halve(&self) -> (r: (MultiSet, MultiSet))
        requires
            self@.len() >= 1,
        ensures
            r.0@ == self@.subrange(0, self@.len() as int / 2 + 1),
            r.1@ == self@.subrange(self@.len() as int / 2, self@.len() as int),
    {
        let length = self.0.len();
        let mid = length / 2;
        let mut first: Vec<Scalar> = Vec::new();
        let mut i: usize = 0;
        while i < mid + 1
            invariant
                i <= mid + 1,
                first@ == self@.subrange(0, i as int),
            decreases mid + 1 - i,
        {
            first.push(self.0[i]);
            proof {
                assert(self@.subrange(0, i + 1 as int) =~= self@.subrange(0, i as int).push(
                    self@[i as int],
                ));
            }
            i = i + 1;
        }
        let mut second: Vec<Scalar> = Vec::new();
        let mut k: usize = mid;
        while k < length
            invariant
                mid <= k <= self@.len(),
                second@ == self@.subrange(mid as int, k as int),
            decreases length - k,
        {
            second.push(self.0[k]);
            proof {
                assert(self@.subrange(mid as int, k + 1 as int) =~= self@.subrange(
                    mid as int,
                    k as int,
                ).push(self@[k as int]));
            }
            k = k + 1;
        }
        (MultiSet(first), MultiSet(second))
    }

    /// Elementwise modular sum, truncated to the shorter operand.
    #[verifier::loop_isolation(false)]
    pub fn add(&self, other: &MultiSet) -> (r: MultiSet)
        requires
            self.wf(),
            other.wf(),
        ensures
            r@.len() == if self@.len() <= other@.len() {
                self@.len()
            } else {
                other@.len()
            },
            forall|j: int|
                0 <= j < r@.len() ==> (#[trigger] r@[j]).value() == (self@[j].value()
                    + other@[j].value()) % fr_order(),
            r.wf(),
    {
        let n = if self.0.len() <= other.0.len() {
            self.0.len()
        } else {
            other.0.len()
        };
        let mut out: Vec<Scalar> = Vec::new();
        let mut j: usize = 0;
        while j < n
            invariant
                j <= n,
                out@.len() == j,
                forall|k: int|
                    0 <= k < j ==> (#[trigger] out@[k]).value() == (self@[k].value()
                        + other@[k].value()) % fr_order() && out@[k].is_canonical(),
            decreases n - j,
        {
            out.push(self.0[j].add(&other.0[j]));
            j = j + 1;
        }
        MultiSet(out)
    }

    /// Elementwise modular multiplication by a scalar.
    #[verifier::loop_isolation(false)]
    pub fn mul(&self, k: &Scalar) -> (r: MultiSet)
        requires
            self.wf(),
            k.is_canonical(),
        ensures
            r@.len() == self@.len(),
            forall|j: int|
                0 <= j < r@.len() ==> (#[trigger] r@[j]).value() == (self@[j].value() * k.value())
                    % fr_order(),
            r.wf(),
    {
        let mut out: Vec<Scalar> = Vec::new();
        let mut j: usize = 0;
        while j < self.0.len()
            invariant
                j <= self@.len(),
                out@.len() == j,
                forall|m: int|
                    0 <= m < j ==> (#[trigger] out@[m]).value() == (self@[m].value() * k.value())
                        % fr_order() && out@[m].is_canonical(),
            decreases self@.len() - j,
        {
            out.push(self.0[j].mul(k));
            j = j + 1;
        }
        MultiSet(out)
    }

    /// Aggregates multisets under a random challenge: for sets `A, B, C`
    /// and challenge `k` the result is `A + k*B + k^2*C` coordinatewise,
    /// each set padded with zeros up to the longest.
    #[verifier::loop_isolation(false)]
    pub fn aggregate(sets: Vec<&MultiSet>, challenge: Scalar) -> (r: MultiSet)
        requires
            forall|i: int| 0 <= i < sets@.len() ==> (#[trigger] sets@[i]).wf(),
            challenge.is_canonical(),
        ensures
            r@.len() == max_len(set_views(sets@)),
            forall|j: int|
                0 <= j < r@.len() ==> (#[trigger] r@[j]).value() == aggregate_at(
                    set_views(sets@),
                    challenge.value(),
                    j,
                ),
            r@ == aggregate_seq(set_views(sets@), challenge.value()),
            r.wf(),
    {
        let ghost views = set_views(sets@);
        proof {
            assert(views.skip(sets@.len() as int) =~= Seq::<Seq<Scalar>>::empty());
        }
        let mut max: usize = 0;
        let mut i: usize = sets.len();
        while i > 0
            invariant
                i <= sets@.len(),
                max == max_len(views.skip(i as int)),
            decreases i,
        {
            i = i - 1;
            proof {
                assert(views[i as int] == sets@[i as int]@);
                assert(views.skip(i as int)[0] == views[i as int]);
                assert(views.skip(i as int).drop_first() =~= views.skip(i + 1 as int));
            }
            if sets[i].0.len() >= max {
                max = sets[i].0.len();
            }
        }
        let mut result: Vec<Scalar> = Vec::new();
        let mut j0: usize = 0;
        while j0 < max
            invariant
                j0 <= max,
                result@.len() == j0,
                forall|k: int| 0 <= k < j0 ==> (#[trigger] result@[k]).value() == 0
                    && result@[k].is_canonical(),
            decreases max - j0,
        {
            result.push(Scalar::zero());
            j0 = j0 + 1;
        }
        let mut i2: usize = sets.len();
        proof {
            assert(max == max_len(views.skip(0)) && views.skip(0) =~= views);
            assert(aggregate_at(views.skip(i2 as int), challenge.value(), 0) == 0);
        }
        while i2 > 0
            invariant
                i2 <= sets@.len(),
                result@.len() == max_len(views),
                forall|k: int|
                    0 <= k < result@.len() ==> (#[trigger] result@[k]).value() == aggregate_at(
                        views.skip(i2 as int),
                        challenge.value(),
                        k,
                    ) && result@[k].is_canonical(),
            decreases i2,
        {
            i2 = i2 - 1;
            let current = sets[i2];
            proof {
                assert(views[i2 as int] == sets@[i2 as int]@);
                assert(views.skip(i2 as int)[0] == views[i2 as int]);
                assert(views.skip(i2 as int).drop_first() =~= views.skip(i2 + 1 as int));
            }
            let mut j: usize = 0;
            while j < result.len()
                invariant
                    j <= result@.len(),
                    result@.len() == max_len(views),
                    forall|k: int|
                        0 <= k < j ==> (#[trigger] result@[k]).value() == aggregate_at(
                            views.skip(i2 as int),
                            challenge.value(),
                            k,
                        ) && result@[k].is_canonical(),
                    forall|k: int|
                        j <= k < result@.len() ==> (#[trigger] result@[k]).value() == aggregate_at(
                            views.skip(i2 + 1 as int),
                            challenge.value(),
                            k,
                        ) && result@[k].is_canonical(),
                decreases result@.len() - j,
            {
                let x = if j < current.0.len() {
                    current.0[j]
                } else {
                    Scalar::zero()
                };
                proof {
                    assert(current@ == views[i2 as int]);
                    assert(x.value() == padded_at(views[i2 as int], j as int));
                }
                let rj = result[j];
                let scaled = challenge.mul(&rj);
                let combined = x.add(&scaled);
                proof {
                    lemma_add_mod_noop_right(
                        x.value() as int,
                        (challenge.value() * aggregate_at(
                            views.skip(i2 + 1 as int),
                            challenge.value(),
                            j as int,
                        )) as int,
                        fr_order() as int,
                    );
                    assert(combined.value() == aggregate_at(
                        views.skip(i2 as int),
                        challenge.value(),
                        j as int,
                    ));
                }
                result.set(j, combined);
                j = j + 1;
            }
        }
        proof {
            assert(views.skip(0) =~= views);
            assert forall|j: int| 0 <= j < result@.len() implies result@[j] == aggregate_seq(
                views,
                challenge.value(),
            )[j] by {
                lemma_scalar_from_nat_of_value(result@[j]);
            }
            assert(result@ =~= aggregate_seq(views, challenge.value()));
        }
        MultiSet(result)
    }
}

/// Sorting is idempotent: sorting a sorted sequence changes nothing, so
/// `sort(sort(s)) == sort(s)`.
pub proof fn lemma_sort_idempotent(s: Seq<Scalar>)
    ensures
        s.sort_by(scalar_le()).sort_by(scalar_le()) == s.sort_by(scalar_le()),
{
    lemma_scalar_le_total();
    s.lemma_sort_by_ensures(scalar_le());
    let once = s.sort_by(scalar_le());
    once.lemma_sort_by_ensures(scalar_le());
    lemma_sorted_unique(once.sort_by(scalar_le()), once, scalar_le());
}

/// Aggregating a single multiset under challenge 1 returns its values
/// unchanged.
pub proof fn lemma_aggregate_single(s: Seq<Scalar>, j: int)
    requires
        seq_wf(s),
        0 <= j < s.len(),
    ensures
        aggregate_at(seq![s], 1, j) == s[j].value(),
{
    assert(seq![s].drop_first() =~= Seq::<Seq<Scalar>>::empty());
    assert(aggregate_at(Seq::<Seq<Scalar>>::empty(), 1, j) == 0);
    assert(seq![s][0] == s);
    lemma_small_mod(s[j].value(), fr_order());
}

/// Aggregating a single multiset under challenge 1 returns it unchanged:
/// the whole aggregation of `[s]` at challenge 1 is `s` itself.
pub proof fn lemma_aggregate_single_seq(s: Seq<Scalar>)
    requires
        seq_wf(s),
    ensures
        aggregate_seq(seq![s], 1) == s,
{
    assert(seq![s].drop_first() =~= Seq::<Seq<Scalar>>::empty());
    assert(max_len(Seq::<Seq<Scalar>>::empty()) == 0);
    assert(seq![s][0] == s);
    assert(max_len(seq![s]) == s.len());
    assert forall|j: int| 0 <= j < s.len() implies aggregate_seq(seq![s], 1)[j] == s[j] by {
        lemma_aggregate_single(s, j);
        lemma_scalar_from_nat_of_value(s[j]);
    }
    assert(aggregate_seq(seq![s], 1) =~= s);
}

/// Aggregating two multisets: coordinate `j` is `a[j] + alpha * b[j]`
/// (mod the field order), with zero padding past each end.
pub proof fn lemma_aggregate_pair(a: Seq<Scalar>, b: Seq<Scalar>, alpha: nat, j: int)
    requires
        seq_wf(b),
        0 <= j,
    ensures
        aggregate_at(seq![a, b], alpha, j) == (padded_at(a, j) + alpha * padded_at(b, j))
            % fr_order(),
{
    assert(seq![a, b].drop_first() =~= seq![b]);
    assert(seq![b].drop_first() =~= Seq::<Seq<Scalar>>::empty());
    assert(aggregate_at(Seq::<Seq<Scalar>>::empty(), alpha, j) == 0);
    assert(seq![b][0] == b && seq![a, b][0] == a);
    if j < b.len() {
        assert(b[j].is_canonical());
    }
    assert(aggregate_at(seq![b], alpha, j) == (padded_at(b, j) + alpha * 0) % fr_order());
    lemma_small_mod(padded_at(b, j), fr_order());
    assert(aggregate_at(seq![b], alpha, j) == padded_at(b, j));
}

/// The length of the longest of three sequences.
pub proof fn lemma_max_len_three(a: Seq<Scalar>, b: Seq<Scalar>, c: Seq<Scalar>)
    ensures
        max_len(seq![a, b, c]) == if a.len() >= b.len() && a.len() >= c.len() {
            a.len()
        } else if b.len() >= c.len() {
            b.len()
        } else {
            c.len()
        },
{
    assert(seq![a, b, c].drop_first() =~= seq![b, c]);
    assert(seq![b, c].drop_first() =~= seq![c]);
    assert(seq![c].drop_first() =~= Seq::<Seq<Scalar>>::empty());
    assert(max_len(Seq::<Seq<Scalar>>::empty()) == 0);
    assert(seq![b, c][0] == b && seq![a, b, c][0] == a && seq![c][0] == c);
    assert(max_len(seq![c]) == c.len());
    assert(max_len(seq![b, c]) == if b.len() >= c.len() {
        b.len()
    } else {
        c.len()
    });
    assert(max_len(seq![a, b, c]) == if a.len() >= max_len(seq![b, c]) {
        a.len()
    } else {
        max_len(seq![b, c])
    });
}

/// The aggregation of three sequences, written out: coordinate `j` is
/// `a[j] + alpha * (b[j] + alpha * c[j])` under nested reduction mod the
/// field order, with zero padding past each end.
pub proof fn lemma_aggregate_at_three(
    a: Seq<Scalar>,
    b: Seq<Scalar>,
    c: Seq<Scalar>,
    alpha: nat,
    j: int,
)
    ensures
        aggregate_at(seq![a, b, c], alpha, j) == (padded_at(a, j) + alpha * ((padded_at(b, j)
            + alpha * ((padded_at(c, j) + alpha * 0) % fr_order())) % fr_order())) % fr_order(),
{
    assert(seq![a, b, c].drop_first() =~= seq![b, c]);
    assert(seq![b, c].drop_first() =~= seq![c]);
    assert(seq![c].drop_first() =~= Seq::<Seq<Scalar>>::empty());
    assert(aggregate_at(Seq::<Seq<Scalar>>::empty(), alpha, j) == 0);
    assert(seq![b, c][0] == b && seq![a, b, c][0] == a && seq![c][0] == c);
    assert(aggregate_at(seq![c], alpha, j) == (padded_at(c, j) + alpha * 0) % fr_order());
    assert(aggregate_at(seq![b, c], alpha, j) == (padded_at(b, j) + alpha * aggregate_at(
        seq![c],
        alpha,
        j,
    )) % fr_order());
}

/// Halving a sequence of odd length `2n+1` yields two halves of length
/// `n+1` whose last and first elements coincide.
pub proof fn lemma_halve_shape(s: Seq<Scalar>)
    requires
        s.len() % 2 == 1,
    ensures
        s.subrange(0, s.len() as int / 2 + 1).len() == s.len() / 2 + 1,
        s.subrange(s.len() as int / 2, s.len() as int).len() == s.len() / 2 + 1,
        s.subrange(0, s.len() as int / 2 + 1).last() == s.subrange(
            s.len() as int / 2,
            s.len() as int,
        ).first(),
{
}

/// On a sorted table `t`, any sorted sequence each of whose elements
/// occurs in `t` is covered by `t`.
pub proof fn lemma_sorted_covered(s: Seq<Scalar>, t: Seq<Scalar>)
    requires
        sorted_by(s, scalar_le()),
        sorted_by(t, scalar_le()),
        forall|i: int| 0 <= i < s.len() ==> t.contains(#[trigger] s[i]),
    ensures
        covered_by(s, t),
    decreases s.len() + t.len(),
{
    if s.len() == 0 {
    } else if t.len() == 0 {
        assert(t.contains(s[0]));
        assert(false);
    } else if t[0] == s[0] {
        let s1 = s.drop_first();
        assert forall|i: int| 0 <= i < s1.len() implies t.contains(#[trigger] s1[i]) by {
            assert(s1[i] == s[i + 1]);
        }
        assert forall|m: int, n: int| 0 <= m < n < s1.len() implies scalar_le()(s1[m], s1[n]) by {
            assert(s1[m] == s[m + 1] && s1[n] == s[n + 1]);
        }
        lemma_sorted_covered(s1, t);
    } else {
        let t1 = t.drop_first();
        assert forall|m: int, n: int| 0 <= m < n < t1.len() implies scalar_le()(t1[m], t1[n]) by {
            assert(t1[m] == t[m + 1] && t1[n] == t[n + 1]);
        }
        assert forall|i: int| 0 <= i < s.len() implies t1.contains(#[trigger] s[i]) by {
            let k = choose|k: int| 0 <= k < t.len() && t[k] == s[i];
            if k == 0 {
                let k0 = choose|k0: int| 0 <= k0 < t.len() && t[k0] == s[0];
                assert(scalar_le()(t[0], t[k0]));
                assert(scalar_le()(s[0], s[i]));
                lemma_value_injective(s[0], t[0]);
                assert(false);
            } else {
                assert(t1[k - 1] == s[i]);
            }
        }
        lemma_sorted_covered(s, t1);
    }
}

/// Sorting the concatenation of a witness `f` with a sorted table `t`
/// yields a sequence that `t` covers, whenever every element of `f`
/// appears in `t`.
pub proof fn lemma_sort_concat_covered(f: Seq<Scalar>, t: Seq<Scalar>)
    requires
        sorted_by(t, scalar_le()),
        forall|i: int| 0 <= i < f.len() ==> t.contains(#[trigger] f[i]),
    ensures
        covered_by((f + t).sort_by(scalar_le()), t),
{
    broadcast use vstd::seq_lib::group_to_multiset_ensures;

    lemma_scalar_le_total();
    let s = (f + t).sort_by(scalar_le());
    (f + t).lemma_sort_by_ensures(scalar_le());
    assert forall|i: int| 0 <= i < s.len() implies t.contains(#[trigger] s[i]) by {
        assert(s.contains(s[i]));
        to_multiset_contains(s, s[i]);
        to_multiset_contains(f + t, s[i]);
        assert((f + t).contains(s[i]));
        let k = choose|k: int| 0 <= k < (f + t).len() && (f + t)[k] == s[i];
        if k < f.len() {
            assert(f[k] == s[i]);
        } else {
            assert(t[k - f.len()] == s[i]);
        }
    }
    lemma_sorted_covered(s, t);
}

} // verus!
