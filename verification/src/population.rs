use crate::error::WoaError;
use crate::scalar::Scalar;
use crate::whale::{all_inside, copy_position, Candidate, Whale};
use vstd::prelude::*;

verus! {

/// The whales of one generation, in rank order once they have been sorted.
#[derive(Debug)]
pub struct Population {
    pub members: Vec<Whale>,
    /// Whether the members have been sorted at least once.
    pub sorted: bool,
}

/// The views of `members`, in order.
pub open spec fn views(members: Seq<Whale>) -> Seq<Candidate> {
    members.map_values(|w: Whale| w@)
}

/// The views of `positions`, in order.
pub open spec fn position_views(positions: Seq<Vec<Scalar>>) -> Seq<Seq<Scalar>> {
    positions.map_values(|p: Vec<Scalar>| p@)
}

/// Whether there are `count` positions, each of `dim` coordinates.
pub open spec fn well_shaped(positions: Seq<Seq<Scalar>>, count: nat, dim: nat) -> bool {
    &&& positions.len() == count
    &&& forall|k: int| 0 <= k < positions.len() ==> (#[trigger] positions[k]).len() == dim
}

/// Whether every coordinate of every position is a number between the bounds.
pub open spec fn all_positions_inside(
    positions: Seq<Seq<Scalar>>,
    lower: Scalar,
    upper: Scalar,
) -> bool {
    forall|k: int| 0 <= k < positions.len() ==> all_inside(#[trigger] positions[k], lower, upper)
}

/// A coordinate pulled back to the nearer bound when it lies beyond one. A NaN
/// lies beyond neither and stays.
pub open spec fn clip_coordinate(x: Scalar, lower: Scalar, upper: Scalar) -> Scalar {
    if x.lt(lower) {
        lower
    } else if x.gt(upper) {
        upper
    } else {
        x
    }
}

/// A position with every coordinate clipped.
pub open spec fn clip_position(position: Seq<Scalar>, lower: Scalar, upper: Scalar) -> Seq<Scalar> {
    Seq::new(position.len(), |i: int| clip_coordinate(position[i], lower, upper))
}

/// Whether fitness `a` ranks strictly before fitness `b`: lower first when
/// minimizing, higher first when maximizing, by the total order of the patterns.
pub open spec fn precedes(a: Scalar, b: Scalar, maximization: bool) -> bool {
    if maximization {
        a.total_place() > b.total_place()
    } else {
        a.total_place() < b.total_place()
    }
}

/// Whether `perm` lists each of the indices below its length exactly once.
pub open spec fn is_permutation(perm: Seq<int>) -> bool {
    &&& forall|k: int| 0 <= k < perm.len() ==> 0 <= #[trigger] perm[k] < perm.len()
    &&& forall|a: int, b: int|
        0 <= a < b < perm.len() ==> #[trigger] perm[a] != #[trigger] perm[b]
}

/// Whether `after` holds the whales of `before`, the one at rank `k` being the
/// one that stood at `perm[k]`.
pub open spec fn rearranged(before: Seq<Whale>, after: Seq<Whale>, perm: Seq<int>) -> bool {
    &&& after.len() == before.len()
    &&& perm.len() == before.len()
    &&& forall|k: int| 0 <= k < after.len() ==> #[trigger] after[k] == before[perm[k]]
}

/// Whether candidates that came in the order `perm` stand sorted by fitness, and
/// those of equal fitness in the order in which they came.
pub open spec fn ranked(after: Seq<Candidate>, perm: Seq<int>, maximization: bool) -> bool {
    &&& perm.len() == after.len()
    &&& is_permutation(perm)
    &&& forall|a: int, b: int|
        0 <= a < b < after.len() ==> precedes(
            (#[trigger] after[a]).fitness,
            (#[trigger] after[b]).fitness,
            maximization,
        ) || (after[a].fitness == after[b].fitness && perm[a] < perm[b])
}

/// The place from which the element at place `k` came when the element at
/// `from` was moved down to `to`.
spec fn source_of(k: int, from: int, to: int) -> int {
    if k < to {
        k
    } else if k == to {
        from
    } else if k <= from {
        k - 1
    } else {
        k
    }
}

/// What moving the element at `from` down to `to` does to each place of a sequence.
proof fn lemma_moved_down<T>(s: Seq<T>, from: int, to: int)
    requires
        0 <= to <= from < s.len(),
    ensures
        s.remove(from).insert(to, s[from]).len() == s.len(),
        forall|k: int| 0 <= k < to ==> #[trigger] s.remove(from).insert(to, s[from])[k] == s[k],
        s.remove(from).insert(to, s[from])[to] == s[from],
        forall|k: int|
            to < k <= from ==> #[trigger] s.remove(from).insert(to, s[from])[k] == s[k - 1],
        forall|k: int|
            from < k < s.len() ==> #[trigger] s.remove(from).insert(to, s[from])[k] == s[k],
{
}

/// Whether index `x` ranks before index `y` among the fitness values `keys`:
/// by fitness, and among equal ones by index.
pub open spec fn comes_first(keys: Seq<Scalar>, x: int, y: int, maximization: bool) -> bool {
    precedes(keys[x], keys[y], maximization) || (keys[x] == keys[y] && x < y)
}

/// Whether `perm` lists the indices of `keys` in rank order.
pub open spec fn is_ranking(keys: Seq<Scalar>, perm: Seq<int>, maximization: bool) -> bool {
    &&& perm.len() == keys.len()
    &&& is_permutation(perm)
    &&& forall|a: int, b: int|
        0 <= a < b < perm.len() ==> comes_first(
            keys,
            #[trigger] perm[a],
            #[trigger] perm[b],
            maximization,
        )
}

/// A permutation reaches every index below its length.
pub proof fn lemma_permutation_covers(perm: Seq<int>, x: int)
    requires
        is_permutation(perm),
        0 <= x < perm.len(),
    ensures
        exists|k: int| 0 <= k < perm.len() && #[trigger] perm[k] == x,
{
    broadcast use vstd::seq_lib::seq_to_set_is_finite;

    let n = perm.len() as int;
    assert(perm.no_duplicates()) by {
        assert forall|i: int, j: int| 0 <= i < n && 0 <= j < n && i != j implies perm[i]
            != perm[j] by {
            if i < j {
                assert(perm[i] != perm[j]);
            } else {
                assert(perm[j] != perm[i]);
            }
        }
    }
    perm.unique_seq_to_set();
    vstd::set_lib::lemma_int_range(0, n);
    let reached = perm.to_set();
    let all = vstd::set_lib::set_int_range(0, n);
    assert(reached.subset_of(all)) by {
        assert forall|v: int| reached.contains(v) implies all.contains(v) by {
            let k = choose|k: int| 0 <= k < perm.len() && perm[k] == v;
            assert(0 <= perm[k] < n);
        }
    }
    vstd::set_lib::lemma_subset_equality(reached, all);
    assert(all.contains(x));
    assert(reached.contains(x));
    assert(perm.contains(x));
}

/// Two rankings of the same fitness values agree up to and including place `k`.
proof fn lemma_rankings_agree(
    keys: Seq<Scalar>,
    p: Seq<int>,
    q: Seq<int>,
    maximization: bool,
    k: int,
)
    requires
        is_ranking(keys, p, maximization),
        is_ranking(keys, q, maximization),
        0 <= k < keys.len(),
    ensures
        forall|j: int| 0 <= j <= k ==> p[j] == q[j],
    decreases k,
{
    if k > 0 {
        lemma_rankings_agree(keys, p, q, maximization, k - 1);
    }
    let x = p[k];
    let y = q[k];
    if x != y {
        lemma_permutation_covers(q, x);
        let m = choose|m: int| 0 <= m < q.len() && q[m] == x;
        lemma_permutation_covers(p, y);
        let l = choose|l: int| 0 <= l < p.len() && p[l] == y;
        if m < k {
            assert(p[m] == q[m]);
            assert(p[m] != p[k]);
        } else if l < k {
            assert(p[l] == q[l]);
            assert(q[l] != q[k]);
        } else {
            assert(m > k && l > k);
            assert(comes_first(keys, q[k], q[m], maximization));
            assert(comes_first(keys, p[k], p[l], maximization));
        }
    }
}

/// The rank order of given fitness values is unique: there is one way only to
/// sort them that keeps equal ones in the order in which they came.
pub proof fn lemma_ranking_is_unique(
    keys: Seq<Scalar>,
    p: Seq<int>,
    q: Seq<int>,
    maximization: bool,
)
    requires
        is_ranking(keys, p, maximization),
        is_ranking(keys, q, maximization),
    ensures
        p == q,
{
    if keys.len() > 0 {
        lemma_rankings_agree(keys, p, q, maximization, keys.len() - 1);
    }
    assert(p =~= q);
}

/// Sorting has one outcome only: two populations that both are the whales of
/// `before` in rank order are the same, whale for whale.
pub proof fn lemma_sorting_is_determined(
    before: Seq<Whale>,
    first: Seq<Whale>,
    p: Seq<int>,
    second: Seq<Whale>,
    q: Seq<int>,
    maximization: bool,
)
    requires
        rearranged(before, first, p),
        ranked(views(first), p, maximization),
        rearranged(before, second, q),
        ranked(views(second), q, maximization),
    ensures
        first == second,
        p == q,
{
    let keys = Seq::new(before.len(), |x: int| before[x].fitness);
    assert(is_ranking(keys, p, maximization)) by {
        assert forall|a: int, b: int| 0 <= a < b < p.len() implies comes_first(
            keys,
            #[trigger] p[a],
            #[trigger] p[b],
            maximization,
        ) by {
            assert(views(first)[a] == first[a]@ && views(first)[b] == first[b]@);
            assert(first[a] == before[p[a]] && first[b] == before[p[b]]);
        }
    }
    assert(is_ranking(keys, q, maximization)) by {
        assert forall|a: int, b: int| 0 <= a < b < q.len() implies comes_first(
            keys,
            #[trigger] q[a],
            #[trigger] q[b],
            maximization,
        ) by {
            assert(views(second)[a] == second[a]@ && views(second)[b] == second[b]@);
            assert(second[a] == before[q[a]] && second[b] == before[q[b]]);
        }
    }
    lemma_ranking_is_unique(keys, p, q, maximization);
    assert(first =~= second);
}

/// Whether fitness `a` ranks strictly before fitness `b`.
pub fn ranks_before(a: Scalar, b: Scalar, maximization: bool) -> (r: bool)
    ensures
        r == precedes(a, b, maximization),
{
    if maximization {
        !a.total_le(b)
    } else {
        !b.total_le(a)
    }
}

/// Whether `count` positions of `dim` coordinates each were handed over.
pub fn is_well_shaped(positions: &Vec<Vec<Scalar>>, count: usize, dim: usize) -> (r: bool)
    ensures
        r == well_shaped(position_views(positions@), count as nat, dim as nat),
{
    if positions.len() != count {
        return false;
    }
    let mut k: usize = 0;
    while k < positions.len()
        invariant
            k <= positions.len(),
            forall|j: int| 0 <= j < k ==> (#[trigger] position_views(positions@)[j]).len() == dim,
        decreases positions.len() - k,
    {
        if positions[k].len() != dim {
            assert(position_views(positions@)[k as int].len() != dim);
            return false;
        }
        assert(position_views(positions@)[k as int].len() == dim);
        k += 1;
    }
    true
}

/// Clips every coordinate of `position` in place.
pub fn clip_in_place(position: &mut Vec<Scalar>, lower: Scalar, upper: Scalar)
    ensures
        final(position)@ == clip_position(old(position)@, lower, upper),
{
    let ghost before = position@;
    let mut i: usize = 0;
    while i < position.len()
        invariant
            i <= position.len(),
            position@.len() == before.len(),
            forall|k: int| 0 <= k < i ==> position@[k] == clip_coordinate(before[k], lower, upper),
            forall|k: int| i <= k < position@.len() ==> position@[k] == before[k],
        decreases position.len() - i,
    {
        let x: Scalar = position[i];
        if x.lt(lower) {
            position[i] = lower;
        } else if x.gt(upper) {
            position[i] = upper;
        }
        i += 1;
    }
    assert(position@ =~= clip_position(before, lower, upper));
}

impl Population {
    /// A population of `population_size` whales in a space of `dim` dimensions,
    /// whale `k` at the coordinates `draws[k]`, each drawn from the interval
    /// between the bounds. The whales are not yet evaluated nor sorted.
    ///
    /// Bounds the wrong way round are refused first, then draws of the wrong
    /// shape, then a draw that is no number of the interval.
    pub fn initialize_whales(
        dim: usize,
        population_size: usize,
        lower_bound: Scalar,
        upper_bound: Scalar,
        draws: &Vec<Vec<Scalar>>,
    ) -> (made: Result<Population, WoaError>)
        requires
            dim >= 1,
            population_size >= 1,
        ensures
            lower_bound.gt(upper_bound) ==> made is Err && made->Err_0 == WoaError::InvalidBounds,
            !lower_bound.gt(upper_bound) && !well_shaped(
                position_views(draws@),
                population_size as nat,
                dim as nat,
            ) ==> made is Err && made->Err_0 == WoaError::DimensionMismatch,
            !lower_bound.gt(upper_bound) && well_shaped(
                position_views(draws@),
                population_size as nat,
                dim as nat,
            ) && !all_positions_inside(position_views(draws@), lower_bound, upper_bound)
                ==> made is Err
                && made->Err_0 == WoaError::OutOfBounds,
            !lower_bound.gt(upper_bound) && well_shaped(
                position_views(draws@),
                population_size as nat,
                dim as nat,
            ) && all_positions_inside(position_views(draws@), lower_bound, upper_bound)
                ==> made is Ok
                && !made->Ok_0.sorted && made->Ok_0.members@.len() == population_size && forall|
                k: int,
            |
                0 <= k < population_size ==> (#[trigger] made->Ok_0.members@[k]).position@
                    == draws@[k]@ && made->Ok_0.members@[k].fitness == (Scalar { bits: 0 }),
    {
        if lower_bound.gt(upper_bound) {
            return Err(WoaError::InvalidBounds);
        }
        if !is_well_shaped(draws, population_size, dim) {
            return Err(WoaError::DimensionMismatch);
        }
        let mut whales: Vec<Whale> = Vec::with_capacity(population_size);
        let mut k: usize = 0;
        while k < population_size
            invariant
                k <= population_size == draws@.len(),
                !lower_bound.gt(upper_bound),
                well_shaped(position_views(draws@), population_size as nat, dim as nat),
                whales@.len() == k,
                forall|j: int|
                    0 <= j < k ==> all_inside(
                        #[trigger] position_views(draws@)[j],
                        lower_bound,
                        upper_bound,
                    ),
                forall|j: int|
                    0 <= j < k ==> (#[trigger] whales@[j]).position@ == draws@[j]@
                        && whales@[j].fitness == (Scalar { bits: 0 }),
            decreases population_size - k,
        {
            assert(position_views(draws@)[k as int] == draws@[k as int]@);
            match Whale::with_random_components(
                dim,
                lower_bound,
                upper_bound,
                copy_position(&draws[k]),
            ) {
                Ok(whale) => {
                    whales.push(whale);
                },
                Err(_) => {
                    return Err(WoaError::OutOfBounds);
                },
            }
            k += 1;
        }
        Ok(Population { members: whales, sorted: false })
    }

    /// Evaluates every whale with `func`.
    pub fn calculate_fitness_for_each_whale<F>(&mut self, func: &F) where
        F: Fn(&Vec<Scalar>) -> Scalar,

        requires
            forall|k: int|
                0 <= k < old(self).members@.len() ==> call_requires(
                    *func,
                    (&(#[trigger] old(self).members@[k]).position,),
                ),
        ensures
            final(self).sorted == old(self).sorted,
            final(self).members@.len() == old(self).members@.len(),
            forall|k: int|
                0 <= k < old(self).members@.len() ==> (#[trigger] final(self).members@[k]).position
                    == old(self).members@[k].position && call_ensures(
                    *func,
                    (&final(self).members@[k].position,),
                    final(self).members@[k].fitness,
                ),
    {
        let ghost before = self.members@;
        let mut k: usize = 0;
        while k < self.members.len()
            invariant
                k <= self.members@.len() == before.len(),
                self.sorted == old(self).sorted,
                forall|j: int|
                    0 <= j < before.len() ==> call_requires(
                        *func,
                        (&(#[trigger] before[j]).position,),
                    ),
                forall|j: int|
                    0 <= j < before.len() ==> (#[trigger] self.members@[j]).position
                        == before[j].position,
                forall|j: int|
                    0 <= j < k ==> call_ensures(
                        *func,
                        (&(#[trigger] self.members@[j]).position,),
                        self.members@[j].fitness,
                    ),
            decreases self.members@.len() - k,
        {
            self.members[k].calculate_fitness(func);
            k += 1;
        }
    }

    /// Pulls every coordinate of every whale back between the bounds.
    pub fn check_if_any_whale_goes_beyond_bounds(&mut self, lower: Scalar, upper: Scalar)
        ensures
            final(self).sorted == old(self).sorted,
            final(self).members@.len() == old(self).members@.len(),
            forall|k: int|
                0 <= k < old(self).members@.len() ==> (#[trigger] final(self).members@[k]).position@
                    == clip_position(old(self).members@[k].position@, lower, upper)
                    && final(self).members@[k].fitness == old(self).members@[k].fitness,
    {
        let ghost before = self.members@;
        let mut k: usize = 0;
        while k < self.members.len()
            invariant
                k <= self.members@.len() == before.len(),
                self.sorted == old(self).sorted,
                forall|j: int|
                    0 <= j < k ==> (#[trigger] self.members@[j]).position@ == clip_position(
                        before[j].position@,
                        lower,
                        upper,
                    ) && self.members@[j].fitness == before[j].fitness,
                forall|j: int| k <= j < before.len() ==> self.members@[j] == before[j],
            decreases self.members@.len() - k,
        {
            clip_in_place(&mut self.members[k].position, lower, upper);
            k += 1;
        }
    }

    /// Sorts the whales by fitness, lowest first when minimizing and highest first
    /// when maximizing. Whales of equal fitness keep the order they stood in.
    pub fn sort_whales(&mut self, maximization: bool)
        ensures
            final(self).sorted,
            exists|perm: Seq<int>|
                rearranged(old(self).members@, final(self).members@, perm) && #[trigger] ranked(
                    views(final(self).members@),
                    perm,
                    maximization,
                ),
    {
        let ghost before = self.members@;
        let ghost mut perm: Seq<int> = Seq::new(before.len(), |k: int| k);
        let n: usize = self.members.len();
        let mut i: usize = 0;
        while i < n
            invariant
                i <= n,
                n == before.len(),
                n == self.members@.len(),
                n == perm.len(),
                self.sorted == old(self).sorted,
                is_permutation(perm),
                forall|k: int| 0 <= k < i ==> #[trigger] perm[k] < i,
                forall|k: int| i <= k < n ==> #[trigger] perm[k] == k,
                forall|k: int| 0 <= k < n ==> #[trigger] self.members@[k] == before[perm[k]],
                forall|a: int, b: int|
                    0 <= a < b < i ==> precedes(
                        (#[trigger] self.members@[a]).fitness,
                        (#[trigger] self.members@[b]).fitness,
                        maximization,
                    ) || (self.members@[a].fitness == self.members@[b].fitness && perm[a]
                        < perm[b]),
            decreases n - i,
        {
            let fitness: Scalar = self.members[i].fitness;
            let mut j: usize = i;
            while j > 0 && ranks_before(fitness, self.members[j - 1].fitness, maximization)
                invariant
                    j <= i < n,
                    n == self.members@.len(),
                    fitness == self.members@[i as int].fitness,
                    forall|k: int|
                        j <= k < i ==> precedes(
                            fitness,
                            (#[trigger] self.members@[k]).fitness,
                            maximization,
                        ),
                decreases j,
            {
                j -= 1;
            }
            let ghost held = self.members@;
            let ghost came = perm;
            let whale = self.members.remove(i);
            self.members.insert(j, whale);
            proof {
                perm = came.remove(i as int).insert(j as int, came[i as int]);
                lemma_moved_down(held, i as int, j as int);
                lemma_moved_down(came, i as int, j as int);
                assert(j > 0 ==> precedes(held[j - 1].fitness, fitness, maximization) || held[j
                    - 1].fitness == fitness);
                assert forall|a: int, b: int| 0 <= a < b < i + 1 implies precedes(
                    (#[trigger] self.members@[a]).fitness,
                    (#[trigger] self.members@[b]).fitness,
                    maximization,
                ) || (self.members@[a].fitness == self.members@[b].fitness && perm[a]
                    < perm[b]) by {
                    if b < j {
                        assert(self.members@[a] == held[a] && self.members@[b] == held[b]);
                    } else if b == j {
                        assert(self.members@[a] == held[a]);
                        assert(came[a] < i);
                        if a < j - 1 {
                            assert(precedes(held[a].fitness, held[j - 1].fitness, maximization) || (
                            held[a].fitness == held[j - 1].fitness && came[a] < came[j - 1]));
                        }
                    } else if a < j {
                        assert(self.members@[a] == held[a] && self.members@[b] == held[b - 1]);
                    } else if a == j {
                        assert(self.members@[b] == held[b - 1]);
                        assert(precedes(fitness, held[b - 1].fitness, maximization));
                    } else {
                        assert(self.members@[a] == held[a - 1] && self.members@[b] == held[b - 1]);
                    }
                }
                assert forall|a: int, b: int| 0 <= a < b < n implies #[trigger] perm[a]
                    != #[trigger] perm[b] by {
                    let a0 = source_of(a, i as int, j as int);
                    let b0 = source_of(b, i as int, j as int);
                    assert(perm[a] == came[a0] && perm[b] == came[b0]);
                    assert(a0 != b0);
                    if a0 < b0 {
                        assert(came[a0] != came[b0]);
                    } else {
                        assert(came[b0] != came[a0]);
                    }
                }
            }
            i += 1;
        }
        self.sorted = true;
        proof {
            assert forall|a: int, b: int| 0 <= a < b < views(self.members@).len() implies precedes(
                (#[trigger] views(self.members@)[a]).fitness,
                (#[trigger] views(self.members@)[b]).fitness,
                maximization,
            ) || (views(self.members@)[a].fitness == views(self.members@)[b].fitness && perm[a]
                < perm[b]) by {
                assert(views(self.members@)[a] == self.members@[a]@);
                assert(views(self.members@)[b] == self.members@[b]@);
            }
            assert(rearranged(before, self.members@, perm));
            assert(ranked(views(self.members@), perm, maximization));
        }
    }

    /// The whale of rank 0.
    pub fn best(&self) -> (found: Result<&Whale, WoaError>)
        requires
            self.members@.len() >= 1,
        ensures
            !self.sorted ==> found is Err && found->Err_0 == WoaError::NotSorted,
            self.sorted ==> found is Ok && *found->Ok_0 == self.members@[0],
    {
        if !self.sorted {
            return Err(WoaError::NotSorted);
        }
        Ok(&self.members[0])
    }
}

} // verus!
