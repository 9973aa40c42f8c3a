//! What holds of every run of the optimizer.

use crate::population::{
    clip_coordinate, clip_position, comes_first, is_ranking, lemma_permutation_covers,
    lemma_ranking_is_unique, precedes, ranked, well_shaped,
};
use crate::scalar::Scalar;
use crate::whale::{inside, Candidate};
use crate::woa::{
    advanced, all_within, convergence_factor_at, evaluated, gives, improves, is_run, started,
    within, Request, WoaView,
};
use vstd::prelude::*;

verus! {

/// Whether `f` returns one fitness only for one position.
pub open spec fn pure<F: Fn(&Vec<Scalar>) -> Scalar>(f: F) -> bool {
    forall|p: Vec<Scalar>, q: Vec<Scalar>, y: Scalar, z: Scalar|
        p@ == q@ && #[trigger] call_ensures(f, (&p,), y) && #[trigger] call_ensures(f, (&q,), z)
            ==> y == z
}

/// Once the optimizer waits for nothing more, the history holds exactly one
/// entry for each iteration of the budget.
pub proof fn lemma_finished_history_is_complete(state: WoaView)
    requires
        state.sound(),
        state.pending() == Request::Finished,
    ensures
        state.history.len() == state.max_iterations,
{
}

/// In a run, the state after `i` iterations holds `i` entries more than the
/// first, and the budget of the first.
proof fn lemma_history_counts(
    states: Seq<WoaView>,
    moved: Seq<Seq<Seq<Scalar>>>,
    perms: Seq<Seq<int>>,
    i: int,
)
    requires
        is_run(states, moved, perms),
        0 <= i < states.len(),
    ensures
        states[i].history.len() == states[0].history.len() + i,
        states[i].max_iterations == states[0].max_iterations,
    decreases i,
{
    if i > 0 {
        lemma_history_counts(states, moved, perms, i - 1);
        assert(advanced(states[i - 1], moved[i - 1], states[i], perms[i - 1]));
    }
}

/// A run takes the whole budget and no more: an optimizer that starts with an
/// empty history and goes from iteration to iteration until it is finished has
/// then made exactly `max_iterations` of them, and its history holds one entry
/// for each.
pub proof fn lemma_run_fills_the_history(
    states: Seq<WoaView>,
    moved: Seq<Seq<Seq<Scalar>>>,
    perms: Seq<Seq<int>>,
)
    requires
        is_run(states, moved, perms),
        states[0].sound(),
        states[0].history.len() == 0,
        states.last().finished(),
    ensures
        states.len() == states[0].max_iterations + 1,
        states.last().history.len() == states[0].max_iterations,
{
    let last = states.len() - 1;
    lemma_history_counts(states, moved, perms, last);
    if last > 0 {
        lemma_history_counts(states, moved, perms, last - 1);
        assert(!states[last - 1].finished());
    }
}

/// In a run the history only grows: what an iteration has recorded stays as
/// it is.
pub proof fn lemma_run_keeps_the_history(
    states: Seq<WoaView>,
    moved: Seq<Seq<Seq<Scalar>>>,
    perms: Seq<Seq<int>>,
    i: int,
    j: int,
)
    requires
        is_run(states, moved, perms),
        0 <= i <= j < states.len(),
    ensures
        states[i].history.is_prefix_of(states[j].history),
    decreases j - i,
{
    if i < j {
        lemma_run_keeps_the_history(states, moved, perms, i, j - 1);
        assert(advanced(states[j - 1], moved[j - 1], states[j], perms[j - 1]));
        let earlier = states[i].history;
        let before = states[j - 1].history;
        let after = states[j].history;
        assert(after == before.push(states[j].best));
        assert forall|t: int| 0 <= t < earlier.len() implies earlier[t] == after[t] by {
            assert(earlier[t] == before[t]);
        }
    }
}

/// The recorded fitness never worsens from one iteration to the next: among
/// numbers it is `<=` the one before when minimizing and `>=` it when maximizing.
pub proof fn lemma_history_never_worsens(state: WoaView, t: int)
    requires
        state.sound(),
        0 < t < state.history.len(),
        !state.history[t - 1].fitness.is_nan(),
        !state.history[t].fitness.is_nan(),
    ensures
        !state.maximization ==> state.history[t].fitness.le(state.history[t - 1].fitness),
        state.maximization ==> state.history[t].fitness.ge(state.history[t - 1].fitness),
{
    assert(!improves(state.history[t - 1].fitness, state.history[t].fitness, state.maximization));
}

/// A clipped coordinate that is a number lies between the bounds, ends included.
pub proof fn lemma_clipped_is_inside(x: Scalar, lower: Scalar, upper: Scalar)
    requires
        lower.le(upper),
        !x.is_nan(),
    ensures
        inside(clip_coordinate(x, lower, upper), lower, upper),
{
}

/// Every coordinate of every whale that is a number lies between the bounds,
/// ends included.
pub proof fn lemma_whales_stay_inside(state: WoaView, k: int, i: int)
    requires
        state.sound(),
        0 <= k < state.whales.len(),
        0 <= i < state.whales[k].position.len(),
        !state.whales[k].position[i].is_nan(),
    ensures
        inside(state.whales[k].position[i], state.lower, state.upper),
{
    assert(all_within(state.whales[k].position, state.lower, state.upper));
    assert(within(state.whales[k].position[i], state.lower, state.upper));
}

/// The convergence factor is 2 in the first iteration, and in the last one it
/// is `2 / max_iterations`, which is above 0.
pub proof fn lemma_convergence_factor_ends(max_iterations: usize)
    requires
        max_iterations >= 1,
    ensures
        convergence_factor_at(0, max_iterations as nat).numerator == 2 * convergence_factor_at(
            0,
            max_iterations as nat,
        ).denominator,
        convergence_factor_at((max_iterations - 1) as nat, max_iterations as nat).numerator
            * max_iterations == 2 * convergence_factor_at(
            (max_iterations - 1) as nat,
            max_iterations as nat,
        ).denominator,
        convergence_factor_at((max_iterations - 1) as nat, max_iterations as nat).numerator > 0,
{
}

/// Before the budget is spent the convergence factor is above 0, and from each
/// iteration to the next it falls by `2 / max_iterations`.
pub proof fn lemma_convergence_factor_decays(iteration: usize, max_iterations: usize)
    requires
        iteration < max_iterations,
    ensures
        convergence_factor_at(iteration as nat, max_iterations as nat).numerator > 0,
        convergence_factor_at(iteration as nat, max_iterations as nat).denominator
            == max_iterations,
        convergence_factor_at((iteration + 1) as nat, max_iterations as nat).denominator
            == max_iterations,
        convergence_factor_at(iteration as nat, max_iterations as nat).numerator
            - convergence_factor_at((iteration + 1) as nat, max_iterations as nat).numerator == 2,
{
}

/// After an iteration no whale of the generation is strictly better than the
/// best-known candidate, as long as no fitness of the generation is a NaN.
pub proof fn lemma_best_leads_generation(
    pre: WoaView,
    moved: Seq<Seq<Scalar>>,
    post: WoaView,
    perm: Seq<int>,
    k: int,
)
    requires
        advanced(pre, moved, post, perm),
        forall|j: int| 0 <= j < post.whales.len() ==> !(#[trigger] post.whales[j]).fitness.is_nan(),
        0 <= k < post.whales.len(),
    ensures
        !improves(post.whales[k].fitness, post.best.fitness, pre.maximization),
{
    let leader = post.whales[0];
    let other = post.whales[k];
    assert(!leader.fitness.is_nan() && !other.fitness.is_nan());
    if k > 0 {
        assert(precedes(leader.fitness, other.fitness, pre.maximization) || leader.fitness
            == other.fitness);
    }
}

/// Two generations made of the same positions by an objective function that is
/// pure are the same, whale for whale.
proof fn lemma_same_generation<F: Fn(&Vec<Scalar>) -> Scalar>(
    f: F,
    source: Seq<Seq<Scalar>>,
    a: Seq<Candidate>,
    p: Seq<int>,
    b: Seq<Candidate>,
    q: Seq<int>,
    maximization: bool,
)
    requires
        pure(f),
        a.len() == source.len(),
        b.len() == source.len(),
        ranked(a, p, maximization),
        ranked(b, q, maximization),
        forall|k: int|
            0 <= k < a.len() ==> (#[trigger] a[k]).position == source[p[k]] && gives(f, a[k]),
        forall|k: int|
            0 <= k < b.len() ==> (#[trigger] b[k]).position == source[q[k]] && gives(f, b[k]),
    ensures
        a == b,
        p == q,
{
    let n = source.len() as int;
    let keys = Seq::new(
        n as nat,
        |x: int| a[choose|k: int| 0 <= k < p.len() && p[k] == x].fitness,
    );
    assert forall|k: int| 0 <= k < n implies keys[#[trigger] p[k]] == a[k].fitness by {
        let x = p[k];
        let again = choose|j: int| 0 <= j < p.len() && p[j] == x;
        if again < k {
            assert(p[again] != p[k]);
        } else if k < again {
            assert(p[k] != p[again]);
        }
    }
    assert forall|k: int| 0 <= k < n implies keys[#[trigger] q[k]] == b[k].fitness by {
        let x = q[k];
        lemma_permutation_covers(p, x);
        let j = choose|j: int| 0 <= j < p.len() && p[j] == x;
        assert(keys[p[j]] == a[j].fitness);
        assert(a[j].position == b[k].position);
        assert(gives(f, a[j]) && gives(f, b[k]));
        let u = choose|u: Vec<Scalar>| u@ == a[j].position && call_ensures(f, (&u,), a[j].fitness);
        let v = choose|v: Vec<Scalar>| v@ == b[k].position && call_ensures(f, (&v,), b[k].fitness);
        assert(u@ == v@);
    }
    assert(is_ranking(keys, p, maximization)) by {
        assert forall|i: int, j: int| 0 <= i < j < p.len() implies comes_first(
            keys,
            #[trigger] p[i],
            #[trigger] p[j],
            maximization,
        ) by {
            assert(keys[p[i]] == a[i].fitness && keys[p[j]] == a[j].fitness);
        }
    }
    assert(is_ranking(keys, q, maximization)) by {
        assert forall|i: int, j: int| 0 <= i < j < q.len() implies comes_first(
            keys,
            #[trigger] q[i],
            #[trigger] q[j],
            maximization,
        ) by {
            assert(keys[q[i]] == b[i].fitness && keys[q[j]] == b[j].fitness);
        }
    }
    lemma_ranking_is_unique(keys, p, q, maximization);
    assert forall|k: int| 0 <= k < n implies a[k] == b[k] by {
        assert(keys[p[k]] == a[k].fitness);
        assert(keys[q[k]] == b[k].fitness);
        assert(a[k].position == b[k].position);
    }
    assert(a =~= b);
}

/// An iteration is determined by the state it starts from and the positions it
/// is given, when the objective function is pure: it can end in one state only.
pub proof fn lemma_run_is_deterministic<F: Fn(&Vec<Scalar>) -> Scalar>(
    f: F,
    pre: WoaView,
    moved: Seq<Seq<Scalar>>,
    first: WoaView,
    first_perm: Seq<int>,
    second: WoaView,
    second_perm: Seq<int>,
)
    requires
        pure(f),
        moved.len() == pre.whales.len(),
        advanced(pre, moved, first, first_perm),
        advanced(pre, moved, second, second_perm),
        evaluated(f, first),
        evaluated(f, second),
    ensures
        first == second,
        first_perm == second_perm,
{
    let source = Seq::new(moved.len(), |x: int| clip_position(moved[x], pre.lower, pre.upper));
    assert forall|k: int| 0 <= k < first.whales.len() implies (
    #[trigger] first.whales[k]).position == source[first_perm[k]] && gives(f, first.whales[k]) by {
        assert(0 <= first_perm[k] < moved.len());
    }
    assert forall|k: int| 0 <= k < second.whales.len() implies (
    #[trigger] second.whales[k]).position == source[second_perm[k]] && gives(
        f,
        second.whales[k],
    ) by {
        assert(0 <= second_perm[k] < moved.len());
    }
    lemma_same_generation(
        f,
        source,
        first.whales,
        first_perm,
        second.whales,
        second_perm,
        pre.maximization,
    );
}

/// Two runs that start from the same state and are given the same positions
/// iteration for iteration pass through the same states, when the objective
/// function is pure: so they record the same history.
pub proof fn lemma_runs_agree<F: Fn(&Vec<Scalar>) -> Scalar>(
    f: F,
    moved: Seq<Seq<Seq<Scalar>>>,
    first: Seq<WoaView>,
    first_perms: Seq<Seq<int>>,
    second: Seq<WoaView>,
    second_perms: Seq<Seq<int>>,
    i: int,
)
    requires
        pure(f),
        is_run(first, moved, first_perms),
        is_run(second, moved, second_perms),
        first[0] == second[0],
        forall|k: int| 0 <= k < first.len() ==> evaluated(f, #[trigger] first[k]),
        forall|k: int| 0 <= k < second.len() ==> evaluated(f, #[trigger] second[k]),
        0 <= i < first.len(),
    ensures
        first[i] == second[i],
    decreases i,
{
    if i > 0 {
        lemma_runs_agree(f, moved, first, first_perms, second, second_perms, i - 1);
        assert(advanced(first[i - 1], moved[i - 1], first[i], first_perms[i - 1]));
        assert(advanced(second[i - 1], moved[i - 1], second[i], second_perms[i - 1]));
        assert(well_shaped(moved[i - 1], first[i - 1].whales.len(), first[i - 1].dim));
        lemma_run_is_deterministic(
            f,
            first[i - 1],
            moved[i - 1],
            first[i],
            first_perms[i - 1],
            second[i],
            second_perms[i - 1],
        );
    }
}

/// The start is determined by the configuration and the draws, when the
/// objective function is pure: an optimizer can start in one state only.
pub proof fn lemma_start_is_deterministic<F: Fn(&Vec<Scalar>) -> Scalar>(
    f: F,
    draws: Seq<Seq<Scalar>>,
    first: WoaView,
    first_perm: Seq<int>,
    second: WoaView,
    second_perm: Seq<int>,
)
    requires
        pure(f),
        first.same_configuration(second),
        started(first, draws, first_perm),
        started(second, draws, second_perm),
        evaluated(f, first),
        evaluated(f, second),
    ensures
        first == second,
        first_perm == second_perm,
{
    lemma_same_generation(
        f,
        draws,
        first.whales,
        first_perm,
        second.whales,
        second_perm,
        first.maximization,
    );
}

} // verus!
