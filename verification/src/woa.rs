use crate::error::WoaError;
use crate::population::{
    all_positions_inside, clip_coordinate, clip_position, is_well_shaped, position_views, ranked,
    rearranged, views, well_shaped, Population,
};
use crate::scalar::{Scalar, HALF_BITS, MINUS_ONE_BITS, ONE_BITS};
use crate::whale::{
    all_inside, copy_position, inside, is_all_inside, snapshot_view, Candidate, Whale,
};
use vstd::prelude::*;

verus! {

/// The convergence factor of one iteration, as the exact fraction
/// `numerator / denominator`.
#[derive(Clone, Copy, Debug, PartialEq, Eq, Structural)]
pub struct ConvergenceFactor {
    pub numerator: i128,
    pub denominator: u128,
}

/// The three ways in which a whale moves.
#[derive(Clone, Copy, Debug, PartialEq, Eq, Structural)]
pub enum Move {
    /// Close in on the best-known position.
    Encircle,
    /// Close in on the position of a whale picked at random.
    Search,
    /// Spiral towards the best-known position.
    Spiral,
}

/// What the optimizer waits for.
#[derive(Clone, Copy, Debug, PartialEq, Eq, Structural)]
pub enum Request {
    /// The positions of all whales after the moves of iteration `iteration`,
    /// computed with the convergence factor `factor`.
    Move { iteration: usize, factor: ConvergenceFactor },
    /// Nothing: the iteration budget is spent and the history is complete.
    Finished,
}

/// The convergence factor `2 - 2 * iteration / max_iterations`.
pub open spec fn convergence_factor_at(iteration: nat, max_iterations: nat) -> ConvergenceFactor {
    ConvergenceFactor {
        numerator: (2 * max_iterations - 2 * iteration) as i128,
        denominator: max_iterations as u128,
    }
}

/// The move of a whale that drew `p`, when its coefficient vector `A` has the
/// Euclidean norm `norm`: below one half it encircles if the norm is below one
/// and searches if not; from one half on it spirals.
pub open spec fn move_for(p: Scalar, norm: Scalar) -> Move {
    if p.lt(Scalar { bits: HALF_BITS }) {
        if norm.lt(Scalar { bits: ONE_BITS }) {
            Move::Encircle
        } else {
            Move::Search
        }
    } else {
        Move::Spiral
    }
}

/// Whether a fitness of `candidate` is strictly better than one of `incumbent`.
pub open spec fn improves(candidate: Scalar, incumbent: Scalar, maximization: bool) -> bool {
    if maximization {
        candidate.gt(incumbent)
    } else {
        candidate.lt(incumbent)
    }
}

/// Whether `x` lies beyond neither bound.
pub open spec fn within(x: Scalar, lower: Scalar, upper: Scalar) -> bool {
    !x.lt(lower) && !x.gt(upper)
}

/// Whether no coordinate of `position` lies beyond a bound.
pub open spec fn all_within(position: Seq<Scalar>, lower: Scalar, upper: Scalar) -> bool {
    forall|i: int| 0 <= i < position.len() ==> within(#[trigger] position[i], lower, upper)
}

/// Whether `f` can be called on every position of `dim` coordinates of which
/// none lies beyond a bound.
pub open spec fn total<F: Fn(&Vec<Scalar>) -> Scalar>(
    f: F,
    dim: nat,
    lower: Scalar,
    upper: Scalar,
) -> bool {
    forall|p: Vec<Scalar>|
        p@.len() == dim && all_within(p@, lower, upper) ==> #[trigger] call_requires(f, (&p,))
}

/// Whether the fitness of `c` is what `f` returned for its position.
pub open spec fn gives<F: Fn(&Vec<Scalar>) -> Scalar>(f: F, c: Candidate) -> bool {
    exists|p: Vec<Scalar>| p@ == c.position && #[trigger] call_ensures(f, (&p,), c.fitness)
}

/// The state of an optimizer, as the specifications see it.
pub struct WoaView {
    pub dim: nat,
    pub lower: Scalar,
    pub upper: Scalar,
    pub maximization: bool,
    pub max_iterations: nat,
    /// The current generation, in rank order.
    pub whales: Seq<Candidate>,
    /// The best-known candidate.
    pub best: Candidate,
    /// The best-known candidate after each completed iteration.
    pub history: Seq<Candidate>,
}

impl WoaView {
    /// Whether the iteration budget is spent.
    pub open spec fn finished(self) -> bool {
        self.history.len() >= self.max_iterations
    }

    /// What the optimizer waits for in this state.
    pub open spec fn pending(self) -> Request {
        if self.finished() {
            Request::Finished
        } else {
            Request::Move {
                iteration: self.history.len() as usize,
                factor: convergence_factor_at(self.history.len(), self.max_iterations),
            }
        }
    }

    /// Whether `other` has the configuration of `self`.
    pub open spec fn same_configuration(self, other: WoaView) -> bool {
        &&& self.dim == other.dim
        &&& self.lower == other.lower
        &&& self.upper == other.upper
        &&& self.maximization == other.maximization
        &&& self.max_iterations == other.max_iterations
        &&& self.whales.len() == other.whales.len()
    }

    /// What holds of every state that an optimizer reaches.
    pub open spec fn sound(self) -> bool {
        &&& self.dim >= 1
        &&& self.max_iterations >= 1
        &&& self.whales.len() >= 1
        &&& self.lower.le(self.upper)
        &&& forall|k: int|
            0 <= k < self.whales.len() ==> (#[trigger] self.whales[k]).position.len() == self.dim
        &&& forall|k: int|
            0 <= k < self.whales.len() ==> all_within(
                (#[trigger] self.whales[k]).position,
                self.lower,
                self.upper,
            )
        &&& exists|perm: Seq<int>| #[trigger] ranked(self.whales, perm, self.maximization)
        &&& self.best.position.len() == self.dim
        &&& self.history.len() <= self.max_iterations
        &&& self.history.len() > 0 ==> self.history.last() == self.best
        &&& forall|t: int|
            0 <= t < self.history.len() ==> (#[trigger] self.history[t]).position.len() == self.dim
        &&& forall|t: int|
            0 < t < self.history.len() ==> !improves(
                self.history[t - 1].fitness,
                (#[trigger] self.history[t]).fitness,
                self.maximization,
            )
    }
}

/// Whether every fitness that `state` holds is what `f` returned for the
/// position it is recorded with.
pub open spec fn evaluated<F: Fn(&Vec<Scalar>) -> Scalar>(f: F, state: WoaView) -> bool {
    &&& forall|k: int| 0 <= k < state.whales.len() ==> gives(f, #[trigger] state.whales[k])
    &&& gives(f, state.best)
    &&& forall|t: int| 0 <= t < state.history.len() ==> gives(f, #[trigger] state.history[t])
}

/// Whether `post` is what one iteration makes of `pre` when the whales have moved
/// to `moved`: the moved positions are clipped, evaluated and sorted, the
/// best-known candidate gives way to the new rank 0 if that one is strictly
/// better, and it is then appended to the history. `perm[k]` is the place in
/// `moved` of the whale that ends at rank `k`.
pub open spec fn advanced(
    pre: WoaView,
    moved: Seq<Seq<Scalar>>,
    post: WoaView,
    perm: Seq<int>,
) -> bool {
    &&& post.same_configuration(pre)
    &&& ranked(post.whales, perm, pre.maximization)
    &&& forall|k: int|
        0 <= k < post.whales.len() ==> (#[trigger] post.whales[k]).position == clip_position(
            moved[perm[k]],
            pre.lower,
            pre.upper,
        )
    &&& post.best == if improves(post.whales[0].fitness, pre.best.fitness, pre.maximization) {
        post.whales[0]
    } else {
        pre.best
    }
    &&& post.history == pre.history.push(post.best)
}

/// Whether `made` is the state in which an optimizer starts on the population
/// drawn as `draws`: the whales are evaluated and sorted, the one of rank 0 is
/// the best-known candidate, and the history is empty. `perm[k]` is the place in
/// `draws` of the whale that starts at rank `k`.
pub open spec fn started(
    made: WoaView,
    draws: Seq<Seq<Scalar>>,
    perm: Seq<int>,
) -> bool {
    &&& made.whales.len() == draws.len()
    &&& ranked(made.whales, perm, made.maximization)
    &&& forall|k: int|
        0 <= k < made.whales.len() ==> (#[trigger] made.whales[k]).position == draws[perm[k]]
    &&& made.best == made.whales[0]
    &&& made.history == Seq::<Candidate>::empty()
}

/// What is drawn for the move of one whale. The optimizer holds `r`, `l` and
/// `p` to their ranges; the norm it takes as it is given.
#[derive(Debug)]
pub struct Draw {
    /// The vector `r`: a coordinate for each dimension, each drawn from the
    /// search interval.
    pub r: Vec<Scalar>,
    /// The Euclidean norm of the coefficient vector `A = a * r + a`.
    pub norm: Scalar,
    /// The number `l`, drawn between -1 and 1, that shapes the spiral.
    pub l: Scalar,
    /// The number `p`, drawn between 0 and 1, that picks the move.
    pub p: Scalar,
}

/// Whether the numbers of a draw come from their ranges: each coordinate of `r`
/// from the search interval, `l` from between -1 and 1, and `p` from between 0
/// and 1, ends included.
pub open spec fn in_range(drawn: Draw, lower: Scalar, upper: Scalar) -> bool {
    &&& all_inside(drawn.r@, lower, upper)
    &&& inside(drawn.l, Scalar { bits: MINUS_ONE_BITS }, Scalar { bits: ONE_BITS })
    &&& inside(drawn.p, Scalar { bits: 0 }, Scalar { bits: ONE_BITS })
}

/// Whether `out` is a position that `step` returned for a whale at `position`
/// that makes the move `kind` towards `prey`.
pub open spec fn made_by<S>(
    step: S,
    kind: Move,
    a: ConvergenceFactor,
    drawn: Draw,
    prey: Seq<Scalar>,
    position: Seq<Scalar>,
    out: Seq<Scalar>,
) -> bool where S: Fn(Move, ConvergenceFactor, &Draw, &Vec<Scalar>, &Vec<Scalar>) -> Vec<Scalar> {
    exists|target: Vec<Scalar>, from: Vec<Scalar>, made: Vec<Scalar>|
        target@ == prey && from@ == position && made@ == out && #[trigger] call_ensures(
            step,
            (kind, a, &drawn, &target, &from),
            made,
        )
}

/// Whether `out` is a position to which the whale of rank `whale` moves by the
/// rule once `drawn` is drawn for it. The move is the one that the draw picks.
/// A whale that searches takes for its prey a whale of the generation, as it
/// stands in `state`, that `pick` chose; one that encircles or spirals takes
/// the best-known candidate of `state`.
pub open spec fn stepped<P, S>(
    pick: P,
    step: S,
    state: WoaView,
    whale: int,
    drawn: Draw,
    out: Seq<Scalar>,
) -> bool where
    P: Fn(usize) -> usize,
    S: Fn(Move, ConvergenceFactor, &Draw, &Vec<Scalar>, &Vec<Scalar>) -> Vec<Scalar>,
{
    let a = convergence_factor_at(state.history.len(), state.max_iterations);
    let kind = move_for(drawn.p, drawn.norm);
    if kind == Move::Search {
        exists|other: usize|
            #[trigger] call_ensures(pick, (state.whales.len() as usize,), other) && other
                < state.whales.len() && made_by(
                step,
                kind,
                a,
                drawn,
                state.whales[other as int].position,
                state.whales[whale].position,
                out,
            )
    } else {
        made_by(step, kind, a, drawn, state.best.position, state.whales[whale].position, out)
    }
}

/// Whether `drawn` is something that `draw` returned for the box of `state` and
/// the convergence factor of the iteration that `state` waits for.
pub open spec fn drawn_for<D>(draw: D, state: WoaView, drawn: Draw) -> bool where
    D: Fn(usize, Scalar, Scalar, ConvergenceFactor) -> Draw,
{
    call_ensures(
        draw,
        (
            state.dim as usize,
            state.lower,
            state.upper,
            convergence_factor_at(state.history.len(), state.max_iterations),
        ),
        drawn,
    )
}

/// Whether `out` is a position to which the whale of rank `whale` moves by the
/// rule in the iteration that `state` waits for: what `draw` returned for it
/// has a coordinate for each dimension and numbers from their ranges, and the
/// whale moved as that draw says.
pub open spec fn moved_by_rule<D, P, S>(
    draw: D,
    pick: P,
    step: S,
    state: WoaView,
    whale: int,
    out: Seq<Scalar>,
) -> bool where
    D: Fn(usize, Scalar, Scalar, ConvergenceFactor) -> Draw,
    P: Fn(usize) -> usize,
    S: Fn(Move, ConvergenceFactor, &Draw, &Vec<Scalar>, &Vec<Scalar>) -> Vec<Scalar>,
{
    exists|drawn: Draw|
        #[trigger] drawn_for(draw, state, drawn) && drawn.r@.len() == state.dim && in_range(
            drawn,
            state.lower,
            state.upper,
        ) && stepped(pick, step, state, whale, drawn, out)
}

/// Whether in each iteration of a run each whale moved by the rule.
pub open spec fn moved_by_rules<D, P, S>(
    draw: D,
    pick: P,
    step: S,
    states: Seq<WoaView>,
    moved: Seq<Seq<Seq<Scalar>>>,
) -> bool where
    D: Fn(usize, Scalar, Scalar, ConvergenceFactor) -> Draw,
    P: Fn(usize) -> usize,
    S: Fn(Move, ConvergenceFactor, &Draw, &Vec<Scalar>, &Vec<Scalar>) -> Vec<Scalar>,
{
    forall|k: int, i: int|
        0 <= k < moved.len() && 0 <= i < moved[k].len() ==> moved_by_rule(
            draw,
            pick,
            step,
            states[k],
            i,
            #[trigger] moved[k][i],
        )
}

/// Whether `draw`, `pick` and `step` can be called for the moves of an
/// optimizer with the configuration of `state`: `draw` for its box and any
/// convergence factor, `pick` for the size of its population, and `step` for
/// any move on positions of its dimension.
pub open spec fn callable<D, P, S>(draw: D, pick: P, step: S, state: WoaView) -> bool where
    D: Fn(usize, Scalar, Scalar, ConvergenceFactor) -> Draw,
    P: Fn(usize) -> usize,
    S: Fn(Move, ConvergenceFactor, &Draw, &Vec<Scalar>, &Vec<Scalar>) -> Vec<Scalar>,
{
    &&& forall|a: ConvergenceFactor| #[trigger]
        call_requires(draw, (state.dim as usize, state.lower, state.upper, a))
    &&& call_requires(pick, (state.whales.len() as usize,))
    &&& forall|
        kind: Move,
        a: ConvergenceFactor,
        drawn: Draw,
        prey: Vec<Scalar>,
        position: Vec<Scalar>,
    |
        prey@.len() == state.dim && position@.len() == state.dim ==> #[trigger] call_requires(
            step,
            (kind, a, &drawn, &prey, &position),
        )
}

/// Whether the moves of the iteration that `state` waits for can fail with
/// `error`. They fail as `DimensionMismatch` if `draw` returned a vector `r`, or
/// `step` a position, of another length than the space has dimensions; and as
/// `OutOfBounds` if `draw` returned a number from outside its range, or `pick`
/// an index that names no whale.
pub open spec fn misled<D, P, S>(
    draw: D,
    pick: P,
    step: S,
    state: WoaView,
    error: WoaError,
) -> bool where
    D: Fn(usize, Scalar, Scalar, ConvergenceFactor) -> Draw,
    P: Fn(usize) -> usize,
    S: Fn(Move, ConvergenceFactor, &Draw, &Vec<Scalar>, &Vec<Scalar>) -> Vec<Scalar>,
{
    match error {
        WoaError::DimensionMismatch => {
            ||| exists|drawn: Draw|
                #[trigger] drawn_for(draw, state, drawn) && drawn.r@.len() != state.dim
            ||| exists|whale: int, out: Seq<Scalar>|
                0 <= whale < state.whales.len() && out.len() != state.dim
                    && #[trigger] moved_by_rule(draw, pick, step, state, whale, out)
        },
        WoaError::OutOfBounds => {
            ||| exists|drawn: Draw|
                #[trigger] drawn_for(draw, state, drawn) && drawn.r@.len() == state.dim
                    && !in_range(drawn, state.lower, state.upper)
            ||| exists|other: usize|
                #[trigger] call_ensures(pick, (state.whales.len() as usize,), other) && other
                    >= state.whales.len()
        },
        _ => false,
    }
}

/// The views of the entries of a history, in order.
pub open spec fn history_views(history: Seq<(Vec<Scalar>, Scalar)>) -> Seq<Candidate> {
    history.map_values(|e: (Vec<Scalar>, Scalar)| snapshot_view(e))
}

/// Whether `states` are the states of a run, from iteration to iteration: each
/// but the last is unfinished and becomes the next when its whales have moved to
/// the positions in `moved`.
pub open spec fn is_run(
    states: Seq<WoaView>,
    moved: Seq<Seq<Seq<Scalar>>>,
    perms: Seq<Seq<int>>,
) -> bool {
    &&& states.len() >= 1
    &&& moved.len() == states.len() - 1
    &&& perms.len() == states.len() - 1
    &&& forall|k: int|
        0 <= k < states.len() - 1 ==> !(#[trigger] states[k]).finished() && well_shaped(
            moved[k],
            states[k].whales.len(),
            states[k].dim,
        ) && advanced(states[k], moved[k], states[k + 1], perms[k])
}

/// The convergence factor of iteration `iteration` out of `max_iterations`.
pub fn convergence_factor(iteration: usize, max_iterations: usize) -> (a: ConvergenceFactor)
    ensures
        a == convergence_factor_at(iteration as nat, max_iterations as nat),
{
    let numerator: i128 = 2 * (max_iterations as i128) - 2 * (iteration as i128);
    ConvergenceFactor { numerator, denominator: max_iterations as u128 }
}

/// Picks the move of a whale from its draw `p` and the norm of its coefficient
/// vector `A`.
pub fn select_move(p: Scalar, norm: Scalar) -> (kind: Move)
    ensures
        kind == move_for(p, norm),
{
    if p.lt(Scalar::from_bits(HALF_BITS)) {
        if norm.lt(Scalar::from_bits(ONE_BITS)) {
            Move::Encircle
        } else {
            Move::Search
        }
    } else {
        Move::Spiral
    }
}

/// Whether the numbers of a draw come from their ranges.
pub fn is_in_range(drawn: &Draw, lower: Scalar, upper: Scalar) -> (r: bool)
    ensures
        r == in_range(*drawn, lower, upper),
{
    let one: Scalar = Scalar::from_bits(ONE_BITS);
    is_all_inside(&drawn.r, lower, upper) && Scalar::from_bits(MINUS_ONE_BITS).le(drawn.l)
        && drawn.l.le(one) && Scalar::zero().le(drawn.p) && drawn.p.le(one)
}

/// Whether a fitness of `candidate` is strictly better than one of `incumbent`.
pub fn is_improvement(candidate: Scalar, incumbent: Scalar, maximization: bool) -> (r: bool)
    ensures
        r == improves(candidate, incumbent, maximization),
{
    if maximization {
        candidate.gt(incumbent)
    } else {
        candidate.lt(incumbent)
    }
}

/// A clipped coordinate lies beyond neither bound.
pub proof fn lemma_clip_within(x: Scalar, lower: Scalar, upper: Scalar)
    requires
        lower.le(upper),
    ensures
        within(clip_coordinate(x, lower, upper), lower, upper),
{
}

/// A whale optimizer: the population, the best-known whale, the configuration
/// and the history of a run over a box of `dim` dimensions.
///
/// The optimizer picks the moves, evaluates, clips, sorts and keeps the
/// records. What is random and what is arithmetic on numbers it has from three
/// functions of its driver: `draw` draws for a whale, `pick` chooses a whale
/// among the population, and `step` computes where a move ends. `run` makes a
/// whole run with them. A driver that keeps the loop to itself reads `request`
/// and answers with `move_whales` and `advance`.
pub struct WOA<F> {
    whales: Population,
    best_whale: Whale,
    bounds: (Scalar, Scalar),
    maximization: bool,
    max_iterations: usize,
    objective_function: F,
    dim: usize,
    history: Vec<(Vec<Scalar>, Scalar)>,
}

impl<F> View for WOA<F> {
    type V = WoaView;

    closed spec fn view(&self) -> WoaView {
        WoaView {
            dim: self.dim as nat,
            lower: self.bounds.0,
            upper: self.bounds.1,
            maximization: self.maximization,
            max_iterations: self.max_iterations as nat,
            whales: views(self.whales.members@),
            best: self.best_whale@,
            history: history_views(self.history@),
        }
    }
}

impl<F: Fn(&Vec<Scalar>) -> Scalar> WOA<F> {
    /// The objective function.
    pub closed spec fn objective(&self) -> F {
        self.objective_function
    }

    /// Whether the population has been sorted.
    pub closed spec fn ordered(&self) -> bool {
        self.whales.sorted
    }

    /// Whether this is a state that an optimizer reaches.
    pub open spec fn wf(&self) -> bool {
        &&& self.ordered()
        &&& self@.sound()
        &&& evaluated(self.objective(), self@)
        &&& total(self.objective(), self@.dim, self@.lower, self@.upper)
    }

    /// An optimizer over the box `bounds.0 ..= bounds.1` in `dim` dimensions,
    /// started on the population whose whale `k` was drawn at `draws[k]`.
    ///
    /// The configuration is checked first, then the shape of the draws, then that
    /// each draw is a number of the box.
    pub fn initialize(
        dim: usize,
        population_size: usize,
        bounds: (Scalar, Scalar),
        maximization: bool,
        max_iterations: usize,
        obj_func: F,
        draws: &Vec<Vec<Scalar>>,
    ) -> (made: Result<Self, WoaError>)
        requires
            total(obj_func, dim as nat, bounds.0, bounds.1),
        ensures
            (population_size == 0 || dim == 0 || max_iterations == 0 || bounds.0.gt(bounds.1))
                ==> made is Err && made->Err_0 == WoaError::InvalidConfiguration,
            !(population_size == 0 || dim == 0 || max_iterations == 0 || bounds.0.gt(bounds.1))
                && !well_shaped(position_views(draws@), population_size as nat, dim as nat)
                ==> made is Err && made->Err_0 == WoaError::DimensionMismatch,
            !(population_size == 0 || dim == 0 || max_iterations == 0 || bounds.0.gt(bounds.1))
                && well_shaped(position_views(draws@), population_size as nat, dim as nat)
                && !all_positions_inside(position_views(draws@), bounds.0, bounds.1) ==> made is Err
                && made->Err_0 == WoaError::OutOfBounds,
            !(population_size == 0 || dim == 0 || max_iterations == 0 || bounds.0.gt(bounds.1))
                && well_shaped(position_views(draws@), population_size as nat, dim as nat)
                && all_positions_inside(position_views(draws@), bounds.0, bounds.1) ==> made is Ok
                && made->Ok_0.wf() && made->Ok_0.objective() == obj_func && made->Ok_0@.dim == dim
                && made->Ok_0@.lower == bounds.0 && made->Ok_0@.upper == bounds.1
                && made->Ok_0@.maximization == maximization && made->Ok_0@.max_iterations
                == max_iterations && exists|perm: Seq<int>| #[trigger]
                started(made->Ok_0@, position_views(draws@), perm),
    {
        if population_size == 0 || dim == 0 || max_iterations == 0 || bounds.0.gt(bounds.1) {
            return Err(WoaError::InvalidConfiguration);
        }
        let mut whales = match Population::initialize_whales(
            dim,
            population_size,
            bounds.0,
            bounds.1,
            draws,
        ) {
            Ok(population) => population,
            Err(error) => {
                return Err(error);
            },
        };
        let ghost drawn = whales.members@;
        proof {
            assert forall|k: int| 0 <= k < drawn.len() implies call_requires(
                obj_func,
                (&(#[trigger] drawn[k]).position,),
            ) by {
                assert(position_views(draws@)[k] == draws@[k]@);
                assert(drawn[k].position@.len() == dim);
                assert(all_inside(position_views(draws@)[k], bounds.0, bounds.1));
                assert(all_within(drawn[k].position@, bounds.0, bounds.1));
            }
        }
        whales.calculate_fitness_for_each_whale(&obj_func);
        let ghost valued = whales.members@;
        whales.sort_whales(maximization);
        let ghost perm: Seq<int> = choose|perm: Seq<int>|
            rearranged(valued, whales.members@, perm) && #[trigger] ranked(
                views(whales.members@),
                perm,
                maximization,
            );
        let mut best_whale = Whale::zeros(dim);
        if let Ok(leader) = whales.best() {
            best_whale = leader.clone();
        }
        let made = WOA {
            whales,
            best_whale,
            bounds,
            maximization,
            max_iterations,
            objective_function: obj_func,
            dim,
            history: Vec::new(),
        };
        proof {
            let state = made@;
            assert(state.history =~= Seq::<Candidate>::empty());
            assert forall|k: int| 0 <= k < state.whales.len() implies (
            #[trigger] state.whales[k]).position == position_views(draws@)[perm[k]]
                && state.whales[k].position.len() == dim && all_within(
                state.whales[k].position,
                bounds.0,
                bounds.1,
            ) && gives(obj_func, state.whales[k]) by {
                let from = perm[k];
                assert(state.whales[k] == made.whales.members@[k]@);
                assert(0 <= from < drawn.len());
                assert(made.whales.members@[k] == valued[from]);
                assert(valued[from].position == drawn[from].position);
                assert(drawn[from].position@ == draws@[from]@);
                assert(position_views(draws@)[from] == draws@[from]@);
                assert(all_inside(position_views(draws@)[from], bounds.0, bounds.1));
                let p = valued[from].position;
                assert(p@ == state.whales[k].position && call_ensures(
                    obj_func,
                    (&p,),
                    state.whales[k].fitness,
                ));
            }
            assert(state.whales[0] == made.whales.members@[0]@);
            assert(state.best == state.whales[0]);
            assert(gives(obj_func, state.whales[0]));
            assert(ranked(state.whales, perm, maximization));
            assert(started(state, position_views(draws@), perm));
            assert(state.lower.le(state.upper)) by {
                let first = position_views(draws@)[0];
                assert(all_inside(first, bounds.0, bounds.1));
                assert(inside(first[0], bounds.0, bounds.1));
            }
            assert(state.sound());
        }
        Ok(made)
    }

    /// The number of dimensions of the search space.
    pub fn dim(&self) -> (dim: usize)
        ensures
            dim == self@.dim,
    {
        self.dim
    }

    /// The lower and the upper bound of every coordinate.
    pub fn bounds(&self) -> (bounds: (Scalar, Scalar))
        ensures
            bounds.0 == self@.lower,
            bounds.1 == self@.upper,
    {
        self.bounds
    }

    /// Whether the optimizer maximizes.
    pub fn maximization(&self) -> (maximization: bool)
        ensures
            maximization == self@.maximization,
    {
        self.maximization
    }

    /// The iteration budget.
    pub fn max_iterations(&self) -> (budget: usize)
        ensures
            budget == self@.max_iterations,
    {
        self.max_iterations
    }

    /// The whales of the current generation, in rank order.
    pub fn whales(&self) -> (whales: &Vec<Whale>)
        ensures
            views(whales@) == self@.whales,
    {
        &self.whales.members
    }

    /// The best-known whale.
    pub fn best_whale(&self) -> (best: &Whale)
        ensures
            best@ == self@.best,
    {
        &self.best_whale
    }

    /// The best-known position and fitness after each completed iteration.
    pub fn history(&self) -> (history: &Vec<(Vec<Scalar>, Scalar)>)
        ensures
            history_views(history@) == self@.history,
    {
        &self.history
    }

    /// What the optimizer waits for.
    pub fn request(&self) -> (pending: Request)
        ensures
            pending == self@.pending(),
    {
        if self.history.len() >= self.max_iterations {
            Request::Finished
        } else {
            Request::Move {
                iteration: self.history.len(),
                factor: convergence_factor(self.history.len(), self.max_iterations),
            }
        }
    }

    /// Completes one iteration with the positions to which the whales have
    /// moved, `moved[k]` being that of the whale of rank `k`, and says what the
    /// optimizer waits for next.
    ///
    /// The positions are clipped into the box, evaluated and sorted; the
    /// best-known whale gives way to the new whale of rank 0 if that one is
    /// strictly better, and is then appended to the history. Once the budget is
    /// spent nothing changes any more. Positions of the wrong shape are refused
    /// and change nothing.
    pub fn advance(&mut self, moved: &Vec<Vec<Scalar>>) -> (answer: Result<Request, WoaError>)
        requires
            old(self).wf(),
        ensures
            final(self).wf(),
            final(self).objective() == old(self).objective(),
            final(self)@.same_configuration(old(self)@),
            old(self)@.finished() ==> final(self)@ == old(self)@ && answer == Ok::<
                Request,
                WoaError,
            >(Request::Finished),
            !old(self)@.finished() && !well_shaped(
                position_views(moved@),
                old(self)@.whales.len(),
                old(self)@.dim,
            ) ==> final(self)@ == old(self)@ && answer == Err::<Request, WoaError>(
                WoaError::DimensionMismatch,
            ),
            !old(self)@.finished() && well_shaped(
                position_views(moved@),
                old(self)@.whales.len(),
                old(self)@.dim,
            ) ==> answer == Ok::<Request, WoaError>(final(self)@.pending()) && exists|
                perm: Seq<int>,
            | #[trigger] advanced(old(self)@, position_views(moved@), final(self)@, perm),
    {
        if self.history.len() >= self.max_iterations {
            return Ok(Request::Finished);
        }
        let count: usize = self.whales.members.len();
        if !is_well_shaped(moved, count, self.dim) {
            return Err(WoaError::DimensionMismatch);
        }
        let ghost places = position_views(moved@);
        let mut k: usize = 0;
        while k < count
            invariant
                k <= count,
                count == self.whales.members@.len(),
                count == moved@.len(),
                self.whales.sorted == old(self).whales.sorted,
                self.best_whale == old(self).best_whale,
                self.bounds == old(self).bounds,
                self.maximization == old(self).maximization,
                self.max_iterations == old(self).max_iterations,
                self.objective_function == old(self).objective_function,
                self.dim == old(self).dim,
                self.history == old(self).history,
                forall|j: int|
                    0 <= j < k ==> (#[trigger] self.whales.members@[j]).position@
                        == moved@[j]@,
            decreases count - k,
        {
            self.whales.members[k].position = copy_position(&moved[k]);
            k += 1;
        }
        self.whales.check_if_any_whale_goes_beyond_bounds(self.bounds.0, self.bounds.1);
        let ghost clipped = self.whales.members@;
        proof {
            assert forall|j: int| 0 <= j < count implies call_requires(
                self.objective_function,
                (&(#[trigger] clipped[j]).position,),
            ) by {
                assert(places[j] == moved@[j]@);
                assert(clipped[j].position@.len() == self.dim);
                assert forall|i: int| 0 <= i < clipped[j].position@.len() implies within(
                    #[trigger] clipped[j].position@[i],
                    self.bounds.0,
                    self.bounds.1,
                ) by {
                    lemma_clip_within(places[j][i], self.bounds.0, self.bounds.1);
                }
            }
        }
        self.whales.calculate_fitness_for_each_whale(&self.objective_function);
        let ghost valued = self.whales.members@;
        self.whales.sort_whales(self.maximization);
        let ghost perm: Seq<int> = choose|perm: Seq<int>|
            rearranged(valued, self.whales.members@, perm) && #[trigger] ranked(
                views(self.whales.members@),
                perm,
                self.maximization,
            );
        if let Ok(leader) = self.whales.best() {
            if is_improvement(leader.fitness, self.best_whale.fitness, self.maximization) {
                self.best_whale = leader.clone();
            }
        }
        let entry = self.best_whale.as_tuple();
        self.history.push(entry);
        proof {
            let pre = old(self)@;
            let post = self@;
            let f = self.objective_function;
            assert(post.history =~= pre.history.push(post.best));
            assert forall|j: int| 0 <= j < post.whales.len() implies (
            #[trigger] post.whales[j]).position == clip_position(
                places[perm[j]],
                pre.lower,
                pre.upper,
            ) && post.whales[j].position.len() == pre.dim && all_within(
                post.whales[j].position,
                pre.lower,
                pre.upper,
            ) && gives(f, post.whales[j]) by {
                let from = perm[j];
                assert(post.whales[j] == self.whales.members@[j]@);
                assert(0 <= from < count);
                assert(self.whales.members@[j] == valued[from]);
                assert(valued[from].position == clipped[from].position);
                assert(places[from] == moved@[from]@);
                let p = valued[from].position;
                assert(p@ == post.whales[j].position && call_ensures(
                    f,
                    (&p,),
                    post.whales[j].fitness,
                ));
                assert forall|i: int| 0 <= i < post.whales[j].position.len() implies within(
                    #[trigger] post.whales[j].position[i],
                    pre.lower,
                    pre.upper,
                ) by {
                    lemma_clip_within(places[from][i], pre.lower, pre.upper);
                }
            }
            assert(ranked(post.whales, perm, pre.maximization));
            assert(advanced(pre, places, post, perm));
            assert(post.history.last() == post.best);
            assert forall|t: int| 0 <= t < post.history.len() implies (
            #[trigger] post.history[t]).position.len() == post.dim && gives(f, post.history[t]) by {
                if t < pre.history.len() {
                    assert(post.history[t] == pre.history[t]);
                }
            }
            assert forall|t: int| 0 < t < post.history.len() implies !improves(
                post.history[t - 1].fitness,
                (#[trigger] post.history[t]).fitness,
                post.maximization,
            ) by {
                if t < pre.history.len() {
                    assert(post.history[t] == pre.history[t]);
                    assert(post.history[t - 1] == pre.history[t - 1]);
                } else {
                    assert(post.history[t] == post.best);
                    if t > 0 {
                        assert(post.history[t - 1] == pre.history.last());
                    }
                }
            }
            assert(post.sound());
            assert(evaluated(f, post));
        }
        Ok(self.request())
    }

    /// The positions to which the whales move in the iteration that the
    /// optimizer waits for, `moved[k]` being that of the whale of rank `k`.
    ///
    /// For each whale in turn, `draw` is asked for what the move is drawn
    /// from. The draw picks the move. A whale that searches closes in on a whale
    /// of the generation as it stands, which `pick` chooses; one that encircles
    /// or spirals takes the best-known whale for its prey. `step` then computes
    /// the position. Refused are a draw with a vector of the wrong length or a
    /// number from outside its range, a choice of `pick` that names no whale,
    /// and a position from `step` of another length than the space has
    /// dimensions.
    pub fn move_whales<D, P, S>(&self, draw: &D, pick: &P, step: &S) -> (moved: Result<
        Vec<Vec<Scalar>>,
        WoaError,
    >) where
        D: Fn(usize, Scalar, Scalar, ConvergenceFactor) -> Draw,
        P: Fn(usize) -> usize,
        S: Fn(Move, ConvergenceFactor, &Draw, &Vec<Scalar>, &Vec<Scalar>) -> Vec<Scalar>,

        requires
            self.wf(),
            callable(*draw, *pick, *step, self@),
        ensures
            moved is Ok ==> well_shaped(
                position_views(moved->Ok_0@),
                self@.whales.len(),
                self@.dim,
            ) && forall|k: int|
                0 <= k < self@.whales.len() ==> moved_by_rule(
                    *draw,
                    *pick,
                    *step,
                    self@,
                    k,
                    #[trigger] position_views(moved->Ok_0@)[k],
                ),
            moved is Err ==> misled(*draw, *pick, *step, self@, moved->Err_0),
    {
        let a: ConvergenceFactor = convergence_factor(self.history.len(), self.max_iterations);
        let count: usize = self.whales.members.len();
        let mut moved: Vec<Vec<Scalar>> = Vec::with_capacity(count);
        let mut k: usize = 0;
        while k < count
            invariant
                k <= count,
                count == self.whales.members@.len(),
                self.wf(),
                callable(*draw, *pick, *step, self@),
                a == convergence_factor_at(self@.history.len(), self@.max_iterations),
                moved@.len() == k,
                forall|j: int| 0 <= j < k ==> (#[trigger] moved@[j])@.len() == self.dim,
                forall|j: int|
                    0 <= j < k ==> moved_by_rule(
                        *draw,
                        *pick,
                        *step,
                        self@,
                        j,
                        (#[trigger] moved@[j])@,
                    ),
            decreases count - k,
        {
            let ghost state = self@;
            assert(state.whales[k as int] == self.whales.members@[k as int]@);
            let drawn: Draw = draw(self.dim, self.bounds.0, self.bounds.1, a);
            assert(drawn_for(*draw, state, drawn));
            if drawn.r.len() != self.dim {
                assert(misled(*draw, *pick, *step, state, WoaError::DimensionMismatch));
                return Err(WoaError::DimensionMismatch);
            }
            if !is_in_range(&drawn, self.bounds.0, self.bounds.1) {
                assert(misled(*draw, *pick, *step, state, WoaError::OutOfBounds));
                return Err(WoaError::OutOfBounds);
            }
            let kind: Move = select_move(drawn.p, drawn.norm);
            let made: Vec<Scalar> = match kind {
                Move::Search => {
                    let other: usize = pick(count);
                    if other >= count {
                        assert(misled(*draw, *pick, *step, state, WoaError::OutOfBounds));
                        return Err(WoaError::OutOfBounds);
                    }
                    assert(state.whales[other as int] == self.whales.members@[other as int]@);
                    step(
                        kind,
                        a,
                        &drawn,
                        &self.whales.members[other].position,
                        &self.whales.members[k].position,
                    )
                },
                _ => step(
                    kind,
                    a,
                    &drawn,
                    &self.best_whale.position,
                    &self.whales.members[k].position,
                ),
            };
            assert(stepped(*pick, *step, state, k as int, drawn, made@));
            assert(moved_by_rule(*draw, *pick, *step, state, k as int, made@));
            if made.len() != self.dim {
                assert(misled(*draw, *pick, *step, state, WoaError::DimensionMismatch));
                return Err(WoaError::DimensionMismatch);
            }
            moved.push(made);
            k += 1;
        }
        proof {
            assert forall|j: int| 0 <= j < self@.whales.len() implies moved_by_rule(
                *draw,
                *pick,
                *step,
                self@,
                j,
                #[trigger] position_views(moved@)[j],
            ) && position_views(moved@)[j].len() == self@.dim by {
                assert(position_views(moved@)[j] == moved@[j]@);
            }
        }
        Ok(moved)
    }

    /// Runs the optimizer to the end of its budget and returns the history: the
    /// best-known position and fitness after each iteration. In each iteration
    /// the whales move as `move_whales` says, with what `draw`, `pick` and `step`
    /// return, and the optimizer then takes the new positions as `advance` says.
    ///
    /// The run fails only where `move_whales` refuses what `draw`, `pick` or
    /// `step` returned; the iterations made until then stand.
    pub fn run<D, P, S>(&mut self, draw: &D, pick: &P, step: &S) -> (answer: Result<
        Vec<(Vec<Scalar>, Scalar)>,
        WoaError,
    >) where
        D: Fn(usize, Scalar, Scalar, ConvergenceFactor) -> Draw,
        P: Fn(usize) -> usize,
        S: Fn(Move, ConvergenceFactor, &Draw, &Vec<Scalar>, &Vec<Scalar>) -> Vec<Scalar>,

        requires
            old(self).wf(),
            callable(*draw, *pick, *step, old(self)@),
        ensures
            final(self).wf(),
            final(self).objective() == old(self).objective(),
            final(self)@.same_configuration(old(self)@),
            exists|states: Seq<WoaView>, moved: Seq<Seq<Seq<Scalar>>>, perms: Seq<Seq<int>>|
                #[trigger] is_run(states, moved, perms) && states[0] == old(self)@ && states.last()
                    == final(self)@ && moved_by_rules(*draw, *pick, *step, states, moved),
            answer is Ok ==> final(self)@.history.len() == final(self)@.max_iterations
                && history_views(answer->Ok_0@) == final(self)@.history,
            answer is Err ==> misled(*draw, *pick, *step, final(self)@, answer->Err_0),
    {
        let ghost mut states: Seq<WoaView> = seq![self@];
        let ghost mut moves: Seq<Seq<Seq<Scalar>>> = Seq::empty();
        let ghost mut perms: Seq<Seq<int>> = Seq::empty();
        while self.history.len() < self.max_iterations
            invariant
                self.wf(),
                self.objective() == old(self).objective(),
                self@.same_configuration(old(self)@),
                callable(*draw, *pick, *step, old(self)@),
                is_run(states, moves, perms),
                states[0] == old(self)@,
                states.last() == self@,
                moved_by_rules(*draw, *pick, *step, states, moves),
            decreases self.max_iterations - self.history.len(),
        {
            let ghost before = self@;
            let moved: Vec<Vec<Scalar>> = match self.move_whales(draw, pick, step) {
                Ok(moved) => moved,
                Err(error) => {
                    return Err(error);
                },
            };
            match self.advance(&moved) {
                Ok(_) => {
                    proof {
                        let perm = choose|perm: Seq<int>|
                            #[trigger] advanced(before, position_views(moved@), self@, perm);
                        let held = states;
                        let asked = moves;
                        states = states.push(self@);
                        moves = moves.push(position_views(moved@));
                        perms = perms.push(perm);
                        assert forall|k: int| 0 <= k < states.len() - 1 implies !(
                        #[trigger] states[k]).finished() && well_shaped(
                            moves[k],
                            states[k].whales.len(),
                            states[k].dim,
                        ) && advanced(states[k], moves[k], states[k + 1], perms[k]) by {
                            if k < held.len() - 1 {
                                assert(states[k] == held[k]);
                                assert(states[k + 1] == held[k + 1]);
                            } else {
                                assert(states[k] == before);
                            }
                        }
                        assert forall|k: int, i: int|
                            0 <= k < moves.len() && 0 <= i < moves[k].len() implies moved_by_rule(
                            *draw,
                            *pick,
                            *step,
                            states[k],
                            i,
                            #[trigger] moves[k][i],
                        ) by {
                            if k < asked.len() {
                                assert(states[k] == held[k] && moves[k] == asked[k]);
                                assert(moved_by_rule(*draw, *pick, *step, held[k], i, asked[k][i]));
                            } else {
                                assert(states[k] == before);
                            }
                        }
                    }
                },
                Err(error) => {
                    return Err(error);
                },
            }
        }
        let history = self.copy_history();
        Ok(history)
    }

    /// An independent copy of the history.
    pub fn copy_history(&self) -> (history: Vec<(Vec<Scalar>, Scalar)>)
        ensures
            history_views(history@) == self@.history,
    {
        let mut history: Vec<(Vec<Scalar>, Scalar)> = Vec::with_capacity(self.history.len());
        let mut t: usize = 0;
        while t < self.history.len()
            invariant
                t <= self.history.len(),
                history@.len() == t,
                forall|j: int|
                    0 <= j < t ==> snapshot_view(#[trigger] history@[j]) == snapshot_view(
                        self.history@[j],
                    ),
            decreases self.history.len() - t,
        {
            let entry = (copy_position(&self.history[t].0), self.history[t].1);
            history.push(entry);
            t += 1;
        }
        assert(history_views(history@) =~= history_views(self.history@));
        history
    }
}

} // verus!
