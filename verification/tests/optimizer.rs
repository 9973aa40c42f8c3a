use nalgebra::DVector;
use rand::rngs::StdRng;
use rand::{Rng, SeedableRng};
use std::cell::RefCell;
use std::f64::consts::{E, PI};
use woa_jssp::error::WoaError;
use woa_jssp::scalar::Scalar;
use woa_jssp::woa::{
    convergence_factor, is_improvement, is_in_range, select_move, ConvergenceFactor, Draw, Move,
    Request, WOA,
};

type Objective = fn(&Vec<Scalar>) -> Scalar;

fn scalar(x: f64) -> Scalar {
    Scalar::from_bits(x.to_bits())
}

fn number(s: Scalar) -> f64 {
    f64::from_bits(s.to_bits())
}

fn position(xs: &[f64]) -> Vec<Scalar> {
    xs.iter().map(|x| scalar(*x)).collect()
}

fn numbers(p: &Vec<Scalar>) -> Vec<f64> {
    p.iter().map(|s| number(*s)).collect()
}

fn column(p: &Vec<Scalar>) -> DVector<f64> {
    DVector::from_vec(numbers(p))
}

fn value(a: ConvergenceFactor) -> f64 {
    a.numerator as f64 / a.denominator as f64
}

fn sum_of_squares(p: &Vec<Scalar>) -> Scalar {
    scalar(p.iter().map(|s| number(*s) * number(*s)).sum())
}

fn first_coordinate(p: &Vec<Scalar>) -> Scalar {
    p[0]
}

fn draw_population(
    rng: &mut StdRng,
    size: usize,
    dim: usize,
    lower: f64,
    upper: f64,
) -> Vec<Vec<Scalar>> {
    (0..size)
        .map(|_| (0..dim).map(|_| scalar(rng.random_range(lower..=upper))).collect())
        .collect()
}

/// What is drawn for one whale: `r`, then `l`, then `p`.
fn draw(rng: &mut StdRng, dim: usize, lower: Scalar, upper: Scalar, a: ConvergenceFactor) -> Draw {
    let a: f64 = value(a);
    let r: DVector<f64> =
        DVector::from_fn(dim, |_, _| rng.random_range(number(lower)..=number(upper)));
    let coefficient_a: DVector<f64> = (&r * a).add_scalar(a);
    let l: f64 = rng.random_range(-1f64..=1f64);
    let p: f64 = rng.random_range(0f64..=1f64);
    Draw {
        r: r.iter().map(|x| scalar(*x)).collect(),
        norm: scalar(coefficient_a.norm()),
        l: scalar(l),
        p: scalar(p),
    }
}

fn pick(rng: &mut StdRng, count: usize) -> usize {
    rng.random_range(0f64..count as f64) as usize
}

/// The position after the move `kind` towards `prey`.
fn step(
    kind: Move,
    a: ConvergenceFactor,
    drawn: &Draw,
    prey: &Vec<Scalar>,
    place: &Vec<Scalar>,
) -> Vec<Scalar> {
    let a: f64 = value(a);
    let r: DVector<f64> = column(&drawn.r);
    let prey: DVector<f64> = column(prey);
    let w: DVector<f64> = column(place);
    let next: DVector<f64> = match kind {
        Move::Encircle | Move::Search => {
            let coefficient_a: DVector<f64> = (&r * a).add_scalar(a);
            let coefficient_c: DVector<f64> = 2f64 * r;
            let d: DVector<f64> = (coefficient_c.component_mul(&prey) - &w).abs();
            &prey - coefficient_a.component_mul(&d)
        }
        Move::Spiral => {
            let l: f64 = number(drawn.l);
            let d: DVector<f64> = (&prey - &w).abs();
            &prey + d * E.powf(l) * (2f64 * PI * l).cos()
        }
    };
    next.iter().map(|x| scalar(*x)).collect()
}

fn bits(history: &Vec<(Vec<Scalar>, Scalar)>) -> Vec<(Vec<u64>, u64)> {
    history
        .iter()
        .map(|(p, f)| (p.iter().map(|s| s.to_bits()).collect(), f.to_bits()))
        .collect()
}

struct Outcome {
    initial_best: f64,
    history: Vec<(Vec<u64>, u64)>,
    inside_after_every_iteration: bool,
    requests: Vec<Request>,
}

/// A run that is driven iteration by iteration.
fn optimize(
    seed: u64,
    dim: usize,
    size: usize,
    bounds: (f64, f64),
    maximization: bool,
    max_iterations: usize,
    objective: Objective,
) -> Outcome {
    let mut rng = StdRng::seed_from_u64(seed);
    let draws = draw_population(&mut rng, size, dim, bounds.0, bounds.1);
    let mut woa = WOA::initialize(
        dim,
        size,
        (scalar(bounds.0), scalar(bounds.1)),
        maximization,
        max_iterations,
        objective,
        &draws,
    )
    .ok()
    .unwrap();
    let rng = RefCell::new(rng);
    let initial_best = number(woa.best_whale().fitness);
    let mut inside = true;
    let mut requests = vec![];
    let mut request = woa.request();
    loop {
        requests.push(request);
        match request {
            Request::Move { iteration: _, factor: _ } => {
                let moved = woa
                    .move_whales(
                        &|dim, lower, upper, a| draw(&mut rng.borrow_mut(), dim, lower, upper, a),
                        &|count| pick(&mut rng.borrow_mut(), count),
                        &step,
                    )
                    .unwrap();
                request = woa.advance(&moved).unwrap();
                for whale in woa.whales() {
                    for x in &whale.position {
                        inside = inside && bounds.0 <= number(*x) && number(*x) <= bounds.1;
                    }
                }
            }
            Request::Finished => break,
        }
    }
    Outcome {
        initial_best,
        history: bits(woa.history()),
        inside_after_every_iteration: inside,
        requests,
    }
}

/// A run that the optimizer makes on its own; what it returns, and what it keeps.
fn run_to_the_end(
    seed: u64,
    dim: usize,
    size: usize,
    bounds: (f64, f64),
    maximization: bool,
    max_iterations: usize,
    objective: Objective,
) -> (Vec<(Vec<u64>, u64)>, Vec<(Vec<u64>, u64)>) {
    let mut rng = StdRng::seed_from_u64(seed);
    let draws = draw_population(&mut rng, size, dim, bounds.0, bounds.1);
    let mut woa = WOA::initialize(
        dim,
        size,
        (scalar(bounds.0), scalar(bounds.1)),
        maximization,
        max_iterations,
        objective,
        &draws,
    )
    .ok()
    .unwrap();
    let rng = RefCell::new(rng);
    let returned = woa
        .run(
            &|dim, lower, upper, a| draw(&mut rng.borrow_mut(), dim, lower, upper, a),
            &|count| pick(&mut rng.borrow_mut(), count),
            &step,
        )
        .unwrap();
    (bits(&returned), bits(woa.history()))
}

fn small() -> WOA<Objective> {
    let draws = vec![position(&[3.0]), position(&[1.0]), position(&[2.0])];
    let objective: Objective = first_coordinate;
    WOA::initialize(1, 3, (scalar(0.0), scalar(10.0)), false, 2, objective, &draws).ok().unwrap()
}

fn ranks<F: Fn(&Vec<Scalar>) -> Scalar>(woa: &WOA<F>) -> Vec<f64> {
    woa.whales().iter().map(|w| number(w.position[0])).collect()
}

fn recorded<F: Fn(&Vec<Scalar>) -> Scalar>(woa: &WOA<F>) -> Vec<(Vec<f64>, f64)> {
    woa.history().iter().map(|(p, f)| (numbers(p), number(*f))).collect()
}

/// A draw that picks the move `kind`.
fn draw_for(kind: Move) -> Draw {
    let (p, norm) = match kind {
        Move::Encircle => (0.25, 0.5),
        Move::Search => (0.25, 1.5),
        Move::Spiral => (0.75, 0.5),
    };
    Draw { r: vec![scalar(5.0)], norm: scalar(norm), l: scalar(0.0), p: scalar(p) }
}

fn stay(
    _: Move,
    _: ConvergenceFactor,
    _: &Draw,
    _: &Vec<Scalar>,
    place: &Vec<Scalar>,
) -> Vec<Scalar> {
    place.clone()
}

#[test]
fn run_returns_the_whole_history() {
    for max_iterations in [1usize, 3, 50] {
        let (returned, kept) =
            run_to_the_end(5, 2, 10, (-5.12, 5.12), false, max_iterations, sum_of_squares);
        assert_eq!(returned.len(), max_iterations);
        assert_eq!(returned, kept);
    }
}

#[test]
fn run_makes_the_iterations_that_a_driver_makes_one_by_one() {
    let (returned, _) = run_to_the_end(42, 2, 10, (-5.12, 5.12), false, 50, sum_of_squares);
    let stepwise = optimize(42, 2, 10, (-5.12, 5.12), false, 50, sum_of_squares);
    assert_eq!(returned, stepwise.history);
    let first = f64::from_bits(returned[0].1);
    let last = f64::from_bits(returned[49].1);
    assert!(last < first);
}

#[test]
fn run_stops_at_a_position_of_the_wrong_length() {
    let mut woa = small();
    let calls = RefCell::new(0usize);
    let short = |_: Move, _: ConvergenceFactor, _: &Draw, _: &Vec<Scalar>, place: &Vec<Scalar>| {
        *calls.borrow_mut() += 1;
        if *calls.borrow() <= 4 {
            vec![scalar(number(place[0]) + 1.0)]
        } else {
            vec![]
        }
    };
    let answer = woa.run(&|_, _, _, _| draw_for(Move::Spiral), &|_| 0, &short);
    assert_eq!(answer, Err(WoaError::DimensionMismatch));
    assert_eq!(*calls.borrow(), 5);
    // the first iteration stands, the second was not made
    assert_eq!(recorded(&woa), vec![(vec![1.0], 1.0)]);
    assert_eq!(ranks(&woa), vec![2.0, 3.0, 4.0]);
    assert_eq!(
        woa.request(),
        Request::Move { iteration: 1, factor: ConvergenceFactor { numerator: 2, denominator: 2 } }
    );
}

#[test]
fn run_stops_at_a_pick_that_names_no_whale() {
    let mut woa = small();
    let answer = woa.run(&|_, _, _, _| draw_for(Move::Search), &|count| count, &stay);
    assert_eq!(answer, Err(WoaError::OutOfBounds));
    assert!(woa.history().is_empty());
    // no whale is picked unless one searches
    let answer = woa.run(&|_, _, _, _| draw_for(Move::Encircle), &|count| count, &stay);
    assert_eq!(answer.map(|history| history.len()), Ok(2));
}

#[test]
fn run_on_a_finished_optimizer_returns_the_history_again() {
    let mut woa = small();
    let first = woa.run(&|_, _, _, _| draw_for(Move::Spiral), &|_| 0, &stay).unwrap();
    assert_eq!(first.len(), 2);
    let again = woa.run(&|_, _, _, _| draw_for(Move::Spiral), &|_| 0, &stay).unwrap();
    assert_eq!(first, again);
    assert_eq!(woa.copy_history(), first);
    assert_eq!(recorded(&woa), vec![(vec![1.0], 1.0), (vec![1.0], 1.0)]);
}

#[test]
fn every_whale_moves_by_the_move_that_its_draw_picks() {
    let woa = small();
    let kinds = [Move::Encircle, Move::Search, Move::Spiral];
    let drawn = RefCell::new(0usize);
    let seen: RefCell<Vec<(Move, f64, f64, f64)>> = RefCell::new(vec![]);
    let asked: RefCell<Vec<(usize, f64, f64, ConvergenceFactor)>> = RefCell::new(vec![]);
    let moved = woa.move_whales(
        &|dim, lower, upper, a| {
            asked.borrow_mut().push((dim, number(lower), number(upper), a));
            let k = *drawn.borrow();
            *drawn.borrow_mut() += 1;
            let mut made = draw_for(kinds[k]);
            made.l = scalar(k as f64 / 2.0);
            made
        },
        &|count| count - 1,
        &|kind, _, made: &Draw, prey: &Vec<Scalar>, place: &Vec<Scalar>| {
            seen.borrow_mut().push((kind, number(made.l), number(prey[0]), number(place[0])));
            vec![scalar(number(place[0]) * 10.0)]
        },
    );
    let moved = moved.map(|m| m.iter().map(numbers).collect::<Vec<Vec<f64>>>());
    assert_eq!(moved, Ok(vec![vec![10.0], vec![20.0], vec![30.0]]));
    let first = ConvergenceFactor { numerator: 4, denominator: 2 };
    assert_eq!(*asked.borrow(), vec![(1, 0.0, 10.0, first); 3]);
    // the whales stand at 1, 2 and 3; the best-known one at 1, the last one at 3
    assert_eq!(
        *seen.borrow(),
        vec![
            (Move::Encircle, 0.0, 1.0, 1.0),
            (Move::Search, 0.5, 3.0, 2.0),
            (Move::Spiral, 1.0, 1.0, 3.0),
        ]
    );
    // the optimizer itself has not changed
    assert_eq!(ranks(&woa), vec![1.0, 2.0, 3.0]);
}

#[test]
fn a_searching_whale_reads_the_positions_of_before_the_iteration() {
    let woa = small();
    let preys: RefCell<Vec<f64>> = RefCell::new(vec![]);
    let moved = woa
        .move_whales(
            &|_, _, _, _| draw_for(Move::Search),
            &|_| 0,
            &|_, _, _, prey: &Vec<Scalar>, _| {
                preys.borrow_mut().push(number(prey[0]));
                vec![scalar(9.0)]
            },
        )
        .unwrap();
    assert_eq!(moved.len(), 3);
    assert_eq!(*preys.borrow(), vec![1.0, 1.0, 1.0]);
}

#[test]
fn a_draw_is_in_range_if_each_of_its_numbers_is() {
    let made = |r: &[f64], l: f64, p: f64| Draw {
        r: position(r),
        norm: scalar(3.0),
        l: scalar(l),
        p: scalar(p),
    };
    let (lower, upper) = (scalar(-5.12), scalar(5.12));
    assert!(is_in_range(&made(&[-5.12, 0.0, 5.12], -1.0, 0.0), lower, upper));
    assert!(is_in_range(&made(&[1.0], 1.0, 1.0), lower, upper));
    assert!(is_in_range(&made(&[], 0.0, 0.5), lower, upper));
    assert!(!is_in_range(&made(&[1.0, 5.13], 0.0, 0.5), lower, upper));
    assert!(!is_in_range(&made(&[1.0], -1.5, 0.5), lower, upper));
    assert!(!is_in_range(&made(&[1.0], 1.5, 0.5), lower, upper));
    assert!(!is_in_range(&made(&[1.0], 0.0, -0.5), lower, upper));
    assert!(!is_in_range(&made(&[1.0], 0.0, 1.5), lower, upper));
    assert!(!is_in_range(&made(&[1.0], f64::NAN, 0.5), lower, upper));
    assert!(!is_in_range(&made(&[f64::NAN], 0.0, 0.5), lower, upper));
}

#[test]
fn a_draw_of_the_wrong_length_or_from_outside_its_ranges_is_refused() {
    let woa = small();
    let drawn = |r: &[f64], l: f64, p: f64| Draw {
        r: position(r),
        norm: scalar(0.0),
        l: scalar(l),
        p: scalar(p),
    };
    let good = || drawn(&[10.0], -1.0, 1.0);
    let long = || drawn(&[1.0, 2.0], 0.0, 0.0);
    let none = || drawn(&[], 0.0, 0.0);
    let wide = || drawn(&[10.5], 0.0, 0.0);
    let deep = || drawn(&[1.0], -1.5, 0.0);
    let high = || drawn(&[1.0], 0.0, 1.5);
    let moved_with = |draw: &dyn Fn() -> Draw| {
        woa.move_whales(&|_, _, _, _| draw(), &|_| 0, &stay).map(|moved| moved.len())
    };
    assert_eq!(moved_with(&good), Ok(3));
    assert_eq!(moved_with(&long), Err(WoaError::DimensionMismatch));
    assert_eq!(moved_with(&none), Err(WoaError::DimensionMismatch));
    assert_eq!(moved_with(&wide), Err(WoaError::OutOfBounds));
    assert_eq!(moved_with(&deep), Err(WoaError::OutOfBounds));
    assert_eq!(moved_with(&high), Err(WoaError::OutOfBounds));
}

#[test]
fn construction_fails_for_an_invalid_configuration() {
    let draws = vec![position(&[0.0, 0.0]); 10];
    let made = |dim: usize, size: usize, lower: f64, upper: f64, max_iterations: usize| {
        WOA::initialize(
            dim,
            size,
            (scalar(lower), scalar(upper)),
            false,
            max_iterations,
            sum_of_squares,
            &draws,
        )
        .err()
    };
    assert_eq!(made(2, 0, -5.12, 5.12, 50), Some(WoaError::InvalidConfiguration));
    assert_eq!(made(0, 10, -5.12, 5.12, 50), Some(WoaError::InvalidConfiguration));
    assert_eq!(made(2, 10, -5.12, 5.12, 0), Some(WoaError::InvalidConfiguration));
    assert_eq!(made(2, 10, 5.0, 1.0, 50), Some(WoaError::InvalidConfiguration));
    assert_eq!(made(2, 10, -5.12, 5.12, 50), None);
    // the configuration is looked at before the draws
    assert_eq!(made(3, 10, 5.0, 1.0, 50), Some(WoaError::InvalidConfiguration));
}

#[test]
fn construction_fails_for_draws_of_the_wrong_shape_or_outside_the_box() {
    let made = |draws: Vec<Vec<Scalar>>| {
        WOA::initialize(2, 2, (scalar(-1.0), scalar(1.0)), true, 5, sum_of_squares, &draws).err()
    };
    assert_eq!(made(vec![position(&[0.0, 0.0])]), Some(WoaError::DimensionMismatch));
    assert_eq!(
        made(vec![position(&[0.0, 0.0]), position(&[0.0])]),
        Some(WoaError::DimensionMismatch)
    );
    assert_eq!(
        made(vec![position(&[0.0, 2.0]), position(&[0.0])]),
        Some(WoaError::DimensionMismatch)
    );
    assert_eq!(
        made(vec![position(&[0.0, 0.0]), position(&[0.0, 1.5])]),
        Some(WoaError::OutOfBounds)
    );
    assert_eq!(
        made(vec![position(&[0.0, 0.0]), position(&[f64::NAN, 0.0])]),
        Some(WoaError::OutOfBounds)
    );
    assert_eq!(made(vec![position(&[-1.0, 1.0]), position(&[1.0, -1.0])]), None);
}

#[test]
fn an_optimizer_starts_evaluated_and_sorted() {
    let woa = small();
    assert_eq!(woa.dim(), 1);
    assert_eq!(woa.max_iterations(), 2);
    assert!(!woa.maximization());
    assert_eq!((number(woa.bounds().0), number(woa.bounds().1)), (0.0, 10.0));
    assert_eq!(ranks(&woa), vec![1.0, 2.0, 3.0]);
    let fitness: Vec<f64> = woa.whales().iter().map(|w| number(w.fitness)).collect();
    assert_eq!(fitness, vec![1.0, 2.0, 3.0]);
    assert_eq!(numbers(&woa.best_whale().position), vec![1.0]);
    assert_eq!(number(woa.best_whale().fitness), 1.0);
    assert!(woa.history().is_empty());
    assert_eq!(
        woa.request(),
        Request::Move { iteration: 0, factor: ConvergenceFactor { numerator: 4, denominator: 2 } }
    );
}

#[test]
fn an_iteration_clips_sorts_and_records_the_best() {
    let mut woa = small();
    let next = woa.advance(&vec![position(&[5.0]), position(&[0.5]), position(&[7.0])]);
    assert_eq!(
        next,
        Ok(Request::Move {
            iteration: 1,
            factor: ConvergenceFactor { numerator: 2, denominator: 2 }
        })
    );
    assert_eq!(ranks(&woa), vec![0.5, 5.0, 7.0]);
    assert_eq!(number(woa.best_whale().fitness), 0.5);
    assert_eq!(recorded(&woa), vec![(vec![0.5], 0.5)]);
    // nothing better comes: the best-known whale stays, and is recorded again
    let next = woa.advance(&vec![position(&[4.0]), position(&[-3.0 + 7.0]), position(&[20.0])]);
    assert_eq!(next, Ok(Request::Finished));
    assert_eq!(ranks(&woa), vec![4.0, 4.0, 10.0]);
    assert_eq!(numbers(&woa.best_whale().position), vec![0.5]);
    assert_eq!(recorded(&woa), vec![(vec![0.5], 0.5), (vec![0.5], 0.5)]);
    assert_eq!(woa.request(), Request::Finished);
}

#[test]
fn an_equal_fitness_does_not_replace_the_best() {
    let draws = vec![position(&[1.0, 0.0]), position(&[2.0, 0.0])];
    let mut woa =
        WOA::initialize(2, 2, (scalar(0.0), scalar(10.0)), false, 1, first_coordinate, &draws)
            .ok()
            .unwrap();
    assert_eq!(numbers(&woa.best_whale().position), vec![1.0, 0.0]);
    woa.advance(&vec![position(&[1.0, 9.0]), position(&[3.0, 9.0])]).unwrap();
    assert_eq!(numbers(&woa.whales()[0].position), vec![1.0, 9.0]);
    assert_eq!(numbers(&woa.best_whale().position), vec![1.0, 0.0]);
    assert_eq!(recorded(&woa), vec![(vec![1.0, 0.0], 1.0)]);
}

#[test]
fn a_maximizing_optimizer_keeps_the_highest() {
    let draws = vec![position(&[3.0]), position(&[1.0]), position(&[2.0])];
    let mut woa =
        WOA::initialize(1, 3, (scalar(0.0), scalar(10.0)), true, 3, first_coordinate, &draws)
            .ok()
            .unwrap();
    assert_eq!(ranks(&woa), vec![3.0, 2.0, 1.0]);
    assert_eq!(number(woa.best_whale().fitness), 3.0);
    woa.advance(&vec![position(&[2.5]), position(&[0.0]), position(&[1.0])]).unwrap();
    assert_eq!(ranks(&woa), vec![2.5, 1.0, 0.0]);
    assert_eq!(number(woa.best_whale().fitness), 3.0);
    woa.advance(&vec![position(&[2.5]), position(&[11.0]), position(&[1.0])]).unwrap();
    assert_eq!(ranks(&woa), vec![10.0, 2.5, 1.0]);
    assert_eq!(recorded(&woa), vec![(vec![3.0], 3.0), (vec![10.0], 10.0)]);
}

#[test]
fn positions_of_the_wrong_shape_change_nothing() {
    let mut woa = small();
    assert_eq!(
        woa.advance(&vec![position(&[5.0]), position(&[0.5])]),
        Err(WoaError::DimensionMismatch)
    );
    assert_eq!(
        woa.advance(&vec![position(&[5.0]), position(&[0.5]), position(&[7.0, 1.0])]),
        Err(WoaError::DimensionMismatch)
    );
    assert_eq!(woa.advance(&vec![]), Err(WoaError::DimensionMismatch));
    assert_eq!(ranks(&woa), vec![1.0, 2.0, 3.0]);
    assert!(woa.history().is_empty());
    assert_eq!(
        woa.request(),
        Request::Move { iteration: 0, factor: ConvergenceFactor { numerator: 4, denominator: 2 } }
    );
}

#[test]
fn a_finished_optimizer_changes_no_more() {
    let mut woa = small();
    woa.advance(&vec![position(&[5.0]), position(&[0.5]), position(&[7.0])]).unwrap();
    woa.advance(&vec![position(&[5.0]), position(&[0.5]), position(&[7.0])]).unwrap();
    let before = recorded(&woa);
    assert_eq!(
        woa.advance(&vec![position(&[0.1]), position(&[0.2]), position(&[0.3])]),
        Ok(Request::Finished)
    );
    assert_eq!(woa.advance(&vec![]), Ok(Request::Finished));
    assert_eq!(recorded(&woa), before);
    assert_eq!(ranks(&woa), vec![0.5, 5.0, 7.0]);
}

#[test]
fn the_convergence_factor_falls_from_two_towards_zero() {
    assert_eq!(convergence_factor(0, 50), ConvergenceFactor { numerator: 100, denominator: 50 });
    assert_eq!(convergence_factor(49, 50), ConvergenceFactor { numerator: 2, denominator: 50 });
    assert_eq!(convergence_factor(1, 3), ConvergenceFactor { numerator: 4, denominator: 3 });
    assert_eq!(convergence_factor(25, 50), ConvergenceFactor { numerator: 50, denominator: 50 });
    assert_eq!(convergence_factor(0, 1), ConvergenceFactor { numerator: 2, denominator: 1 });
    assert_eq!(convergence_factor(3, 3), ConvergenceFactor { numerator: 0, denominator: 3 });
    assert_eq!(convergence_factor(4, 3), ConvergenceFactor { numerator: -2, denominator: 3 });
    assert_eq!(
        convergence_factor(0, usize::MAX),
        ConvergenceFactor { numerator: 2 * (usize::MAX as i128), denominator: usize::MAX as u128 }
    );
    assert_eq!(value(convergence_factor(0, 50)), 2.0);
    assert_eq!(value(convergence_factor(49, 50)), 2.0 / 50.0);
}

#[test]
fn the_move_goes_by_the_draw_and_the_norm() {
    assert_eq!(select_move(scalar(0.25), scalar(0.5)), Move::Encircle);
    assert_eq!(select_move(scalar(0.25), scalar(1.0)), Move::Search);
    assert_eq!(select_move(scalar(0.25), scalar(7.0)), Move::Search);
    assert_eq!(select_move(scalar(0.5), scalar(0.5)), Move::Spiral);
    assert_eq!(select_move(scalar(0.75), scalar(7.0)), Move::Spiral);
    assert_eq!(select_move(scalar(0.0), scalar(0.0)), Move::Encircle);
    assert_eq!(
        select_move(scalar(0.4999999999999999), scalar(0.9999999999999999)),
        Move::Encircle
    );
    assert_eq!(select_move(scalar(1.0), scalar(0.0)), Move::Spiral);
    assert_eq!(select_move(scalar(0.25), scalar(f64::NAN)), Move::Search);
    assert_eq!(select_move(scalar(f64::NAN), scalar(0.5)), Move::Spiral);
}

#[test]
fn better_means_strictly_lower_or_strictly_higher() {
    assert!(is_improvement(scalar(1.0), scalar(2.0), false));
    assert!(!is_improvement(scalar(2.0), scalar(2.0), false));
    assert!(!is_improvement(scalar(3.0), scalar(2.0), false));
    assert!(is_improvement(scalar(3.0), scalar(2.0), true));
    assert!(!is_improvement(scalar(2.0), scalar(2.0), true));
    assert!(!is_improvement(scalar(1.0), scalar(2.0), true));
    assert!(!is_improvement(scalar(-0.0), scalar(0.0), false));
    assert!(!is_improvement(scalar(f64::NAN), scalar(2.0), false));
    assert!(!is_improvement(scalar(1.0), scalar(f64::NAN), true));
}

#[test]
fn sum_of_squares_is_minimized() {
    let outcome = optimize(7, 2, 10, (-5.12, 5.12), false, 50, sum_of_squares);
    assert_eq!(outcome.history.len(), 50);
    let first = f64::from_bits(outcome.history[0].1);
    let last = f64::from_bits(outcome.history[49].1);
    assert!(last < first);
    assert!(last < outcome.initial_best);
    assert!(last >= 0.0);
    assert!(last < 1e-3);
}

#[test]
fn the_history_has_one_entry_for_each_iteration() {
    for max_iterations in [1usize, 2, 7, 50] {
        let outcome = optimize(11, 3, 5, (-2.0, 3.0), false, max_iterations, sum_of_squares);
        assert_eq!(outcome.history.len(), max_iterations);
        assert_eq!(outcome.requests.len(), max_iterations + 1);
        for (t, request) in outcome.requests.iter().enumerate() {
            if t < max_iterations {
                let factor = convergence_factor(t, max_iterations);
                assert_eq!(*request, Request::Move { iteration: t, factor });
            } else {
                assert_eq!(*request, Request::Finished);
            }
        }
        for entry in &outcome.history {
            assert_eq!(entry.0.len(), 3);
        }
    }
}

#[test]
fn the_recorded_fitness_never_worsens() {
    for seed in 0..20u64 {
        let down = optimize(seed, 2, 8, (-5.12, 5.12), false, 30, sum_of_squares);
        for t in 1..down.history.len() {
            assert!(f64::from_bits(down.history[t].1) <= f64::from_bits(down.history[t - 1].1));
        }
        assert!(f64::from_bits(down.history[0].1) <= down.initial_best);
        let up = optimize(seed, 2, 8, (-5.12, 5.12), true, 30, sum_of_squares);
        for t in 1..up.history.len() {
            assert!(f64::from_bits(up.history[t].1) >= f64::from_bits(up.history[t - 1].1));
        }
        assert!(f64::from_bits(up.history[0].1) >= up.initial_best);
    }
}

#[test]
fn the_recorded_fitness_is_that_of_the_recorded_position() {
    let outcome = optimize(3, 4, 6, (-1.0, 1.0), false, 20, sum_of_squares);
    for (place, fitness) in &outcome.history {
        let place: Vec<Scalar> = place.iter().map(|bits| Scalar::from_bits(*bits)).collect();
        assert_eq!(sum_of_squares(&place).to_bits(), *fitness);
    }
}

#[test]
fn every_whale_stays_in_the_box() {
    for seed in 0..20u64 {
        let wide = optimize(seed, 3, 10, (-5.12, 5.12), false, 25, sum_of_squares);
        assert!(wide.inside_after_every_iteration);
        let narrow = optimize(seed, 1, 4, (2.0, 2.5), true, 25, first_coordinate);
        assert!(narrow.inside_after_every_iteration);
    }
}

#[test]
fn the_same_seed_gives_the_same_history() {
    let first = optimize(42, 2, 10, (-5.12, 5.12), false, 50, sum_of_squares);
    let second = optimize(42, 2, 10, (-5.12, 5.12), false, 50, sum_of_squares);
    assert_eq!(first.history, second.history);
    assert_eq!(first.initial_best.to_bits(), second.initial_best.to_bits());
    let other = optimize(43, 2, 10, (-5.12, 5.12), false, 50, sum_of_squares);
    assert_ne!(first.history, other.history);
}
