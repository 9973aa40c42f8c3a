use crate::error::WoaError;
use crate::scalar::Scalar;
use vstd::prelude::*;

verus! {

/// What a whale is to the specifications: a point and the fitness recorded for it.
pub struct Candidate {
    pub position: Seq<Scalar>,
    pub fitness: Scalar,
}

/// One point of the search space with the fitness last computed for it.
#[derive(Debug)]
pub struct Whale {
    pub position: Vec<Scalar>,
    pub fitness: Scalar,
}

impl View for Whale {
    type V = Candidate;

    open spec fn view(&self) -> Candidate {
        Candidate { position: self.position@, fitness: self.fitness }
    }
}

/// Whether `x` is a number of the interval from `lower` to `upper`, ends included.
pub open spec fn inside(x: Scalar, lower: Scalar, upper: Scalar) -> bool {
    lower.le(x) && x.le(upper)
}

/// Whether every coordinate of `position` is a number of the interval.
pub open spec fn all_inside(position: Seq<Scalar>, lower: Scalar, upper: Scalar) -> bool {
    forall|i: int| 0 <= i < position.len() ==> inside(#[trigger] position[i], lower, upper)
}

/// The view of a recorded pair of position and fitness.
pub open spec fn snapshot_view(entry: (Vec<Scalar>, Scalar)) -> Candidate {
    Candidate { position: entry.0@, fitness: entry.1 }
}

/// A copy of `position`, coordinate for coordinate.
pub fn copy_position(position: &Vec<Scalar>) -> (copy: Vec<Scalar>)
    ensures
        copy@ == position@,
{
    let mut copy: Vec<Scalar> = Vec::with_capacity(position.len());
    let mut i: usize = 0;
    while i < position.len()
        invariant
            i <= position.len(),
            copy@ == position@.take(i as int),
        decreases position.len() - i,
    {
        copy.push(position[i]);
        i += 1;
    }
    copy
}

/// Whether every coordinate of `position` is a number between the bounds.
pub fn is_all_inside(position: &Vec<Scalar>, lower: Scalar, upper: Scalar) -> (r: bool)
    ensures
        r == all_inside(position@, lower, upper),
{
    let mut i: usize = 0;
    while i < position.len()
        invariant
            i <= position.len(),
            all_inside(position@.take(i as int), lower, upper),
        decreases position.len() - i,
    {
        if !(lower.le(position[i]) && position[i].le(upper)) {
            return false;
        }
        assert(position@.take(i + 1) == position@.take(i as int).push(position@[i as int]));
        i += 1;
    }
    assert(position@.take(i as int) == position@);
    true
}

impl Clone for Whale {
    fn clone(&self) -> (copy: Whale)
        ensures
            copy@ == self@,
    {
        Whale { position: copy_position(&self.position), fitness: self.fitness }
    }
}

impl Whale {
    /// The whale at the origin of a space of `dim` dimensions, with fitness zero.
    pub fn zeros(dim: usize) -> (whale: Whale)
        ensures
            whale.position@ == Seq::new(dim as nat, |i: int| Scalar { bits: 0 }),
            whale.fitness == (Scalar { bits: 0 }),
    {
        let mut position: Vec<Scalar> = Vec::with_capacity(dim);
        let mut i: usize = 0;
        while i < dim
            invariant
                i <= dim,
                position@ == Seq::new(i as nat, |k: int| Scalar { bits: 0 }),
            decreases dim - i,
        {
            position.push(Scalar::zero());
            i += 1;
        }
        Whale { position, fitness: Scalar::zero() }
    }

    /// The whale whose coordinates are `draws`, one value drawn for each of the
    /// `dim` dimensions from the interval between the bounds, with fitness zero.
    ///
    /// Bounds the wrong way round are refused first, then a number of draws other
    /// than `dim`, then a draw that is no number of the interval.
    pub fn with_random_components(
        dim: usize,
        lower_bound: Scalar,
        upper_bound: Scalar,
        draws: Vec<Scalar>,
    ) -> (made: Result<Whale, WoaError>)
        ensures
            lower_bound.gt(upper_bound) ==> made == Err::<Whale, WoaError>(
                WoaError::InvalidBounds,
            ),
            !lower_bound.gt(upper_bound) && draws@.len() != dim ==> made == Err::<Whale, WoaError>(
                WoaError::DimensionMismatch,
            ),
            !lower_bound.gt(upper_bound) && draws@.len() == dim && !all_inside(
                draws@,
                lower_bound,
                upper_bound,
            ) ==> made == Err::<Whale, WoaError>(WoaError::OutOfBounds),
            !lower_bound.gt(upper_bound) && draws@.len() == dim && all_inside(
                draws@,
                lower_bound,
                upper_bound,
            ) ==> made is Ok && made->Ok_0.position == draws && made->Ok_0.fitness == (Scalar {
                bits: 0,
            }),
    {
        if lower_bound.gt(upper_bound) {
            return Err(WoaError::InvalidBounds);
        }
        if draws.len() != dim {
            return Err(WoaError::DimensionMismatch);
        }
        if !is_all_inside(&draws, lower_bound, upper_bound) {
            return Err(WoaError::OutOfBounds);
        }
        Ok(Whale { position: draws, fitness: Scalar::zero() })
    }

    /// Records as fitness what `func` returns for the position.
    pub fn calculate_fitness<F>(&mut self, func: F) where F: Fn(&Vec<Scalar>) -> Scalar
        requires
            call_requires(func, (&old(self).position,)),
        ensures
            final(self).position == old(self).position,
            call_ensures(func, (&old(self).position,), final(self).fitness),
    {
        self.fitness = func(&self.position);
    }

    /// An independent copy of the position, and the fitness.
    pub fn as_tuple(&self) -> (pair: (Vec<Scalar>, Scalar))
        ensures
            snapshot_view(pair) == self@,
    {
        (copy_position(&self.position), self.fitness)
    }

    /// The whale that `f` describes.
    pub fn from_fn<F>(f: F) -> (whale: Whale) where F: Fn() -> (Vec<Scalar>, Scalar)
        requires
            call_requires(f, ()),
        ensures
            call_ensures(f, (), (whale.position, whale.fitness)),
    {
        let val: (Vec<Scalar>, Scalar) = f();
        Whale { position: val.0, fitness: val.1 }
    }
}

} // verus!
