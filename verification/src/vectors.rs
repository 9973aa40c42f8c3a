use nalgebra::DVector;
use vstd::prelude::*;

verus! {

/// A column of indices, kept in an `nalgebra::DVector<usize>`.
#[verifier::external_body]
pub struct IndexVector {
    inner: DVector<usize>,
}

/// A column of times, kept in an `nalgebra::DVector<u32>`.
#[verifier::external_body]
pub struct TimeVector {
    inner: DVector<u32>,
}

/// The components of a column of indices, first to last.
pub uninterp spec fn index_entries(v: IndexVector) -> Seq<usize>;

/// The components of a column of times, first to last.
pub uninterp spec fn time_entries(v: TimeVector) -> Seq<u32>;

impl View for IndexVector {
    type V = Seq<usize>;

    open spec fn view(&self) -> Seq<usize> {
        index_entries(*self)
    }
}

impl View for TimeVector {
    type V = Seq<u32>;

    open spec fn view(&self) -> Seq<u32> {
        time_entries(*self)
    }
}

/// `nalgebra::DVector::<usize>::zeros`: a column of `n` components, each zero.
#[verifier::external_body]
pub(crate) fn index_zeros(n: usize) -> (v: IndexVector)
    ensures
        index_entries(v) == Seq::new(n as nat, |i: int| 0usize),
{
    IndexVector { inner: DVector::zeros(n) }
}

/// `nalgebra::Matrix::len`, on a column: the number of its components.
#[verifier::external_body]
pub(crate) fn index_len(v: &IndexVector) -> (n: usize)
    ensures
        n == index_entries(*v).len(),
{
    v.inner.len()
}

/// `Index::<usize>::index` of `nalgebra::Matrix`, on a column: its component
/// `i`. The index must be in range, since out of range the call panics.
#[verifier::external_body]
pub(crate) fn index_get(v: &IndexVector, i: usize) -> (entry: usize)
    requires
        i < index_entries(*v).len(),
    ensures
        entry == index_entries(*v)[i as int],
{
    v.inner[i]
}

/// `IndexMut::<usize>::index_mut` of `nalgebra::Matrix`, on a column, and an
/// assignment through it: component `i` becomes `entry` and the others stay.
/// The index must be in range, since out of range the call panics.
#[verifier::external_body]
pub(crate) fn index_set(v: &mut IndexVector, i: usize, entry: usize)
    requires
        i < index_entries(*old(v)).len(),
    ensures
        index_entries(*final(v)) == index_entries(*old(v)).update(i as int, entry),
{
    v.inner[i] = entry;
}

/// `nalgebra::DVector::<u32>::zeros`: a column of `n` components, each zero.
#[verifier::external_body]
pub(crate) fn time_zeros(n: usize) -> (v: TimeVector)
    ensures
        time_entries(v) == Seq::new(n as nat, |i: int| 0u32),
{
    TimeVector { inner: DVector::zeros(n) }
}

/// `Index::<usize>::index` of `nalgebra::Matrix`, on a column: its component
/// `i`. The index must be in range, since out of range the call panics.
#[verifier::external_body]
pub(crate) fn time_get(v: &TimeVector, i: usize) -> (entry: u32)
    requires
        i < time_entries(*v).len(),
    ensures
        entry == time_entries(*v)[i as int],
{
    v.inner[i]
}

/// `IndexMut::<usize>::index_mut` of `nalgebra::Matrix`, on a column, and an
/// assignment through it: component `i` becomes `entry` and the others stay.
/// The index must be in range, since out of range the call panics.
#[verifier::external_body]
pub(crate) fn time_set(v: &mut TimeVector, i: usize, entry: u32)
    requires
        i < time_entries(*old(v)).len(),
    ensures
        time_entries(*final(v)) == time_entries(*old(v)).update(i as int, entry),
{
    v.inner[i] = entry;
}

/// The highest of `times`, zero if there is none.
pub open spec fn peak(times: Seq<u32>) -> u32
    decreases times.len(),
{
    if times.len() == 0 {
        0
    } else if peak(times.drop_last()) >= times.last() {
        peak(times.drop_last())
    } else {
        times.last()
    }
}

/// The highest time is exceeded by none, and it is one of the times unless
/// there is none.
pub proof fn lemma_peak_is_highest(times: Seq<u32>)
    ensures
        forall|i: int| 0 <= i < times.len() ==> #[trigger] times[i] <= peak(times),
        times.len() > 0 ==> exists|i: int|
            0 <= i < times.len() && #[trigger] times[i] == peak(times),
        times.len() == 0 ==> peak(times) == 0,
    decreases times.len(),
{
    if times.len() > 0 {
        let before = times.drop_last();
        lemma_peak_is_highest(before);
        assert forall|i: int| 0 <= i < times.len() implies #[trigger] times[i] <= peak(times) by {
            if i < before.len() {
                assert(before[i] == times[i]);
            }
        }
        if before.len() > 0 && peak(before) >= times.last() {
            let i = choose|i: int| 0 <= i < before.len() && #[trigger] before[i] == peak(before);
            assert(times[i] == peak(times));
        } else {
            assert(times[times.len() - 1] == peak(times));
        }
    }
}

/// `nalgebra::Matrix::max`, on a column of times: the highest component, zero
/// for the empty column.
#[verifier::external_body]
pub(crate) fn time_max(v: &TimeVector) -> (highest: u32)
    ensures
        highest == peak(time_entries(*v)),
{
    v.inner.max()
}

impl IndexVector {
    /// The column with the components of `entries`, in their order.
    pub fn from_vec(entries: Vec<usize>) -> (v: IndexVector)
        ensures
            v@ == entries@,
    {
        let mut v: IndexVector = index_zeros(entries.len());
        let mut i: usize = 0;
        while i < entries.len()
            invariant
                i <= entries.len(),
                v@.len() == entries@.len(),
                forall|j: int| 0 <= j < i ==> v@[j] == entries@[j],
            decreases entries.len() - i,
        {
            index_set(&mut v, i, entries[i]);
            i += 1;
        }
        assert(v@ =~= entries@);
        v
    }
}

} // verus!
