//! The `point_region` array: for each input point, the index of its Voronoi
//! region, held in an `ndarray::Array1<i32>`.
use vstd::prelude::*;

verus! {

/// A one-dimensional `ndarray` array of `i32`, as the diagram hands it out.
#[verifier::external_body]
pub struct PointRegion {
    array: ndarray::Array1<i32>,
}

/// What a `PointRegion` holds, element by element.
pub uninterp spec fn point_region_contents(a: PointRegion) -> Seq<i32>;

impl View for PointRegion {
    type V = Seq<i32>;

    open spec fn view(&self) -> Seq<i32> {
        point_region_contents(*self)
    }
}

impl PointRegion {
    /// `ndarray::Array1::from_elem(n, value)`: an array of `n` copies of
    /// `value`. `from_elem` panics when the byte size overflows `isize`,
    /// which the bound on `n` rules out.
    #[verifier::external_body]
    pub fn filled(n: usize, value: i32) -> (a: PointRegion)
        requires
            n <= isize::MAX / 4,
        ensures
            point_region_contents(a) == Seq::new(n as nat, |i: int| value),
    {
        PointRegion { array: ndarray::Array1::from_elem(n, value) }
    }

    /// `ArrayBase::len`: the number of elements.
    #[verifier::external_body]
    pub fn len(&self) -> (n: usize)
        ensures
            n == point_region_contents(*self).len(),
    {
        self.array.len()
    }

    /// Indexing `array[i]`, which panics out of bounds.
    #[verifier::external_body]
    pub fn get(&self, i: usize) -> (v: i32)
        requires
            i < self@.len(),
        ensures
            v == point_region_contents(*self)[i as int],
    {
        self.array[i]
    }

    /// Assignment `array[i] = v` through `IndexMut`, which panics out of
    /// bounds.
    #[verifier::external_body]
    pub fn set(&mut self, i: usize, v: i32)
        requires
            i < old(self)@.len(),
        ensures
            point_region_contents(*final(self)) == point_region_contents(*old(self)).update(i as int, v),
    {
        self.array[i] = v;
    }

    /// The elements in index order.
    pub fn to_vec(&self) -> (v: Vec<i32>)
        ensures
            v@ == self@,
    {
        let n = self.len();
        let mut v: Vec<i32> = Vec::with_capacity(n);
        for i in 0..n
            invariant
                n == self@.len(),
                v@ == self@.take(i as int),
        {
            v.push(self.get(i));
            assert(self@.take(i + 1) =~= self@.take(i as int).push(self@[i as int]));
        }
        assert(self@.take(n as int) =~= self@);
        v
    }
}

} // verus!
