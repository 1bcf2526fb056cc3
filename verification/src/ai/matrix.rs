//! A rectangular table of weights, indexed by board position.

use vstd::prelude::*;

use crate::board::Position;

verus! {

/// A `width` by `height` table stored row-major.
#[derive(Clone)]
pub struct Matrix<T> {
    pub arr: Vec<T>,
    pub width: usize,
    pub height: usize,
}

impl<T> Matrix<T> {
    /// The storage holds exactly one entry per cell.
    pub open spec fn wf(&self) -> bool {
        self.width * self.height == self.arr@.len()
    }

    /// Whether a position indexes into the table's storage.
    pub open spec fn pos_in_range(&self, pos: Position) -> bool {
        0 <= pos.0 && 0 <= pos.1 < self.height && pos.0 + pos.1 * self.width < self.arr@.len()
    }

    /// Builds a table over storage of exactly matching size.
    pub fn new(arr: Vec<T>, width: usize, height: usize) -> (r: Matrix<T>)
        requires
            width * height == arr@.len(),
        ensures
            r.arr@ == arr@,
            r.width == width,
            r.height == height,
            r.wf(),
    {
        Matrix { arr, width, height }
    }

    /// The entry a position indexes, if it is in range.
    pub fn get(&self, pos: &Position) -> (r: Option<&T>)
        requires
            self.wf(),
        ensures
            self.pos_in_range(*pos) ==> (r matches Some(t) && *t == self.arr@[pos.0 + pos.1
                * self.width]),
            !self.pos_in_range(*pos) ==> r is None,
    {
        if pos.0 < 0 || pos.1 < 0 {
            return None;
        }
        let x = pos.0 as usize;
        let y = pos.1 as usize;
        if y >= self.height {
            proof {
                assert(pos.1 >= self.height ==> pos.1 * self.width >= self.height * self.width)
                    by (nonlinear_arith)
                    requires
                        pos.1 >= self.height >= 0,
                        self.width >= 0,
                ;
            }
            return None;
        }
        proof {
            assert(pos.1 * self.width + self.width <= self.width * self.height)
                by (nonlinear_arith)
                requires
                    0 <= pos.1 < self.height,
                    self.width >= 0,
            ;
        }
        let n = self.arr.len();
        let row = y * self.width;
        let rest = n - row;
        if x >= rest {
            return None;
        }
        Some(&self.arr[row + x])
    }

    /// The underlying storage, row-major.
    pub fn arr(&self) -> (r: &Vec<T>)
        ensures
            r@ == self.arr@,
    {
        &self.arr
    }

    pub fn width(&self) -> (r: usize)
        ensures
            r == self.width,
    {
        self.width
    }

    pub fn height(&self) -> (r: usize)
        ensures
            r == self.height,
    {
        self.height
    }

    /// The entries in storage order.
    pub fn iter(&self) -> (r: &[T])
        ensures
            r@ == self.arr@,
    {
        self.arr.as_slice()
    }

    /// The entries in storage order, writable in place.
    pub fn iter_mut(&mut self) -> (r: &mut [T])
        ensures
            r@ == old(self).arr@,
            final(self).arr@ == final(r)@,
            final(self).width == old(self).width,
            final(self).height == old(self).height,
    {
        self.arr.as_mut_slice()
    }
}

} // verus!
