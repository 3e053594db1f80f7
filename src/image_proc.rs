//! Per-pixel image transforms on grids.
use vstd::prelude::*;
use crate::backscatter::intensity;
use crate::grid::Grid;

verus! {

pub trait ImageProcessing<A> {
    /// Brightness map of a colour image.
    fn grayscale(&self) -> Grid<u32>;
}

impl ImageProcessing<(u8, u8, u8)> for Grid<(u8, u8, u8)> {
    /// Each cell's brightness: the sum of its channels, three times their
    /// average.
    fn grayscale(&self) -> (r: Grid<u32>)
        ensures
            r.height == self.height,
            r.width == self.width,
            r.cells@ == self.cells@.map_values(|px: (u8, u8, u8)| intensity(px)),
    {
        let mut cells: Vec<u32> = Vec::new();
        let mut i: usize = 0;
        while i < self.cells.len()
            invariant
                i <= self.cells@.len(),
                cells@ == self.cells@.subrange(0, i as int).map_values(|px: (u8, u8, u8)| intensity(px)),
            decreases self.cells@.len() - i,
        {
            let px = self.cells[i];
            cells.push(px.0 as u32 + px.1 as u32 + px.2 as u32);
            proof {
                assert(self.cells@.subrange(0, i + 1).map_values(|px: (u8, u8, u8)| intensity(px)) =~= self.cells@.subrange(
                    0,
                    i as int,
                ).map_values(|px: (u8, u8, u8)| intensity(px)).push(intensity(px)));
            }
            i = i + 1;
        }
        assert(self.cells@.subrange(0, self.cells@.len() as int) =~= self.cells@);
        Grid { height: self.height, width: self.width, cells }
    }
}

/// (row, column) of each of the first `k` cells that hold `val`, in
/// row-major order, for a grid of width `w`.
pub open spec fn positions_of<A>(cells: Seq<A>, val: A, w: int, k: int) -> Seq<(usize, usize)>
    decreases k,
{
    if k <= 0 {
        Seq::empty()
    } else {
        let p = positions_of(cells, val, w, k - 1);
        if cells[k - 1] == val {
            p.push((((k - 1) / w) as usize, ((k - 1) % w) as usize))
        } else {
            p
        }
    }
}

pub trait TwoDimensionTransforms<A> {
    /// Positions of the cells equal to `val`.
    fn np_where(&self, val: A) -> Vec<(usize, usize)>;
}

impl TwoDimensionTransforms<usize> for Grid<usize> {
    /// (row, column) of every cell equal to `val`, in row-major order; none
    /// for a grid of width 0.
    fn np_where(&self, val: usize) -> (r: Vec<(usize, usize)>)
        ensures
            self.width == 0 ==> r@.len() == 0,
            self.width > 0 ==> r@ == positions_of(self.cells@, val, self.width as int, self.cells@.len() as int),
    {
        let mut r: Vec<(usize, usize)> = Vec::new();
        if self.width == 0 {
            return r;
        }
        let mut i: usize = 0;
        while i < self.cells.len()
            invariant
                self.width > 0,
                i <= self.cells@.len(),
                r@ == positions_of(self.cells@, val, self.width as int, i as int),
            decreases self.cells@.len() - i,
        {
            if self.cells[i] == val {
                r.push((i / self.width, i % self.width));
            }
            i = i + 1;
        }
        r
    }
}

} // verus!
