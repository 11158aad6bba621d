//! Two-dimensional binary grids on a torus, held as rows of one-dimensional grids.
use vstd::prelude::*;
use crate::grid::{BitGrid, cell_of, xor_cells, lemma_cell_position, words_for};

verus! {

/// Cell-wise exclusive or of two two-dimensional grids of cells.
pub open spec fn xor_cells_2d(a: Seq<Seq<bool>>, b: Seq<Seq<bool>>) -> Seq<Seq<bool>> {
    Seq::new(a.len(), |y: int| xor_cells(a[y], b[y]))
}

/// 2D binary grid, represented as a vector of 1D BitGrid rows.
#[derive(Debug, PartialEq, Eq)]
pub struct BitGrid2D {
    pub rows: Vec<BitGrid>,
    pub height: usize,
    pub width: usize,
}

impl View for BitGrid2D {
    type V = Seq<Seq<bool>>;

    open spec fn view(&self) -> Seq<Seq<bool>> {
        Seq::new(self.height as nat, |y: int| self.rows@[y]@)
    }
}

impl Clone for BitGrid2D {
    fn clone(&self) -> (r: Self)
        ensures
            r.height == self.height,
            r.width == self.width,
            r.rows.len() == self.rows.len(),
            forall|y: int|
                0 <= y < self.rows.len() ==> (#[trigger] r.rows@[y]).cells@ == self.rows@[y].cells@
                    && r.rows@[y].size == self.rows@[y].size,
    {
        BitGrid2D { rows: self.rows.clone(), height: self.height, width: self.width }
    }
}

impl BitGrid2D {
    /// Well-formedness: one well-formed row of `width` cells per line.
    pub open spec fn wf(&self) -> bool {
        &&& self.rows.len() == self.height
        &&& forall|y: int|
            0 <= y < self.height ==> (#[trigger] self.rows@[y]).wf() && self.rows@[y].size
                == self.width
    }

    pub fn new(height: usize, width: usize) -> (r: Self)
        requires
            width + 63 <= usize::MAX,
        ensures
            r.wf(),
            r.height == height,
            r.width == width,
            r@ == Seq::new(height as nat, |y: int| Seq::new(width as nat, |x: int| false)),
            forall|y: int|
                0 <= y < height ==> (#[trigger] r.rows@[y]).cells@ == Seq::new(
                    words_for(width as nat),
                    |i: int| 0u64,
                ),
    {
        let mut rows: Vec<BitGrid> = Vec::with_capacity(height);
        for i in 0..height
            invariant
                width + 63 <= usize::MAX,
                rows.len() == i,
                forall|y: int|
                    0 <= y < i ==> (#[trigger] rows@[y]).wf() && rows@[y].size == width
                        && rows@[y]@ == Seq::new(width as nat, |x: int| false) && rows@[y].cells@
                        == Seq::new(words_for(width as nat), |j: int| 0u64),
        {
            rows.push(BitGrid::new(width));
        }
        let r = BitGrid2D { rows, height, width };
        assert(r@ =~= Seq::new(height as nat, |y: int| Seq::new(width as nat, |x: int| false)));
        r
    }

    pub fn set_cell(&mut self, y: usize, x: usize, val: bool)
        requires
            y < old(self).height,
            y < old(self).rows.len(),
            x < old(self).rows@[y as int].size,
            x / 64 < old(self).rows@[y as int].cells.len(),
        ensures
            final(self).height == old(self).height,
            final(self).width == old(self).width,
            final(self).rows.len() == old(self).rows.len(),
            forall|j: int|
                0 <= j < old(self).rows.len() && j != y ==> #[trigger] final(self).rows@[j]
                    == old(self).rows@[j],
            final(self).rows@[y as int].size == old(self).rows@[y as int].size,
            old(self).wf() ==> final(self).wf(),
            old(self).wf() ==> final(self)@ == old(self)@.update(
                y as int,
                old(self)@[y as int].update(x as int, val),
            ),
    {
        self.rows[y].set_bit(x, val);
        proof {
            if old(self).wf() {
                assert(self@ =~= old(self)@.update(y as int, old(self)@[y as int].update(x as int, val)));
            }
        }
    }

    pub fn get_cell(&self, y: usize, x: usize) -> (r: bool)
        requires
            y < self.height,
            y < self.rows.len(),
            x < self.rows@[y as int].size,
            x / 64 < self.rows@[y as int].cells.len(),
        ensures
            r == self.rows@[y as int]@[x as int],
            r == self@[y as int][x as int],
    {
        self.rows[y].get_bit(x)
    }

    /// Cell-wise exclusive or of two grids of the same dimensions.
    pub fn xor(&self, rhs: &BitGrid2D) -> (r: BitGrid2D)
        requires
            self.height == rhs.height,
            self.width == rhs.width,
            forall|y: int|
                0 <= y < self.rows.len() && 0 <= y < rhs.rows.len() ==> (#[trigger] self.rows@[y]).size
                    == rhs.rows@[y].size,
        ensures
            r.height == self.height,
            r.width == self.width,
            self.wf() && rhs.wf() ==> r.wf() && r@ == xor_cells_2d(self@, rhs@),
    {
        let n = if self.rows.len() <= rhs.rows.len() {
            self.rows.len()
        } else {
            rhs.rows.len()
        };
        let mut rows: Vec<BitGrid> = Vec::new();
        for y in 0..n
            invariant
                n <= self.rows.len(),
                n <= rhs.rows.len(),
                n == self.rows.len() || n == rhs.rows.len(),
                forall|j: int|
                    0 <= j < self.rows.len() && 0 <= j < rhs.rows.len() ==> (#[trigger] self.rows@[
                    j]).size == rhs.rows@[j].size,
                rows.len() == y,
                forall|j: int|
                    0 <= j < y ==> (#[trigger] rows@[j]).size == self.rows@[j].size && (
                    self.rows@[j].wf() && rhs.rows@[j].wf() ==> rows@[j].wf() && rows@[j]@
                        == xor_cells(self.rows@[j]@, rhs.rows@[j]@)),
        {
            rows.push(self.rows[y].xor(&rhs.rows[y]));
        }
        let r = BitGrid2D { rows, height: self.height, width: self.width };
        proof {
            if self.wf() && rhs.wf() {
                assert(r@ =~= xor_cells_2d(self@, rhs@));
            }
        }
        r
    }

    /// Whether two well-formed grids of the same dimensions, with rows of at
    /// least one cell, hold the same cells (for such grids, whether they are
    /// equal).
    pub fn same_cells(&self, other: &BitGrid2D) -> (r: bool)
        requires
            self.wf(),
            other.wf(),
            self.height == other.height,
            self.width == other.width,
            self.width > 0,
        ensures
            r == (self@ == other@),
    {
        let mut y: usize = 0;
        while y < self.height
            invariant
                self.wf(),
                other.wf(),
                self.height == other.height,
                self.width == other.width,
                self.width > 0,
                y <= self.height,
                forall|j: int| 0 <= j < y ==> self@[j] == other@[j],
            decreases self.height - y,
        {
            if !self.rows[y].same_cells(&other.rows[y]) {
                proof {
                    assert(self@[y as int] != other@[y as int]);
                }
                return false;
            }
            y += 1;
        }
        proof {
            assert(self@ =~= other@);
        }
        true
    }
}

impl<'a, 'b> core::ops::BitXor<&'b BitGrid2D> for &'a BitGrid2D {
    type Output = BitGrid2D;

    fn bitxor(self, rhs: &'b BitGrid2D) -> (r: BitGrid2D)
        ensures
            r.height == self.height,
            r.width == self.width,
            self.wf() && rhs.wf() ==> r.wf() && r@ == xor_cells_2d(self@, rhs@),
    {
        self.xor(rhs)
    }
}

impl<'a, 'b> vstd::std_specs::ops::BitXorSpecImpl<&'b BitGrid2D> for &'a BitGrid2D {
    open spec fn obeys_bitxor_spec() -> bool {
        false
    }

    open spec fn bitxor_req(self, rhs: &'b BitGrid2D) -> bool {
        &&& self.height == rhs.height
        &&& self.width == rhs.width
        &&& forall|y: int|
            0 <= y < self.rows.len() && 0 <= y < rhs.rows.len() ==> (#[trigger] self.rows@[y]).size
                == rhs.rows@[y].size
    }

    open spec fn bitxor_spec(self, rhs: &'b BitGrid2D) -> BitGrid2D {
        arbitrary()
    }
}

impl core::ops::BitXor for BitGrid2D {
    type Output = BitGrid2D;

    fn bitxor(self, rhs: BitGrid2D) -> (r: BitGrid2D)
        ensures
            r.height == self.height,
            r.width == self.width,
            self.wf() && rhs.wf() ==> r.wf() && r@ == xor_cells_2d(self@, rhs@),
    {
        self.xor(&rhs)
    }
}

impl vstd::std_specs::ops::BitXorSpecImpl for BitGrid2D {
    open spec fn obeys_bitxor_spec() -> bool {
        false
    }

    open spec fn bitxor_req(self, rhs: BitGrid2D) -> bool {
        &&& self.height == rhs.height
        &&& self.width == rhs.width
        &&& forall|y: int|
            0 <= y < self.rows.len() && 0 <= y < rhs.rows.len() ==> (#[trigger] self.rows@[y]).size
                == rhs.rows@[y].size
    }

    open spec fn bitxor_spec(self, rhs: BitGrid2D) -> BitGrid2D {
        arbitrary()
    }
}

} // verus!
