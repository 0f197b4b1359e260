//! A single grid cell: fixed coordinates, static neighbour wiring, and the
//! mutable set of carved passages. Cells refer to one another by grid
//! position `(row, col)`; the grid owns every cell and resolves positions to
//! cells, so no cell ever owns another.

use vstd::prelude::*;

verus! {

/// One node of the grid graph.
pub struct Cell {
    /// Fixed row coordinate, set at creation.
    pub row: u16,
    /// Fixed column coordinate, set at creation.
    pub col: u16,
    /// Positions of the cells this cell has a carved passage to.
    /// Order and multiplicity of entries carry no meaning.
    pub links: Vec<(u16, u16)>,
    /// Position of the geometric neighbour above, if any.
    pub top: Option<(u16, u16)>,
    /// Position of the geometric neighbour below, if any.
    pub bottom: Option<(u16, u16)>,
    /// Position of the geometric neighbour to the left, if any.
    pub left: Option<(u16, u16)>,
    /// Position of the geometric neighbour to the right, if any.
    pub right: Option<(u16, u16)>,
}

/// The singleton or empty sequence an optional neighbour contributes to
/// the neighbour enumeration.
pub open spec fn opt_pos_seq(o: Option<(u16, u16)>) -> Seq<(u16, u16)> {
    match o {
        Some(p) => seq![p],
        None => Seq::empty(),
    }
}

impl Cell {
    /// This cell's own position.
    pub open spec fn pos(self) -> (u16, u16) {
        (self.row, self.col)
    }

    /// The present geometric neighbours, in the fixed order
    /// top, bottom, left, right.
    pub open spec fn neighbour_seq(self) -> Seq<(u16, u16)> {
        opt_pos_seq(self.top) + opt_pos_seq(self.bottom) + opt_pos_seq(self.left)
            + opt_pos_seq(self.right)
    }

    /// A fresh cell: coordinates fixed, no neighbours wired, no passages.
    pub fn new(row: u16, col: u16) -> (c: Cell)
        ensures
            c.row == row,
            c.col == col,
            c.links@ == Seq::<(u16, u16)>::empty(),
            c.top is None,
            c.bottom is None,
            c.left is None,
            c.right is None,
    {
        let c = Cell { row, col, links: Vec::new(), top: None, bottom: None, left: None, right: None };
        proof {
            assert(c.links@ =~= Seq::<(u16, u16)>::empty());
        }
        c
    }

    /// Records a passage from this cell to `other`. The reverse passage is
    /// not recorded here: a caller that wants the relation symmetric must
    /// link both directions explicitly.
    pub fn link_to(&mut self, other: &Cell)
        requires
            other.pos() != old(self).pos(),
        ensures
            final(self).links@ == old(self).links@.push(other.pos()),
            final(self).row == old(self).row,
            final(self).col == old(self).col,
            final(self).top == old(self).top,
            final(self).bottom == old(self).bottom,
            final(self).left == old(self).left,
            final(self).right == old(self).right,
    {
        self.links.push((other.row, other.col));
    }

    /// True if at least one passage has been carved from this cell.
    /// Generation algorithms use this as the per-cell "visited" marker.
    pub fn has_linked_cells(&self) -> (r: bool)
        ensures
            r == (self.links@.len() > 0),
    {
        !self.links.is_empty()
    }

    /// True if a passage to `other` has been recorded here; cells are
    /// compared by grid position.
    pub fn is_linked_to(&self, other: &Cell) -> (r: bool)
        ensures
            r == self.links@.contains(other.pos()),
    {
        let mut k: usize = 0;
        while k < self.links.len()
            invariant
                0 <= k <= self.links@.len(),
                forall|t: int| 0 <= t < k ==> self.links@[t] != other.pos(),
            decreases self.links@.len() - k,
        {
            let p = self.links[k];
            if p.0 == other.row && p.1 == other.col {
                return true;
            }
            k = k + 1;
        }
        false
    }

    /// The positions of the present geometric neighbours, in the fixed order
    /// top, bottom, left, right, omitting absent boundary sides.
    pub fn neighbours(&self) -> (r: Vec<(u16, u16)>)
        ensures
            r@ == self.neighbour_seq(),
    {
        let mut lst: Vec<(u16, u16)> = Vec::new();
        if let Some(p) = self.top {
            lst.push(p);
        }
        if let Some(p) = self.bottom {
            lst.push(p);
        }
        if let Some(p) = self.left {
            lst.push(p);
        }
        if let Some(p) = self.right {
            lst.push(p);
        }
        proof {
            assert(lst@ =~= self.neighbour_seq());
        }
        lst
    }
}

} // verus!
