use vstd::prelude::*;

verus! {

/// An event handed to an interface loop by its host: a piece of input, or a
/// clock tick. The host decides what the input is; the engine itself never
/// reads one.
pub enum Event<I> {
    Input(I),
    Tick,
}

/// The cursor of a grid interface: the column and row the user has selected.
/// Movement saturates at the zero edges and the selection test is exact.
pub struct Selected {
    pub x: u32,
    pub y: u32,
}

impl Selected {
    /// A cursor standing at the given column and row.
    pub fn new(x: u32, y: u32) -> (r: Selected)
        ensures
            r.x == x,
            r.y == y,
    {
        Selected { x, y }
    }

    /// Move one row up, unless already at the top row.
    pub fn up(&mut self)
        ensures
            final (self).x == old(self).x,
            final (self).y == if old(self).y == 0 {
                0u32
            } else {
                (old(self).y - 1) as u32
            },
    {
        if self.y != 0 {
            self.y = self.y - 1;
        }
    }

    /// Move one row down.
    pub fn down(&mut self)
        requires
            old(self).y < u32::MAX,
        ensures
            final (self).x == old(self).x,
            final (self).y == old(self).y + 1,
    {
        self.y = self.y + 1;
    }

    /// Move one column left, unless already at the leftmost column.
    pub fn left(&mut self)
        ensures
            final (self).y == old(self).y,
            final (self).x == if old(self).x == 0 {
                0u32
            } else {
                (old(self).x - 1) as u32
            },
    {
        if self.x != 0 {
            self.x = self.x - 1;
        }
    }

    /// Move one column right.
    pub fn right(&mut self)
        requires
            old(self).x < u32::MAX,
        ensures
            final (self).y == old(self).y,
            final (self).x == old(self).x + 1,
    {
        self.x = self.x + 1;
    }

    /// Whether the given column and row are the selected ones.
    pub fn is_selected(&self, x: u32, y: u32) -> (r: bool)
        ensures
            r == (x == self.x && y == self.y),
    {
        if x == self.x && y == self.y {
            return true;
        }
        false
    }
}

} // verus!
