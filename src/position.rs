//! How an element's pixel offset is read: from its parent, or from the origin.
use vstd::prelude::*;

verus! {

/// The position mode of an element. Relative (the default) offsets a pixel
/// coordinate from the parent's origin; absolute takes it from the origin of
/// the container.
#[derive(Clone, Copy, Debug)]
pub struct Position {
    absolute: bool,
}

impl View for Position {
    /// `true` for absolute.
    type V = bool;

    closed spec fn view(&self) -> bool {
        self.absolute
    }
}

impl Position {
    /// Relative positioning.
    pub fn new() -> (p: Position)
        ensures
            !p@,
    {
        Position { absolute: false }
    }

    pub fn is_absolute(&self) -> (r: bool)
        ensures
            r == self@,
    {
        self.absolute
    }

    pub fn is_relative(&self) -> (r: bool)
        ensures
            r == !self@,
    {
        !self.absolute
    }

    pub fn set_absolute(&mut self)
        ensures
            final(self)@,
    {
        self.absolute = true;
    }

    pub fn set_relative(&mut self)
        ensures
            !final(self)@,
    {
        self.absolute = false;
    }
}

impl Default for Position {
    fn default() -> (p: Position)
        ensures
            !p@,
    {
        Position::new()
    }
}

} // verus!
