//! What is painted behind an element.
use vstd::prelude::*;

use crate::color::Color;

verus! {

/// A background: a solid color, or nothing.
#[derive(Clone, Copy, Debug, PartialEq, Eq, Structural)]
pub enum BackgroundType {
    Solid(Color),
    /// Nothing is painted.
    Empty,
}

impl Default for BackgroundType {
    fn default() -> (b: BackgroundType)
        ensures
            b == BackgroundType::Empty,
    {
        BackgroundType::Empty
    }
}

/// The background of an element, read and replaced as a whole.
#[derive(Clone, Copy, Debug)]
pub struct Background {
    value: BackgroundType,
}

impl View for Background {
    type V = BackgroundType;

    closed spec fn view(&self) -> BackgroundType {
        self.value
    }
}

impl Background {
    /// No background.
    pub fn new() -> (b: Background)
        ensures
            b@ == BackgroundType::Empty,
    {
        Background { value: BackgroundType::Empty }
    }

    /// The background stored last.
    pub fn get(&self) -> (v: BackgroundType)
        ensures
            v == self@,
    {
        self.value
    }

    /// Replaces the background.
    pub fn set(&mut self, v: BackgroundType)
        ensures
            final(self)@ == v,
    {
        self.value = v;
    }
}

impl Default for Background {
    fn default() -> (b: Background)
        ensures
            b@ == BackgroundType::Empty,
    {
        Background::new()
    }
}

} // verus!
