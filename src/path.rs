//! A route found by the search, as the directions to take from its start.
use vstd::prelude::*;
use crate::graph::Direction;

verus! {

pub struct Path {
    steps: Vec<Direction>,
}

impl View for Path {
    type V = Seq<Direction>;

    closed spec fn view(&self) -> Seq<Direction> {
        self.steps@
    }
}

/// The directions of an optional path.
pub open spec fn steps_of(r: Option<Path>) -> Option<Seq<Direction>> {
    match r {
        Some(p) => Some(p@),
        None => None,
    }
}

impl Path {
    pub fn empty() -> (r: Path)
        ensures
            r@ == Seq::<Direction>::empty(),
    {
        Path { steps: Vec::new() }
    }

    /// The number of moves.
    pub fn cost(&self) -> (r: usize)
        ensures
            r == self@.len(),
    {
        self.steps.len()
    }

    /// The directions in the order they are taken.
    pub fn steps(&self) -> (r: &Vec<Direction>)
        ensures
            r@ == self@,
    {
        &self.steps
    }

    /// Puts `step` in front: the move that leads to where the rest starts.
    pub fn add_step(&mut self, step: Direction)
        ensures
            final(self)@ == seq![step] + old(self)@,
    {
        self.steps.insert(0, step);
        assert(self.steps@ =~= seq![step] + old(self)@);
    }
}

} // verus!
