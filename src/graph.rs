//! Cells, directed transitions between them, and the arena that owns both.
use vstd::prelude::*;

verus! {

/// A compass direction; each cell has at most one outgoing transition per direction.
#[derive(PartialEq, Eq, Structural, Clone, Copy, Debug)]
pub enum Direction {
    SOUTH,
    EAST,
    NORTH,
    WEST,
}

impl Direction {
    pub open spec fn spec_opposite(self) -> Direction {
        match self {
            Direction::WEST => Direction::EAST,
            Direction::EAST => Direction::WEST,
            Direction::NORTH => Direction::SOUTH,
            Direction::SOUTH => Direction::NORTH,
        }
    }

    /// The direction pointing the other way.
    pub fn get_opposite(&self) -> (r: Direction)
        ensures
            r == self.spec_opposite(),
    {
        match self {
            Direction::WEST => Direction::EAST,
            Direction::EAST => Direction::WEST,
            Direction::NORTH => Direction::SOUTH,
            Direction::SOUTH => Direction::NORTH,
        }
    }
}

/// One cell of the maze: its coordinate, its flags, and the index of the
/// outgoing transition (in the maze's transition table) for each direction.
pub struct SimpleField {
    x: u8,
    y: u8,
    w: Option<usize>,
    e: Option<usize>,
    n: Option<usize>,
    s: Option<usize>,
    key: bool,
    end: bool,
}

impl SimpleField {
    /// The coordinate; cells are equal exactly when their coordinates are.
    pub closed spec fn pos(&self) -> (u8, u8) {
        (self.x, self.y)
    }

    /// The outgoing transition registered for `d`, if any.
    pub closed spec fn slot(&self, d: Direction) -> Option<usize> {
        match d {
            Direction::WEST => self.w,
            Direction::EAST => self.e,
            Direction::NORTH => self.n,
            Direction::SOUTH => self.s,
        }
    }

    pub closed spec fn spec_key(&self) -> bool {
        self.key
    }

    pub closed spec fn spec_end(&self) -> bool {
        self.end
    }

    pub fn new(x: u8, y: u8, key: bool, end: bool) -> (r: Self)
        ensures
            r.pos() == (x, y),
            r.spec_key() == key,
            r.spec_end() == end,
            forall|d: Direction| r.slot(d).is_none(),
    {
        SimpleField { x: x, y: y, w: None, e: None, n: None, s: None, key: key, end: end }
    }

    /// Registers `transition` as the outgoing transition for `direction`,
    /// replacing any earlier one; nothing else changes.
    pub fn add_transition(&mut self, direction: &Direction, transition: usize)
        ensures
            final(self).pos() == old(self).pos(),
            final(self).spec_key() == old(self).spec_key(),
            final(self).spec_end() == old(self).spec_end(),
            forall|d: Direction|
                final(self).slot(d) == if d == *direction {
                    Some(transition)
                } else {
                    old(self).slot(d)
                },
    {
        let f = Some(transition);
        match direction {
            Direction::WEST => self.w = f,
            Direction::EAST => self.e = f,
            Direction::NORTH => self.n = f,
            Direction::SOUTH => self.s = f,
        }
    }

    pub fn get_transition(&self, direction: Direction) -> (r: Option<usize>)
        ensures
            r == self.slot(direction),
    {
        match direction {
            Direction::WEST => self.w,
            Direction::EAST => self.e,
            Direction::NORTH => self.n,
            Direction::SOUTH => self.s,
        }
    }

    pub fn has_key(&self) -> (r: bool)
        ensures
            r == self.spec_key(),
    {
        self.key
    }

    pub fn is_end(&self) -> (r: bool)
        ensures
            r == self.spec_end(),
    {
        self.end
    }

    pub fn position(&self) -> (r: (u8, u8))
        ensures
            r == self.pos(),
    {
        (self.x, self.y)
    }
}

/// A directed transition from `field1` to `field2` (indices of cells in the
/// maze), possibly behind a door.
pub struct Transition {
    doors: bool,
    field1: usize,
    field2: usize,
}

/// The cells and transitions of one maze. Cells and transitions are referred
/// to by their index in these tables.
pub struct Maze {
    cells: Vec<SimpleField>,
    edges: Vec<Transition>,
}

impl Transition {
    pub closed spec fn locked(&self) -> bool {
        self.doors
    }

    pub closed spec fn source(&self) -> usize {
        self.field1
    }

    pub closed spec fn target(&self) -> usize {
        self.field2
    }

    /// Adds a transition from `field1` to `field2` to the maze and registers it
    /// as `field1`'s outgoing transition for `direction`; `field2` is left as it
    /// was. Returns the index of the new transition.
    pub fn new(maze: &mut Maze, doors: bool, direction: &Direction, field1: usize, field2: usize) -> (r: usize)
        requires
            old(maze).wf(),
            field1 < old(maze).cells().len(),
            field2 < old(maze).cells().len(),
            old(maze).edges().len() + 1 < usize::MAX,
        ensures
            final(maze).wf(),
            r == old(maze).edges().len(),
            final(maze).edges().len() == r + 1,
            final(maze).edges().subrange(0, r as int) == old(maze).edges(),
            final(maze).edges()[r as int].locked() == doors,
            final(maze).edges()[r as int].source() == field1,
            final(maze).edges()[r as int].target() == field2,
            final(maze).cells().len() == old(maze).cells().len(),
            forall|i: int|
                0 <= i < old(maze).cells().len() && i != field1 ==> final(maze).cells()[i]
                    == old(maze).cells()[i],
            final(maze).cells()[field1 as int].pos() == old(maze).cells()[field1 as int].pos(),
            final(maze).cells()[field1 as int].spec_key() == old(maze).cells()[field1 as int].spec_key(),
            final(maze).cells()[field1 as int].spec_end() == old(maze).cells()[field1 as int].spec_end(),
            forall|d: Direction|
                final(maze).cells()[field1 as int].slot(d) == if d == *direction {
                    Some(r)
                } else {
                    old(maze).cells()[field1 as int].slot(d)
                },
    {
        let r = maze.edges.len();
        maze.edges.push(Transition { doors: doors, field1: field1, field2: field2 });
        let mut cell = maze.cells.remove(field1);
        cell.add_transition(direction, r);
        maze.cells.insert(field1, cell);
        proof {
            assert(maze.edges@.subrange(0, r as int) =~= old(maze).edges@);
            assert forall|i: int| 0 <= i < maze.cells@.len() implies #[trigger] maze.cells@[i]
                == (if i == field1 { cell } else { old(maze).cells@[i] }) by {}
        }
        r
    }

    pub fn has_doors(&self) -> (r: bool)
        ensures
            r == self.locked(),
    {
        self.doors
    }

    pub fn get_field1(&self) -> (r: usize)
        ensures
            r == self.source(),
    {
        self.field1
    }

    pub fn get_field2(&self) -> (r: usize)
        ensures
            r == self.target(),
    {
        self.field2
    }
}

impl Maze {
    pub closed spec fn cells(&self) -> Seq<SimpleField> {
        self.cells@
    }

    pub closed spec fn edges(&self) -> Seq<Transition> {
        self.edges@
    }

    /// Every registered slot names an existing transition that leaves that
    /// cell, every transition joins existing cells, and the transition table
    /// leaves room to count it.
    pub open spec fn wf(&self) -> bool {
        &&& self.edges().len() < usize::MAX
        &&& forall|i: int, d: Direction|
            0 <= i < self.cells().len() && (#[trigger] self.cells()[i].slot(d)).is_some()
                ==> self.cells()[i].slot(d).unwrap() < self.edges().len()
                && self.edges()[self.cells()[i].slot(d).unwrap() as int].source() == i
        &&& forall|e: int|
            0 <= e < self.edges().len() ==> (#[trigger] self.edges()[e]).source() < self.cells().len()
                && self.edges()[e].target() < self.cells().len()
    }

    pub fn new() -> (r: Maze)
        ensures
            r.wf(),
            r.cells().len() == 0,
            r.edges().len() == 0,
    {
        Maze { cells: Vec::new(), edges: Vec::new() }
    }

    /// Adds a cell with no outgoing transitions and returns its index.
    pub fn add_field(&mut self, field: SimpleField) -> (r: usize)
        requires
            old(self).wf(),
            forall|d: Direction| field.slot(d).is_none(),
        ensures
            final(self).wf(),
            r == old(self).cells().len(),
            final(self).cells() == old(self).cells().push(field),
            final(self).edges() == old(self).edges(),
    {
        let r = self.cells.len();
        self.cells.push(field);
        r
    }

    pub fn field(&self, i: usize) -> (r: &SimpleField)
        requires
            i < self.cells().len(),
        ensures
            *r == self.cells()[i as int],
    {
        &self.cells[i]
    }

    pub fn transition(&self, i: usize) -> (r: &Transition)
        requires
            i < self.edges().len(),
        ensures
            *r == self.edges()[i as int],
    {
        &self.edges[i]
    }

    /// The coordinate of cell `i`.
    pub open spec fn pos_of(&self, i: int) -> (u8, u8) {
        self.cells()[i].pos()
    }

    /// What tells transition `e` apart from the others: the coordinates of its
    /// two ends, in order.
    pub open spec fn edge_key(&self, e: int) -> ((u8, u8), (u8, u8)) {
        (self.pos_of(self.edges()[e].source() as int), self.pos_of(self.edges()[e].target() as int))
    }

    pub fn len(&self) -> (r: usize)
        ensures
            r == self.cells().len(),
    {
        self.cells.len()
    }
}

pub fn safe_get_transition(maze: &Maze, f1: usize, direction: Direction) -> (r: Option<usize>)
    requires
        f1 < maze.cells().len(),
    ensures
        r == maze.cells()[f1 as int].slot(direction),
{
    maze.field(f1).get_transition(direction)
}

pub fn safe_has_key(maze: &Maze, f1: usize) -> (r: bool)
    requires
        f1 < maze.cells().len(),
    ensures
        r == maze.cells()[f1 as int].spec_key(),
{
    maze.field(f1).has_key()
}

/// Whether two cells stand at the same coordinate.
pub fn safe_equals(maze: &Maze, f1: usize, f2: usize) -> (r: bool)
    requires
        f1 < maze.cells().len(),
        f2 < maze.cells().len(),
    ensures
        r == (maze.pos_of(f1 as int) == maze.pos_of(f2 as int)),
{
    let first = maze.field(f1).position();
    let second = maze.field(f2).position();
    first.0 == second.0 && first.1 == second.1
}

/// Whether two transitions join the same coordinates in the same order.
pub fn safe_equals_t(maze: &Maze, t1: usize, t2: usize) -> (r: bool)
    requires
        maze.wf(),
        t1 < maze.edges().len(),
        t2 < maze.edges().len(),
    ensures
        r == (maze.edge_key(t1 as int) == maze.edge_key(t2 as int)),
{
    let a = maze.transition(t1);
    let b = maze.transition(t2);
    safe_equals(maze, a.get_field1(), b.get_field1()) && safe_equals(maze, a.get_field2(), b.get_field2())
}

} // verus!
