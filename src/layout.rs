//! Decoding the textual maze description: one 15-byte record per cell, cells
//! in row order on a grid `MAZE_X` wide and `MAZE_Y` high. In a record, bytes
//! 0 to 3 say whether the cell has an exit west, east, north and south, bytes
//! 5 to 8 whether each of those exits has a door, bytes 10 and 11 (both '1')
//! whether the cell holds a key, and bytes 12 and 13 (both '1') whether it is
//! a goal.
use vstd::prelude::*;
use crate::graph::{Direction, Maze, SimpleField, Transition};

verus! {

pub const MAZE_X: u8 = 9;

pub const MAZE_Y: u8 = 6;

pub const RECORD_LEN: usize = 15;

/// The most records whose row, and the row below it, still fit in a `u8`.
pub const MAX_RECORDS: usize = 2295;

/// The number of complete records in `content`.
pub open spec fn record_count(content: Seq<u8>) -> int {
    content.len() as int / 15
}

/// Whether byte `k` of record `r` is '1'.
pub open spec fn flag(content: Seq<u8>, r: int, k: int) -> bool {
    content[15 * r + k] == 49
}

pub open spec fn key_flag(content: Seq<u8>, r: int) -> bool {
    flag(content, r, 10) && flag(content, r, 11)
}

pub open spec fn end_flag(content: Seq<u8>, r: int) -> bool {
    flag(content, r, 12) && flag(content, r, 13)
}

pub open spec fn exit_byte(d: Direction) -> int {
    match d {
        Direction::WEST => 0,
        Direction::EAST => 1,
        Direction::NORTH => 2,
        Direction::SOUTH => 3,
    }
}

/// The index of the grid cell next to cell `r` towards `d`, if the grid has one.
pub open spec fn neighbour(r: int, d: Direction) -> Option<int> {
    let x = r % 9;
    let y = r / 9;
    match d {
        Direction::WEST => if x == 0 { None } else { Some(r - 1) },
        Direction::EAST => if x == 8 { None } else { Some(r + 1) },
        Direction::NORTH => if y == 0 { None } else { Some(r - 9) },
        Direction::SOUTH => if y == 5 { None } else { Some(r + 9) },
    }
}

/// Whether record `r` asks for an exit towards `d` that leads to one of the
/// `n` cells.
pub open spec fn linked(content: Seq<u8>, n: int, r: int, d: Direction) -> bool {
    flag(content, r, exit_byte(d)) && neighbour(r, d) is Some && neighbour(r, d).unwrap() < n
}

/// The indices of the records whose cell is a goal, among the first `n`.
pub open spec fn end_indices(content: Seq<u8>, n: int) -> Seq<usize>
    decreases n,
{
    if n <= 0 {
        Seq::empty()
    } else if end_flag(content, n - 1) {
        end_indices(content, n - 1).push((n - 1) as usize)
    } else {
        end_indices(content, n - 1)
    }
}

/// The index of the cell at `(x, y)`.
pub fn get_index(x: u8, y: u8) -> (r: usize)
    ensures
        r == y * 9 + x,
{
    assert(y as u32 * MAZE_X as u32 <= 255 * 9) by (nonlinear_arith)
        requires
            y <= 255,
            MAZE_X == 9,
    ;
    let i: u32 = y as u32 * MAZE_X as u32 + x as u32;
    i as usize
}

/// The index of the cell next to `(x, y)` towards `direction`, if the grid
/// has one.
pub fn get_move(x: u8, y: u8, direction: Direction) -> (r: Option<usize>)
    requires
        x < MAZE_X,
        y < 255,
    ensures
        r == match neighbour(y * 9 + x, direction) {
            Some(i) => Some(i as usize),
            None => None,
        },
{
    proof {
        assert((y * 9 + x) % 9 == x && (y * 9 + x) / 9 == y) by (nonlinear_arith)
            requires
                x < 9,
        ;
    }
    match direction {
        Direction::WEST => if x == 0 {
            None
        } else {
            Some(get_index(x - 1, y))
        },
        Direction::EAST => if x == MAZE_X - 1 {
            None
        } else {
            Some(get_index(x + 1, y))
        },
        Direction::NORTH => if y == 0 {
            None
        } else {
            Some(get_index(x, y - 1))
        },
        Direction::SOUTH => if y == MAZE_Y - 1 {
            None
        } else {
            Some(get_index(x, y + 1))
        },
    }
}

proof fn lemma_record_in_bounds(len: int, r: int)
    requires
        0 <= r < len / 15,
    ensures
        15 * r + 15 <= len,
{
    assert(15 * r + 15 <= len) by (nonlinear_arith)
        requires
            0 <= r < len / 15,
            len >= 0,
    ;
}

/// The number of complete records in `content`.
pub fn record_count_of(content: &[u8]) -> (r: usize)
    ensures
        r == record_count(content@),
{
    content.len() / RECORD_LEN
}

/// Whether byte `k` of record `r` is '1'.
fn read_flag(content: &[u8], r: usize, k: usize) -> (b: bool)
    requires
        r < record_count(content@),
        k < RECORD_LEN,
    ensures
        b == flag(content@, r as int, k as int),
{
    let len = content.len();
    proof {
        lemma_record_in_bounds(len as int, r as int);
    }
    let at: usize = RECORD_LEN * r + k;
    content[at] == 49u8
}

/// The cells described by `content`, with no transitions yet, and the indices
/// of the goal cells among them.
pub fn read_fields(content: &[u8]) -> (r: (Maze, Vec<usize>))
    requires
        record_count(content@) <= MAX_RECORDS,
    ensures
        r.0.wf(),
        r.0.cells().len() == record_count(content@),
        r.0.edges().len() == 0,
        forall|i: int|
            0 <= i < record_count(content@) ==> {
                &&& (#[trigger] r.0.cells()[i]).pos() == ((i % 9) as u8, (i / 9) as u8)
                &&& r.0.cells()[i].spec_key() == key_flag(content@, i)
                &&& r.0.cells()[i].spec_end() == end_flag(content@, i)
                &&& forall|d: Direction| r.0.cells()[i].slot(d) is None
            },
        r.1@ == end_indices(content@, record_count(content@)),
{
    let n: usize = record_count_of(content);
    let mut maze = Maze::new();
    let mut ends: Vec<usize> = Vec::new();
    let mut r: usize = 0;
    while r < n
        invariant
            n == record_count(content@),
            n <= MAX_RECORDS,
            r <= n,
            maze.wf(),
            maze.cells().len() == r,
            maze.edges().len() == 0,
            forall|i: int|
                0 <= i < r ==> {
                    &&& (#[trigger] maze.cells()[i]).pos() == ((i % 9) as u8, (i / 9) as u8)
                    &&& maze.cells()[i].spec_key() == key_flag(content@, i)
                    &&& maze.cells()[i].spec_end() == end_flag(content@, i)
                    &&& forall|d: Direction| maze.cells()[i].slot(d) is None
                },
            ends@ == end_indices(content@, r as int),
        decreases n - r,
    {
        let x: u8 = (r % MAZE_X as usize) as u8;
        let y: u8 = (r / MAZE_X as usize) as u8;
        let key = read_flag(content, r, 10) && read_flag(content, r, 11);
        let end = read_flag(content, r, 12) && read_flag(content, r, 13);
        let f = SimpleField::new(x, y, key, end);
        maze.add_field(f);
        if end {
            ends.push(r);
        }
        r += 1;
    }
    (maze, ends)
}

/// Cell `i` of `m` has the exit towards `d` that `content` asks for, if it
/// asks for one: a transition to the neighbouring cell, with a door when the
/// record says so.
pub open spec fn tied(content: Seq<u8>, n: int, m: &Maze, i: int, d: Direction) -> bool {
    linked(content, n, i, d) ==> {
        let e = m.cells()[i].slot(d);
        &&& e is Some
        &&& e.unwrap() < m.edges().len()
        &&& m.edges()[e.unwrap() as int].source() == i
        &&& m.edges()[e.unwrap() as int].target() == neighbour(i, d).unwrap()
        &&& m.edges()[e.unwrap() as int].locked() == flag(content, i, exit_byte(d) + 5)
    }
}

/// `m2` holds the transitions of `m1` at the same indices, and maybe more.
pub open spec fn extends(m2: &Maze, m1: &Maze) -> bool {
    &&& m1.edges().len() <= m2.edges().len()
    &&& forall|e: int| 0 <= e < m1.edges().len() ==> #[trigger] m2.edges()[e] == m1.edges()[e]
}

/// Adds the exit of cell `r` towards `direction` that `content` asks for, if any.
fn tie_direction(content: &[u8], maze: &mut Maze, r: usize, x: u8, y: u8, direction: Direction)
    requires
        old(maze).wf(),
        old(maze).cells().len() == record_count(content@),
        r < record_count(content@),
        x == r % 9,
        y == r / 9,
        y < 255,
        old(maze).edges().len() + 2 < usize::MAX,
    ensures
        final(maze).wf(),
        final(maze).cells().len() == old(maze).cells().len(),
        extends(final(maze), old(maze)),
        final(maze).edges().len() <= old(maze).edges().len() + 1,
        forall|i: int|
            0 <= i < old(maze).cells().len() && i != r ==> final(maze).cells()[i] == old(maze).cells()[i],
        final(maze).cells()[r as int].pos() == old(maze).cells()[r as int].pos(),
        final(maze).cells()[r as int].spec_key() == old(maze).cells()[r as int].spec_key(),
        final(maze).cells()[r as int].spec_end() == old(maze).cells()[r as int].spec_end(),
        forall|d: Direction|
            d != direction ==> final(maze).cells()[r as int].slot(d) == old(maze).cells()[r as int].slot(d),
        tied(content@, record_count(content@), final(maze), r as int, direction),
        !linked(content@, record_count(content@), r as int, direction) ==> final(maze).cells()[r as int].slot(
            direction,
        ) == old(maze).cells()[r as int].slot(direction),
{
    let k: usize = match direction {
        Direction::WEST => 0,
        Direction::EAST => 1,
        Direction::NORTH => 2,
        Direction::SOUTH => 3,
    };
    assert(y * 9 + x == r);
    if read_flag(content, r, k) {
        if let Some(t) = get_move(x, y, direction) {
            if t < maze.len() {
                let doors = read_flag(content, r, k + 5);
                let ghost before = *maze;
                Transition::new(maze, doors, &direction, r, t);
                proof {
                    assert forall|e: int| 0 <= e < before.edges().len() implies #[trigger] maze.edges()[e]
                        == before.edges()[e] by {
                        assert(maze.edges().subrange(0, before.edges().len() as int)[e] == maze.edges()[e]);
                    }
                }
            }
        }
    }
}

/// Adds to `maze` the transitions that `content` describes, exit by exit.
pub fn tie_fields(content: &[u8], maze: &mut Maze)
    requires
        old(maze).wf(),
        old(maze).cells().len() == record_count(content@),
        record_count(content@) <= MAX_RECORDS,
        old(maze).edges().len() + 4 * record_count(content@) + 2 < usize::MAX,
    ensures
        final(maze).wf(),
        final(maze).cells().len() == old(maze).cells().len(),
        forall|i: int|
            0 <= i < old(maze).cells().len() ==> {
                &&& (#[trigger] final(maze).cells()[i]).pos() == old(maze).cells()[i].pos()
                &&& final(maze).cells()[i].spec_key() == old(maze).cells()[i].spec_key()
                &&& final(maze).cells()[i].spec_end() == old(maze).cells()[i].spec_end()
            },
        forall|i: int, d: Direction|
            0 <= i < old(maze).cells().len() ==> tied(content@, record_count(content@), final(maze), i, d),
        forall|i: int, d: Direction|
            0 <= i < old(maze).cells().len() && !linked(content@, record_count(content@), i, d)
                ==> #[trigger] final(maze).cells()[i].slot(d) == old(maze).cells()[i].slot(d),
{
    let n: usize = maze.len();
    let ghost m0 = *maze;
    let mut r: usize = 0;
    while r < n
        invariant
            n == record_count(content@),
            n <= MAX_RECORDS,
            n == m0.cells().len(),
            m0.edges().len() + 4 * n + 2 < usize::MAX,
            r <= n,
            maze.wf(),
            maze.cells().len() == n,
            maze.edges().len() <= m0.edges().len() + 4 * r,
            forall|i: int|
                0 <= i < n ==> {
                    &&& (#[trigger] maze.cells()[i]).pos() == m0.cells()[i].pos()
                    &&& maze.cells()[i].spec_key() == m0.cells()[i].spec_key()
                    &&& maze.cells()[i].spec_end() == m0.cells()[i].spec_end()
                },
            forall|i: int, d: Direction| 0 <= i < r ==> tied(content@, n as int, maze, i, d),
            forall|i: int, d: Direction|
                0 <= i < r && !linked(content@, n as int, i, d) ==> #[trigger] maze.cells()[i].slot(d)
                    == m0.cells()[i].slot(d),
            forall|i: int| r <= i < n ==> #[trigger] maze.cells()[i] == m0.cells()[i],
        decreases n - r,
    {
        let x: u8 = (r % MAZE_X as usize) as u8;
        let y: u8 = (r / MAZE_X as usize) as u8;
        assert(r / 9 < 255) by (nonlinear_arith)
            requires
                r < 2295,
        ;
        let ghost m1 = *maze;
        tie_direction(content, maze, r, x, y, Direction::WEST);
        let ghost m2 = *maze;
        tie_direction(content, maze, r, x, y, Direction::EAST);
        let ghost m3 = *maze;
        tie_direction(content, maze, r, x, y, Direction::NORTH);
        let ghost m4 = *maze;
        tie_direction(content, maze, r, x, y, Direction::SOUTH);
        proof {
            assert forall|i: int, d: Direction| 0 <= i < r + 1 implies tied(content@, n as int, maze, i, d) by {
                if i < r {
                    assert(tied(content@, n as int, &m1, i, d));
                } else {
                    match d {
                        Direction::WEST => {
                            assert(tied(content@, n as int, &m2, i, d));
                        },
                        Direction::EAST => {
                            assert(tied(content@, n as int, &m3, i, d));
                        },
                        Direction::NORTH => {
                            assert(tied(content@, n as int, &m4, i, d));
                        },
                        Direction::SOUTH => {},
                    }
                }
            }
            assert forall|i: int, d: Direction|
                0 <= i < r + 1 && !linked(content@, n as int, i, d) implies #[trigger] maze.cells()[i].slot(d)
                == m0.cells()[i].slot(d) by {
                if i == r {
                    assert(m1.cells()[i] == m0.cells()[i]);
                }
            }
        }
        r += 1;
    }
}

} // verus!
