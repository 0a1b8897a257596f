//! Properties of the search results that follow from the contracts of
//! `has_path` and `min_path`.
use vstd::prelude::*;
use crate::graph::{Direction, Maze};
use crate::search::{edge_used, is_route, route_from, shortest_route, shortest_to_any};
use vstd::set_lib::lemma_len_subset;

verus! {

/// The transitions taken when following `dirs` from `cur`.
pub open spec fn route_edges(maze: &Maze, cur: int, dirs: Seq<Direction>) -> Seq<usize>
    decreases dirs.len(),
{
    if dirs.len() == 0 {
        Seq::empty()
    } else {
        let e = maze.cells()[cur].slot(dirs[0]).unwrap();
        seq![e] + route_edges(maze, maze.edges()[e as int].target() as int, dirs.drop_first())
    }
}

proof fn lemma_route_edges_fresh(
    maze: &Maze,
    cur: int,
    goal: int,
    collected: Seq<(u8, u8)>,
    balance: nat,
    used: Seq<usize>,
    dirs: Seq<Direction>,
)
    requires
        is_route(maze, cur, goal, collected, balance, used, dirs),
    ensures
        forall|i: int, j: int|
            0 <= i < j < dirs.len() ==> maze.edge_key(route_edges(maze, cur, dirs)[i] as int) != maze.edge_key(
                route_edges(maze, cur, dirs)[j] as int,
            ),
        forall|i: int|
            0 <= i < dirs.len() ==> !edge_used(maze, used, #[trigger] route_edges(maze, cur, dirs)[i]),
        route_edges(maze, cur, dirs).len() == dirs.len(),
    decreases dirs.len(),
{
    if dirs.len() > 0 {
        let picked = maze.cells()[cur].spec_key() && !collected.contains(maze.pos_of(cur));
        let collected1 = if picked { collected.push(maze.pos_of(cur)) } else { collected };
        let balance1 = if picked { balance + 1 } else { balance };
        let e = maze.cells()[cur].slot(dirs[0]).unwrap();
        let next = maze.edges()[e as int].target() as int;
        let balance2 = if maze.edges()[e as int].locked() { (balance1 - 1) as nat } else { balance1 };
        let rest = dirs.drop_first();
        lemma_route_edges_fresh(maze, next, goal, collected1, balance2, used.push(e), rest);
        let es = route_edges(maze, cur, dirs);
        let tail = route_edges(maze, next, rest);
        assert(es == seq![e] + tail);
        assert forall|i: int| 0 <= i < dirs.len() implies !edge_used(maze, used, #[trigger] es[i]) by {
            if i > 0 {
                assert(es[i] == tail[i - 1]);
                assert(!edge_used(maze, used.push(e), tail[i - 1]));
                if edge_used(maze, used, es[i]) {
                    let u = choose|u: int|
                        0 <= u < used.len() && maze.edge_key(used[u] as int) == maze.edge_key(es[i] as int);
                    assert(used.push(e)[u] == used[u]);
                }
            }
        }
        assert forall|i: int, j: int| 0 <= i < j < dirs.len() implies maze.edge_key(es[i] as int)
            != maze.edge_key(es[j] as int) by {
            assert(es[j] == tail[j - 1]);
            if i == 0 {
                assert(!edge_used(maze, used.push(e), tail[j - 1]));
                assert(used.push(e)[used.len() as int] == e);
            } else {
                assert(es[i] == tail[i - 1]);
            }
        }
    }
}

/// A route never takes two transitions that join the same coordinates in the
/// same order.
pub proof fn lemma_route_never_reuses_a_transition(maze: &Maze, start: int, goal: int, dirs: Seq<Direction>)
    requires
        route_from(maze, start, goal, dirs),
    ensures
        route_edges(maze, start, dirs).len() == dirs.len(),
        forall|i: int, j: int|
            0 <= i < j < dirs.len() ==> maze.edge_key(route_edges(maze, start, dirs)[i] as int) != maze.edge_key(
                route_edges(maze, start, dirs)[j] as int,
            ),
{
    lemma_route_edges_fresh(maze, start, goal, Seq::empty(), 0, Seq::empty(), dirs);
}

/// When the start is itself a goal, the answer is the empty path.
pub proof fn lemma_start_is_goal(maze: &Maze, start: usize, ends: Seq<usize>, r: Option<Seq<Direction>>)
    requires
        ends.contains(start),
        shortest_to_any(maze, start as int, ends, r),
    ensures
        r == Some(Seq::<Direction>::empty()),
{
    let i = choose|i: int| 0 <= i < ends.len() && ends[i] == start;
    let empty = Seq::<Direction>::empty();
    assert(route_from(maze, start as int, ends[i] as int, empty));
    let p = r.unwrap();
    assert(p =~= empty);
}

/// Any two answers that are shortest routes to one of the same goals, however
/// the goals were evaluated, agree on whether there is a route and on its cost.
pub proof fn lemma_modes_agree(
    maze: &Maze,
    start: int,
    ends: Seq<usize>,
    r1: Option<Seq<Direction>>,
    r2: Option<Seq<Direction>>,
)
    requires
        shortest_to_any(maze, start, ends, r1),
        shortest_to_any(maze, start, ends, r2),
    ensures
        r1.is_some() == r2.is_some(),
        r1 matches Some(first) ==> r2.unwrap().len() == first.len(),
{
    if let Some(first) = r1 {
        let i = choose|i: int| 0 <= i < ends.len() && route_from(maze, start, ends[i] as int, first);
        assert(route_from(maze, start, ends[i] as int, first));
    }
    if let Some(second) = r2 {
        let i = choose|i: int| 0 <= i < ends.len() && route_from(maze, start, ends[i] as int, second);
        assert(route_from(maze, start, ends[i] as int, second));
    }
}

/// The cells left, one per move, when following `dirs` from `cur`.
pub open spec fn route_cells(maze: &Maze, cur: int, dirs: Seq<Direction>) -> Seq<int>
    decreases dirs.len(),
{
    if dirs.len() == 0 {
        Seq::empty()
    } else {
        let e = maze.cells()[cur].slot(dirs[0]).unwrap();
        seq![cur] + route_cells(maze, maze.edges()[e as int].target() as int, dirs.drop_first())
    }
}

/// How many of the transitions `es` have a door.
pub open spec fn doors_taken(maze: &Maze, es: Seq<usize>) -> nat
    decreases es.len(),
{
    if es.len() == 0 {
        0
    } else {
        (if maze.edges()[es[0] as int].locked() { 1nat } else { 0nat }) + doors_taken(maze, es.drop_first())
    }
}

/// The coordinates of the key cells among `cs`.
pub open spec fn key_spots(maze: &Maze, cs: Seq<int>) -> Set<(u8, u8)>
    decreases cs.len(),
{
    if cs.len() == 0 {
        Set::empty()
    } else if maze.cells()[cs[0]].spec_key() {
        key_spots(maze, cs.drop_first()).insert(maze.pos_of(cs[0]))
    } else {
        key_spots(maze, cs.drop_first())
    }
}

proof fn lemma_route_lengths(maze: &Maze, cur: int, dirs: Seq<Direction>)
    ensures
        route_edges(maze, cur, dirs).len() == dirs.len(),
        route_cells(maze, cur, dirs).len() == dirs.len(),
    decreases dirs.len(),
{
    if dirs.len() > 0 {
        let e = maze.cells()[cur].slot(dirs[0]).unwrap();
        lemma_route_lengths(maze, maze.edges()[e as int].target() as int, dirs.drop_first());
    }
}

proof fn lemma_key_spots_finite(maze: &Maze, cs: Seq<int>)
    ensures
        key_spots(maze, cs).finite(),
    decreases cs.len(),
{
    if cs.len() > 0 {
        lemma_key_spots_finite(maze, cs.drop_first());
    }
}

proof fn lemma_doors_within_keys(
    maze: &Maze,
    cur: int,
    goal: int,
    collected: Seq<(u8, u8)>,
    balance: nat,
    used: Seq<usize>,
    dirs: Seq<Direction>,
    k: int,
)
    requires
        is_route(maze, cur, goal, collected, balance, used, dirs),
        0 <= k <= dirs.len(),
    ensures
        doors_taken(maze, route_edges(maze, cur, dirs).take(k)) <= balance + key_spots(
            maze,
            route_cells(maze, cur, dirs).take(k),
        ).difference(collected.to_set()).len(),
    decreases dirs.len(),
{
    let es = route_edges(maze, cur, dirs);
    let cs = route_cells(maze, cur, dirs);
    lemma_key_spots_finite(maze, cs.take(k));
    if k == 0 {
        assert(es.take(k) =~= Seq::<usize>::empty());
    } else {
        let here = maze.pos_of(cur);
        let picked = maze.cells()[cur].spec_key() && !collected.contains(here);
        let collected1 = if picked { collected.push(here) } else { collected };
        let balance1 = if picked { balance + 1 } else { balance };
        let e = maze.cells()[cur].slot(dirs[0]).unwrap();
        let next = maze.edges()[e as int].target() as int;
        let balance2 = if maze.edges()[e as int].locked() { (balance1 - 1) as nat } else { balance1 };
        let rest = dirs.drop_first();
        lemma_doors_within_keys(maze, next, goal, collected1, balance2, used.push(e), rest, k - 1);
        let tes = route_edges(maze, next, rest);
        let tcs = route_cells(maze, next, rest);
        lemma_route_lengths(maze, cur, dirs);
        lemma_route_lengths(maze, next, rest);
        assert(es == seq![e] + tes);
        assert(cs == seq![cur] + tcs);
        assert(es.take(k).drop_first() =~= tes.take(k - 1));
        assert(es.take(k)[0] == e);
        assert(cs.take(k).drop_first() =~= tcs.take(k - 1));
        assert(cs.take(k)[0] == cur);
        let kt = key_spots(maze, tcs.take(k - 1));
        let kk = key_spots(maze, cs.take(k));
        assert(kk == if maze.cells()[cur].spec_key() { kt.insert(here) } else { kt });
        lemma_key_spots_finite(maze, tcs.take(k - 1));
        let c = collected.to_set();
        let c1 = collected1.to_set();
        if picked {
            assert(c1 =~= c.insert(here)) by {
                assert forall|p: (u8, u8)| c1.contains(p) <==> c.insert(here).contains(p) by {
                    if collected1.contains(p) && p != here {
                        let j = choose|j: int| 0 <= j < collected1.len() && collected1[j] == p;
                        assert(collected[j] == p);
                    }
                    if collected.contains(p) {
                        let j = choose|j: int| 0 <= j < collected.len() && collected[j] == p;
                        assert(collected1[j] == p);
                    }
                    if p == here {
                        assert(collected1[collected.len() as int] == p);
                    }
                }
            }
            let small = kt.difference(c1);
            assert(small.insert(here).subset_of(kk.difference(c)));
            assert(!small.contains(here));
            lemma_len_subset(small.insert(here), kk.difference(c));
        } else {
            assert(kt.difference(c1).subset_of(kk.difference(c)));
            lemma_len_subset(kt.difference(c1), kk.difference(c));
        }
    }
}

/// Doors open only with keys: along a route, the doors taken in the first `k`
/// moves never outnumber the distinct coordinates of key cells that those
/// moves leave from, each key paying for one door.
pub proof fn lemma_doors_need_keys(maze: &Maze, start: int, goal: int, dirs: Seq<Direction>, k: int)
    requires
        route_from(maze, start, goal, dirs),
        0 <= k <= dirs.len(),
    ensures
        doors_taken(maze, route_edges(maze, start, dirs).take(k)) <= key_spots(
            maze,
            route_cells(maze, start, dirs).take(k),
        ).len(),
{
    let cs = route_cells(maze, start, dirs);
    lemma_doors_within_keys(maze, start, goal, Seq::empty(), 0, Seq::empty(), dirs, k);
    assert(key_spots(maze, cs.take(k)).difference(Seq::<(u8, u8)>::empty().to_set()) =~= key_spots(
        maze,
        cs.take(k),
    ));
}

/// Whether `dirs` can be followed from cell `cur`, doors and keys aside.
pub open spec fn is_walk(maze: &Maze, cur: int, dirs: Seq<Direction>) -> bool
    decreases dirs.len(),
{
    &&& 0 <= cur < maze.cells().len()
    &&& (dirs.len() > 0 ==> {
        &&& maze.cells()[cur].slot(dirs[0]) is Some
        &&& is_walk(
            maze,
            maze.edges()[maze.cells()[cur].slot(dirs[0]).unwrap() as int].target() as int,
            dirs.drop_first(),
        )
    })
}

/// The cell reached by following `dirs` from `cur`.
pub open spec fn walk_end(maze: &Maze, cur: int, dirs: Seq<Direction>) -> int
    decreases dirs.len(),
{
    if dirs.len() == 0 {
        cur
    } else {
        walk_end(
            maze,
            maze.edges()[maze.cells()[cur].slot(dirs[0]).unwrap() as int].target() as int,
            dirs.drop_first(),
        )
    }
}

/// A plain walk from `start` that ends on the coordinate of `goal`.
pub open spec fn walk_to(maze: &Maze, start: int, goal: int, dirs: Seq<Direction>) -> bool {
    is_walk(maze, start, dirs) && maze.pos_of(walk_end(maze, start, dirs)) == maze.pos_of(goal)
}

/// No two cells share a coordinate.
pub open spec fn distinct_positions(maze: &Maze) -> bool {
    forall|i: int, j: int|
        0 <= i < maze.cells().len() && 0 <= j < maze.cells().len() && i != j ==> maze.pos_of(i)
            != maze.pos_of(j)
}

/// No transition has a door.
pub open spec fn no_doors(maze: &Maze) -> bool {
    forall|e: int| 0 <= e < maze.edges().len() ==> !(#[trigger] maze.edges()[e]).locked()
}

/// The `i`-th cell a walk passes through, the start being the 0-th.
pub open spec fn visited(maze: &Maze, cur: int, dirs: Seq<Direction>, i: int) -> int {
    walk_end(maze, cur, dirs.take(i))
}

/// A walk that never passes through a cell twice.
pub open spec fn simple_walk(maze: &Maze, cur: int, dirs: Seq<Direction>) -> bool {
    forall|i: int, j: int|
        0 <= i < j <= dirs.len() ==> visited(maze, cur, dirs, i) != visited(maze, cur, dirs, j)
}

proof fn lemma_walk_concat(maze: &Maze, cur: int, a: Seq<Direction>, b: Seq<Direction>)
    requires
        is_walk(maze, cur, a),
    ensures
        is_walk(maze, cur, a + b) == is_walk(maze, walk_end(maze, cur, a), b),
        walk_end(maze, cur, a + b) == walk_end(maze, walk_end(maze, cur, a), b),
    decreases a.len(),
{
    if a.len() > 0 {
        let next = maze.edges()[maze.cells()[cur].slot(a[0]).unwrap() as int].target() as int;
        assert((a + b).drop_first() =~= a.drop_first() + b);
        assert((a + b)[0] == a[0]);
        lemma_walk_concat(maze, next, a.drop_first(), b);
    } else {
        assert(a + b =~= b);
    }
}

proof fn lemma_walk_in_bounds(maze: &Maze, cur: int, dirs: Seq<Direction>)
    requires
        is_walk(maze, cur, dirs),
    ensures
        0 <= walk_end(maze, cur, dirs) < maze.cells().len(),
    decreases dirs.len(),
{
    if dirs.len() > 0 {
        let next = maze.edges()[maze.cells()[cur].slot(dirs[0]).unwrap() as int].target() as int;
        lemma_walk_in_bounds(maze, next, dirs.drop_first());
    }
}

/// Cells passed by a walk, shifted by its first move.
proof fn lemma_visited_shift(maze: &Maze, cur: int, dirs: Seq<Direction>, i: int)
    requires
        dirs.len() > 0,
        0 <= i < dirs.len(),
    ensures
        visited(maze, cur, dirs, i + 1) == visited(
            maze,
            maze.edges()[maze.cells()[cur].slot(dirs[0]).unwrap() as int].target() as int,
            dirs.drop_first(),
            i,
        ),
{
    assert(dirs.take(i + 1).drop_first() =~= dirs.drop_first().take(i));
    assert(dirs.take(i + 1)[0] == dirs[0]);
}

proof fn lemma_prefix_walk(maze: &Maze, cur: int, dirs: Seq<Direction>, i: int)
    requires
        is_walk(maze, cur, dirs),
        0 <= i <= dirs.len(),
    ensures
        is_walk(maze, cur, dirs.take(i)),
        is_walk(maze, visited(maze, cur, dirs, i), dirs.skip(i)),
        walk_end(maze, visited(maze, cur, dirs, i), dirs.skip(i)) == walk_end(maze, cur, dirs),
    decreases dirs.len(),
{
    if i > 0 {
        let next = maze.edges()[maze.cells()[cur].slot(dirs[0]).unwrap() as int].target() as int;
        lemma_prefix_walk(maze, next, dirs.drop_first(), i - 1);
        lemma_visited_shift(maze, cur, dirs, i - 1);
        assert(dirs.take(i).drop_first() =~= dirs.drop_first().take(i - 1));
        assert(dirs.take(i)[0] == dirs[0]);
        assert(dirs.drop_first().skip(i - 1) =~= dirs.skip(i));
    } else {
        assert(dirs.take(0) =~= Seq::<Direction>::empty());
        assert(dirs.skip(0) =~= dirs);
    }
}

/// Every walk can be cut down to one that passes no cell twice.
proof fn lemma_shorten_walk(maze: &Maze, start: int, goal: int, w: Seq<Direction>) -> (s: Seq<Direction>)
    requires
        walk_to(maze, start, goal, w),
    ensures
        walk_to(maze, start, goal, s),
        simple_walk(maze, start, s),
        s.len() <= w.len(),
    decreases w.len(),
{
    if simple_walk(maze, start, w) {
        w
    } else {
        let (i, j) = choose|i: int, j: int|
            0 <= i < j <= w.len() && visited(maze, start, w, i) == visited(maze, start, w, j);
        lemma_prefix_walk(maze, start, w, i);
        lemma_prefix_walk(maze, start, w, j);
        let cut = w.take(i) + w.skip(j);
        lemma_walk_concat(maze, start, w.take(i), w.skip(j));
        lemma_shorten_walk(maze, start, goal, cut)
    }
}

/// A walk through distinct cells of an open maze is a route, whatever keys
/// are held, as long as no used transition leaves one of its cells.
proof fn lemma_simple_walk_is_route(
    maze: &Maze,
    cur: int,
    goal: int,
    collected: Seq<(u8, u8)>,
    balance: nat,
    used: Seq<usize>,
    w: Seq<Direction>,
)
    requires
        maze.wf(),
        no_doors(maze),
        distinct_positions(maze),
        is_walk(maze, cur, w),
        simple_walk(maze, cur, w),
        maze.pos_of(walk_end(maze, cur, w)) == maze.pos_of(goal),
        forall|u: int, i: int|
            0 <= u < used.len() && 0 <= i <= w.len() ==> maze.pos_of(
                maze.edges()[#[trigger] used[u] as int].source() as int,
            ) != maze.pos_of(#[trigger] visited(maze, cur, w, i)),
    ensures
        is_route(maze, cur, goal, collected, balance, used, w),
    decreases w.len(),
{
    if w.len() == 0 {
        assert(w.take(0) =~= w);
    } else {
        let e = maze.cells()[cur].slot(w[0]).unwrap();
        let next = maze.edges()[e as int].target() as int;
        let rest = w.drop_first();
        let here = maze.pos_of(cur);
        let picked = maze.cells()[cur].spec_key() && !collected.contains(here);
        let collected1 = if picked { collected.push(here) } else { collected };
        let balance1 = if picked { balance + 1 } else { balance };
        assert(w.take(0) =~= Seq::<Direction>::empty());
        assert(visited(maze, cur, w, 0) == cur);
        assert(w.take(w.len() as int) =~= w);
        lemma_walk_in_bounds(maze, cur, w);
        assert(maze.pos_of(cur) != maze.pos_of(goal)) by {
            assert(visited(maze, cur, w, w.len() as int) != cur);
        }
        assert forall|i: int| 0 <= i <= rest.len() implies visited(maze, cur, w, i + 1) == #[trigger] visited(
            maze,
            next,
            rest,
            i,
        ) by {
            lemma_visited_shift(maze, cur, w, i);
        }
        assert forall|i: int| 0 <= i <= rest.len() implies 0 <= #[trigger] visited(maze, next, rest, i)
            < maze.cells().len() by {
            lemma_prefix_walk(maze, next, rest, i);
            lemma_walk_in_bounds(maze, next, rest.take(i));
        }
        assert(simple_walk(maze, next, rest)) by {
            assert forall|i: int, j: int| 0 <= i < j <= rest.len() implies visited(maze, next, rest, i)
                != visited(maze, next, rest, j) by {
                assert(visited(maze, cur, w, i + 1) != visited(maze, cur, w, j + 1));
            }
        }
        let used1 = used.push(e);
        assert forall|u: int, i: int| 0 <= u < used1.len() && 0 <= i <= rest.len() implies maze.pos_of(
            maze.edges()[#[trigger] used1[u] as int].source() as int,
        ) != maze.pos_of(#[trigger] visited(maze, next, rest, i)) by {
            assert(visited(maze, cur, w, i + 1) == visited(maze, next, rest, i));
            if u == used.len() {
                assert(visited(maze, cur, w, 0) != visited(maze, cur, w, i + 1));
            }
        }
        assert(!edge_used(maze, used, e)) by {
            if edge_used(maze, used, e) {
                let u = choose|u: int|
                    0 <= u < used.len() && maze.edge_key(used[u] as int) == maze.edge_key(e as int);
                assert(maze.pos_of(maze.edges()[used[u] as int].source() as int) != maze.pos_of(
                    visited(maze, cur, w, 0),
                ));
            }
        }
        assert(walk_end(maze, next, rest) == walk_end(maze, cur, w));
        lemma_simple_walk_is_route(maze, next, goal, collected1, balance1, used1, rest);
    }
}

proof fn lemma_route_is_walk(
    maze: &Maze,
    cur: int,
    goal: int,
    collected: Seq<(u8, u8)>,
    balance: nat,
    used: Seq<usize>,
    dirs: Seq<Direction>,
)
    requires
        maze.wf(),
        0 <= cur < maze.cells().len(),
        is_route(maze, cur, goal, collected, balance, used, dirs),
    ensures
        is_walk(maze, cur, dirs),
        maze.pos_of(walk_end(maze, cur, dirs)) == maze.pos_of(goal),
    decreases dirs.len(),
{
    if dirs.len() > 0 {
        let here = maze.pos_of(cur);
        let picked = maze.cells()[cur].spec_key() && !collected.contains(here);
        let collected1 = if picked { collected.push(here) } else { collected };
        let balance1 = if picked { balance + 1 } else { balance };
        let e = maze.cells()[cur].slot(dirs[0]).unwrap();
        let balance2 = if maze.edges()[e as int].locked() { (balance1 - 1) as nat } else { balance1 };
        lemma_route_is_walk(
            maze,
            maze.edges()[e as int].target() as int,
            goal,
            collected1,
            balance2,
            used.push(e),
            dirs.drop_first(),
        );
    }
}

/// Without doors, and with every cell at a coordinate of its own, the search
/// is a plain shortest-path search: its answer is a walk to the goal and no
/// walk is shorter, so its cost is the breadth-first distance.
pub proof fn lemma_open_maze_shortest(
    maze: &Maze,
    start: int,
    goal: int,
    r: Option<Seq<Direction>>,
    w: Seq<Direction>,
)
    requires
        maze.wf(),
        no_doors(maze),
        distinct_positions(maze),
        0 <= start < maze.cells().len(),
        shortest_route(maze, start, goal, r),
        walk_to(maze, start, goal, w),
    ensures
        r is Some,
        walk_to(maze, start, goal, r.unwrap()),
        r.unwrap().len() <= w.len(),
{
    let s = lemma_shorten_walk(maze, start, goal, w);
    lemma_simple_walk_is_route(maze, start, goal, Seq::empty(), 0, Seq::empty(), s);
    assert(route_from(maze, start, goal, s));
    lemma_route_is_walk(maze, start, goal, Seq::empty(), 0, Seq::empty(), r.unwrap());
}

} // verus!
