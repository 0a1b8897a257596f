//! The route search: which move sequences are routes, the order in which a
//! cell's exits are tried, the backtracking search for one goal, and the
//! choice of the cheapest among several goals.
use vstd::prelude::*;
use crate::graph::{Direction, Maze, safe_equals, safe_equals_t, safe_get_transition, safe_has_key};
use crate::keys::Keys;
use crate::path::{Path, steps_of};

verus! {

/// Whether a transition joining the same coordinates as `e` is among `used`.
pub open spec fn edge_used(maze: &Maze, used: Seq<usize>, e: usize) -> bool {
    exists|i: int| 0 <= i < used.len() && maze.edge_key(used[i] as int) == maze.edge_key(e as int)
}

/// A stack of used transitions: distinct indices into the transition table.
pub open spec fn used_ok(maze: &Maze, used: Seq<usize>) -> bool {
    &&& used.no_duplicates()
    &&& forall|i: int| 0 <= i < used.len() ==> (#[trigger] used[i]) < maze.edges().len()
}

/// Whether following `dirs` from cell `cur` reaches the coordinate of `goal`,
/// the first time there, given the keys already `collected`, the `balance` of
/// key uses and the transitions already `used` on the way here. Stepping on a
/// key cell whose coordinate was not collected yet collects it and adds a use;
/// a locked transition takes one use; no two transitions joining the same
/// coordinates in the same order are taken.
pub open spec fn is_route(
    maze: &Maze,
    cur: int,
    goal: int,
    collected: Seq<(u8, u8)>,
    balance: nat,
    used: Seq<usize>,
    dirs: Seq<Direction>,
) -> bool
    decreases dirs.len(),
{
    if dirs.len() == 0 {
        maze.pos_of(cur) == maze.pos_of(goal)
    } else {
        let picked = maze.cells()[cur].spec_key() && !collected.contains(maze.pos_of(cur));
        let collected1 = if picked { collected.push(maze.pos_of(cur)) } else { collected };
        let balance1 = if picked { balance + 1 } else { balance };
        let slot = maze.cells()[cur].slot(dirs[0]);
        &&& maze.pos_of(cur) != maze.pos_of(goal)
        &&& slot is Some
        &&& !edge_used(maze, used, slot.unwrap())
        &&& (maze.edges()[slot.unwrap() as int].locked() ==> balance1 > 0)
        &&& is_route(
            maze,
            maze.edges()[slot.unwrap() as int].target() as int,
            goal,
            collected1,
            if maze.edges()[slot.unwrap() as int].locked() {
                (balance1 - 1) as nat
            } else {
                balance1
            },
            used.push(slot.unwrap()),
            dirs.drop_first(),
        )
    }
}

/// A route from `start` to `goal` with no key collected and nothing used yet.
pub open spec fn route_from(maze: &Maze, start: int, goal: int, dirs: Seq<Direction>) -> bool {
    is_route(maze, start, goal, Seq::empty(), 0, Seq::empty(), dirs)
}

/// `r` is a shortest route from `start` to `goal`, or none when there is no route.
pub open spec fn shortest_route(maze: &Maze, start: int, goal: int, r: Option<Seq<Direction>>) -> bool {
    &&& (r matches Some(p) ==> route_from(maze, start, goal, p))
    &&& forall|dirs: Seq<Direction>|
        #[trigger] route_from(maze, start, goal, dirs) ==> (r matches Some(p) && p.len() <= dirs.len())
}

/// `r` is a route from `start` to one of `ends`, and no route from `start` to
/// any of them is shorter; or it is none when none of them can be reached.
pub open spec fn shortest_to_any(maze: &Maze, start: int, ends: Seq<usize>, r: Option<Seq<Direction>>) -> bool {
    &&& (r matches Some(p) ==> exists|i: int| 0 <= i < ends.len() && route_from(maze, start, ends[i] as int, p))
    &&& forall|i: int, dirs: Seq<Direction>|
        0 <= i < ends.len() && #[trigger] route_from(maze, start, ends[i] as int, dirs) ==> (r matches Some(p)
            && p.len() <= dirs.len())
}

/// `r` is the first of the shortest among `rs`, or none when all of `rs` are none.
pub open spec fn first_shortest(rs: Seq<Option<Seq<Direction>>>, r: Option<Seq<Direction>>) -> bool {
    match r {
        None => forall|i: int| 0 <= i < rs.len() ==> #[trigger] rs[i] is None,
        Some(p) => exists|i: int|
            0 <= i < rs.len() && rs[i] == Some(p) && (forall|j: int|
                0 <= j < i ==> (#[trigger] rs[j] matches Some(q) && p.len() < q.len() || rs[j] is None)) && (
            forall|j: int| 0 <= j < rs.len() ==> (#[trigger] rs[j] matches Some(q) ==> p.len() <= q.len())),
    }
}

/// How the goals of `min_path_mode` in a front end are evaluated: one after
/// the other, or each on a worker of its own.
#[derive(PartialEq, Eq, Structural, Clone, Copy, Debug)]
pub enum Mode {
    PARALLEL,
    SERIAL,
}

/// Whether a route of total depth `depth` is still worth looking at under `bound`.
pub open spec fn below(bound: Option<usize>, depth: nat) -> bool {
    match bound {
        Some(b) => depth < b,
        None => true,
    }
}

pub open spec fn manhattan(a: (u8, u8), b: (u8, u8)) -> int {
    (if a.0 >= b.0 { a.0 - b.0 } else { b.0 - a.0 }) + (if a.1 >= b.1 { a.1 - b.1 } else { b.1 - a.1 })
}

/// The fixed order in which exits of equal estimate are tried.
pub open spec fn rank(d: Direction) -> int {
    match d {
        Direction::SOUTH => 0,
        Direction::EAST => 1,
        Direction::WEST => 2,
        Direction::NORTH => 3,
    }
}

/// The estimate for leaving `f1` towards `d`: how far the cell it leads to
/// lies from `end`.
pub open spec fn exit_cost(maze: &Maze, f1: int, end: int, d: Direction) -> int {
    manhattan(
        maze.pos_of(maze.edges()[maze.cells()[f1].slot(d).unwrap() as int].target() as int),
        maze.pos_of(end),
    )
}

pub open spec fn tried_before(maze: &Maze, f1: int, end: int, a: Direction, b: Direction) -> bool {
    exit_cost(maze, f1, end, a) < exit_cost(maze, f1, end, b) || (exit_cost(maze, f1, end, a)
        == exit_cost(maze, f1, end, b) && rank(a) < rank(b))
}

/// Distinct indices below `n` number at most `n`.
proof fn lemma_distinct_below(s: Seq<usize>, n: nat)
    requires
        s.no_duplicates(),
        forall|i: int| 0 <= i < s.len() ==> (#[trigger] s[i]) < n,
    ensures
        s.len() <= n,
    decreases n,
{
    if n == 0 {
        if s.len() > 0 {
            assert(s[0] < 0);
        }
    } else if exists|i: int| 0 <= i < s.len() && s[i] == n - 1 {
        let i = choose|i: int| 0 <= i < s.len() && s[i] == n - 1;
        let t = s.remove(i);
        assert forall|j: int| 0 <= j < t.len() implies (#[trigger] t[j]) < n - 1 by {
            let k = if j < i { j } else { j + 1 };
            assert(t[j] == s[k]);
            assert(s[k] != s[i]);
        }
        assert(t.no_duplicates()) by {
            assert forall|a: int, b: int| 0 <= a < t.len() && 0 <= b < t.len() && a != b implies t[a]
                != t[b] by {
                let ka = if a < i { a } else { a + 1 };
                let kb = if b < i { b } else { b + 1 };
                assert(t[a] == s[ka] && t[b] == s[kb]);
            }
        }
        lemma_distinct_below(t, (n - 1) as nat);
    } else {
        assert forall|j: int| 0 <= j < s.len() implies (#[trigger] s[j]) < n - 1 by {
            assert(s[j] != n - 1);
        }
        lemma_distinct_below(s, (n - 1) as nat);
    }
}

/// Manhattan distance between `(x1, y1)` and `(x2, y2)`.
pub fn diff(x1: u8, y1: u8, x2: u8, y2: u8) -> (r: u16)
    ensures
        r == manhattan((x1, y1), (x2, y2)),
{
    let dx: u8 = if x1 >= x2 { x1 - x2 } else { x2 - x1 };
    let dy: u8 = if y1 >= y2 { y1 - y2 } else { y2 - y1 };
    dx as u16 + dy as u16
}

/// Whether a transition joining the same coordinates as `t` is on the stack.
fn transition_used(maze: &Maze, transitions: &Vec<usize>, t: usize) -> (r: bool)
    requires
        maze.wf(),
        used_ok(maze, transitions@),
        t < maze.edges().len(),
    ensures
        r == edge_used(maze, transitions@, t),
{
    let mut i: usize = 0;
    while i < transitions.len()
        invariant
            maze.wf(),
            used_ok(maze, transitions@),
            t < maze.edges().len(),
            i <= transitions@.len(),
            forall|j: int|
                0 <= j < i ==> maze.edge_key(transitions@[j] as int) != maze.edge_key(t as int),
        decreases transitions@.len() - i,
    {
        if safe_equals_t(maze, transitions[i], t) {
            return true;
        }
        i += 1;
    }
    false
}

/// The directions in which `f1` has an exit, ordered by how far the cell each
/// leads to lies from `end`; exits of equal estimate keep the order south,
/// east, west, north.
fn directions_heuristic(maze: &Maze, f1: usize, end: usize) -> (r: Vec<Direction>)
    requires
        maze.wf(),
        f1 < maze.cells().len(),
        end < maze.cells().len(),
    ensures
        forall|d: Direction| r@.contains(d) <==> maze.cells()[f1 as int].slot(d) is Some,
        forall|i: int, j: int|
            0 <= i < j < r@.len() ==> tried_before(maze, f1 as int, end as int, r@[i], r@[j]),
{
    let directions: Vec<Direction> = vec![Direction::SOUTH, Direction::EAST, Direction::WEST, Direction::NORTH];
    let mut result: Vec<Direction> = Vec::new();
    let mut costs: Vec<u16> = Vec::new();
    let target = maze.field(end).position();
    let mut k: usize = 0;
    while k < directions.len()
        invariant
            maze.wf(),
            f1 < maze.cells().len(),
            end < maze.cells().len(),
            target == maze.pos_of(end as int),
            directions@ == seq![Direction::SOUTH, Direction::EAST, Direction::WEST, Direction::NORTH],
            forall|j: int| 0 <= j < 4 ==> rank(#[trigger] directions@[j]) == j,
            k <= 4,
            costs@.len() == result@.len(),
            forall|i: int|
                0 <= i < result@.len() ==> maze.cells()[f1 as int].slot(#[trigger] result@[i]) is Some
                    && costs@[i] == exit_cost(maze, f1 as int, end as int, result@[i])
                    && rank(result@[i]) < k,
            forall|d: Direction|
                result@.contains(d) <==> (maze.cells()[f1 as int].slot(d) is Some && rank(d) < k),
            forall|i: int, j: int|
                0 <= i < j < result@.len() ==> tried_before(maze, f1 as int, end as int, result@[i], result@[j]),
        decreases 4 - k,
    {
        let d = directions[k];
        if let Some(t) = safe_get_transition(maze, f1, d) {
            let next = maze.field(maze.transition(t).get_field2()).position();
            let cost = diff(next.0, next.1, target.0, target.1);
            assert(cost == exit_cost(maze, f1 as int, end as int, d));
            let ghost old_result = result@;
            let ghost old_costs = costs@;
            assert(forall|dd: Direction| #[trigger] old_result.contains(dd) <==> (maze.cells()[f1 as int].slot(dd) is Some && rank(dd) < k));
            let mut p: usize = 0;
            while p < costs.len() && costs[p] <= cost
                invariant
                    p <= costs@.len(),
                    forall|i: int| 0 <= i < p ==> costs@[i] <= cost,
                decreases costs@.len() - p,
            {
                p += 1;
            }
            result.insert(p, d);
            costs.insert(p, cost);
            proof {
                assert forall|i: int| 0 <= i < result@.len() implies maze.cells()[f1 as int].slot(
                    #[trigger] result@[i],
                ) is Some && costs@[i] == exit_cost(maze, f1 as int, end as int, result@[i]) && rank(
                    result@[i],
                ) < k + 1 by {
                    if i > p {
                        assert(result@[i] == old_result[i - 1]);
                        assert(costs@[i] == old_costs[i - 1]);
                    }
                }
                assert forall|dd: Direction|
                    result@.contains(dd) <==> (maze.cells()[f1 as int].slot(dd) is Some && rank(dd) < k
                        + 1) by {
                    if result@.contains(dd) {
                        let i = choose|i: int| 0 <= i < result@.len() && result@[i] == dd;
                        if i < p {
                            assert(old_result[i] == dd);
                        } else if i > p {
                            assert(old_result[i - 1] == dd);
                        }
                    }
                    if maze.cells()[f1 as int].slot(dd) is Some && rank(dd) < k + 1 {
                        if rank(dd) < k {
                            assert(old_result.contains(dd));
                            let i = choose|i: int| 0 <= i < old_result.len() && old_result[i] == dd;
                            if i < p {
                                assert(result@[i] == dd);
                            } else {
                                assert(result@[i + 1] == dd);
                            }
                        } else {
                            assert(rank(dd) == rank(d));
                            assert(dd == d);
                            assert(result@[p as int] == dd);
                        }
                    }
                }
                assert forall|i: int, j: int| 0 <= i < j < result@.len() implies tried_before(
                    maze,
                    f1 as int,
                    end as int,
                    result@[i],
                    result@[j],
                ) by {
                    if j < p {
                        assert(result@[i] == old_result[i] && result@[j] == old_result[j]);
                    } else if j == p {
                        assert(result@[i] == old_result[i]);
                        assert(old_costs[i] <= cost);
                    } else if i == p {
                        assert(result@[j] == old_result[j - 1]);
                        assert(old_costs[p as int] > cost);
                        if j - 1 > p {
                            assert(tried_before(maze, f1 as int, end as int, old_result[p as int], old_result[j - 1]));
                        }
                    } else if i < p {
                        assert(result@[i] == old_result[i] && result@[j] == old_result[j - 1]);
                    } else {
                        assert(result@[i] == old_result[i - 1] && result@[j] == old_result[j - 1]);
                    }
                }
            }
        }
        k += 1;
    }
    result
}

/// Looks for the shortest route from `f1` to `f2` given the ledger `keys` and
/// the stack of `transitions` taken so far; `min_transitions`, once a route is
/// known, is its total depth, and only strictly shallower routes are still
/// looked for. Returns the route found with its total depth. The ledger and
/// the stack are handed back exactly as they came.
#[verifier::rlimit(50)]
fn has_path_keys(
    maze: &Maze,
    f1: usize,
    f2: usize,
    keys: &mut Keys,
    transitions: &mut Vec<usize>,
    min_transitions: Option<usize>,
) -> (r: Option<(Path, usize)>)
    requires
        maze.wf(),
        f1 < maze.cells().len(),
        f2 < maze.cells().len(),
        old(keys).wf(),
        old(keys)@.0.len() <= old(transitions)@.len(),
        used_ok(maze, old(transitions)@),
        min_transitions matches Some(b) ==> old(transitions)@.len() <= b,
    ensures
        final(keys)@ == old(keys)@,
        final(transitions)@ == old(transitions)@,
        r matches Some((p, depth)) ==> {
            &&& is_route(maze, f1 as int, f2 as int, old(keys)@.0, old(keys)@.1, old(transitions)@, p@)
            &&& depth == old(transitions)@.len() + p@.len()
            &&& (min_transitions matches Some(b) ==> depth <= b)
        },
        forall|dirs: Seq<Direction>|
            #[trigger] is_route(maze, f1 as int, f2 as int, old(keys)@.0, old(keys)@.1, old(transitions)@, dirs)
                && below(min_transitions, old(transitions)@.len() + dirs.len()) ==> (r matches Some((p, _))
                && p@.len() <= dirs.len()),
    decreases maze.edges().len() - old(transitions)@.len(),
{
    let ghost k0 = keys@;
    let ghost used0 = transitions@;
    proof {
        lemma_distinct_below(used0, maze.edges().len());
    }
    if safe_equals(maze, f1, f2) {
        proof {
            assert forall|dirs: Seq<Direction>|
                #[trigger] is_route(maze, f1 as int, f2 as int, k0.0, k0.1, used0, dirs) implies dirs.len() == 0 by {}
        }
        return Some((Path::empty(), transitions.len()));
    }
    if let Some(b) = min_transitions {
        if transitions.len() == b {
            return None;
        }
    }
    let ghost here = maze.pos_of(f1 as int);
    let ghost picked = maze.cells()[f1 as int].spec_key() && !k0.0.contains(here);
    let mut used_key = false;
    if safe_has_key(maze, f1) {
        if keys.add(maze.field(f1)) {
            used_key = true;
        }
    }
    let ghost k1 = keys@;
    assert(k1 == (if picked { k0.0.push(here) } else { k0.0 }, if picked { k0.1 + 1 } else { k0.1 }));
    let directions = directions_heuristic(maze, f1, f2);
    let mut path: Option<Path> = None;
    let mut min_t = min_transitions;
    let mut i: usize = 0;
    while i < directions.len()
        invariant
            maze.wf(),
            f1 < maze.cells().len(),
            f2 < maze.cells().len(),
            maze.pos_of(f1 as int) != maze.pos_of(f2 as int),
            here == maze.pos_of(f1 as int),
            picked == (maze.cells()[f1 as int].spec_key() && !k0.0.contains(here)),
            k1 == (if picked { k0.0.push(here) } else { k0.0 }, if picked { k0.1 + 1 } else { k0.1 }),
            used_key == picked,
            keys@ == k1,
            keys.wf(),
            k0.0.len() <= used0.len(),
            transitions@ == used0,
            old(transitions)@ == used0,
            used_ok(maze, used0),
            used0.len() <= maze.edges().len(),
            min_transitions matches Some(b) ==> used0.len() < b,
            i <= directions@.len(),
            forall|d: Direction| directions@.contains(d) <==> maze.cells()[f1 as int].slot(d) is Some,
            path is None ==> min_t == min_transitions,
            path matches Some(p) ==> {
                &&& is_route(maze, f1 as int, f2 as int, k0.0, k0.1, used0, p@)
                &&& p@.len() >= 1
                &&& min_t matches Some(m) && m == used0.len() + p@.len()
                &&& (min_transitions matches Some(b) ==> used0.len() + p@.len() <= b)
            },
            forall|dirs: Seq<Direction>|
                #[trigger] is_route(maze, f1 as int, f2 as int, k0.0, k0.1, used0, dirs) && dirs.len() > 0
                    && directions@.subrange(0, i as int).contains(dirs[0]) && below(
                    min_transitions,
                    used0.len() + dirs.len(),
                ) ==> (path matches Some(p) && p@.len() <= dirs.len()),
        decreases directions@.len() - i,
    {
        let d = directions[i];
        let ghost path_before = path;
        let ghost min_before = min_t;
        if let Some(t) = safe_get_transition(maze, f1, d) {
            if !transition_used(maze, transitions, t) {
                let doors = maze.transition(t).has_doors();
                let f = maze.transition(t).get_field2();
                let can_pass = if doors {
                    keys.remove_use()
                } else {
                    true
                };
                if can_pass {
                    let ghost k2 = keys@;
                    transitions.push(t);
                    proof {
                        assert forall|j: int| 0 <= j < used0.len() implies used0[j] != t by {
                            if used0[j] == t {
                                assert(maze.edge_key(used0[j] as int) == maze.edge_key(t as int));
                            }
                        }
                        assert(used_ok(maze, transitions@));
                        lemma_distinct_below(transitions@, maze.edges().len());
                        assert(maze.edges().len() - transitions@.len() < maze.edges().len() - used0.len());
                    }
                    let sub = has_path_keys(maze, f, f2, keys, transitions, min_t);
                    if let Some((mut steps, new_min)) = sub {
                        let better = match &path {
                            Some(cp) => steps.cost() + 1 < cp.cost(),
                            None => true,
                        };
                        if better {
                            let ghost rest = steps@;
                            steps.add_step(d);
                            proof {
                                assert(steps@.drop_first() =~= rest);
                                assert(steps@[0] == d);
                            }
                            path = Some(steps);
                            min_t = Some(new_min);
                        }
                    }
                    transitions.pop();
                    assert(transitions@ =~= used0);
                    if doors {
                        keys.add_use();
                    }
                    proof {
                        assert forall|dirs: Seq<Direction>|
                            #[trigger] is_route(maze, f1 as int, f2 as int, k0.0, k0.1, used0, dirs) && dirs.len() > 0
                                && dirs[0] == d && below(min_transitions, used0.len() + dirs.len())
                                implies (path matches Some(p) && p@.len() <= dirs.len()) by {
                            let rest = dirs.drop_first();
                            assert(maze.cells()[f1 as int].slot(d) == Some(t));
                            assert(k2 == (k1.0, if doors { (k1.1 - 1) as nat } else { k1.1 }));
                            assert(is_route(maze, f as int, f2 as int, k2.0, k2.1, used0.push(t), rest));
                            assert(used0.push(t).len() + rest.len() == used0.len() + dirs.len());
                            match path_before {
                                Some(cp) => {
                                    if dirs.len() < cp@.len() {
                                        assert(below(min_before, used0.push(t).len() + rest.len()));
                                    }
                                },
                                None => {
                                    assert(below(min_before, used0.push(t).len() + rest.len()));
                                },
                            }
                        }
                    }
                }
            }
        }
        proof {
            assert forall|dirs: Seq<Direction>|
                #[trigger] is_route(maze, f1 as int, f2 as int, k0.0, k0.1, used0, dirs) && dirs.len() > 0
                    && directions@.subrange(0, i + 1).contains(dirs[0]) && below(
                    min_transitions,
                    used0.len() + dirs.len(),
                ) implies (path matches Some(p) && p@.len() <= dirs.len()) by {
                let j = choose|j: int| 0 <= j < i + 1 && #[trigger] directions@.subrange(0, i + 1)[j] == dirs[0];
                if j < i {
                    assert(directions@.subrange(0, i as int)[j] == dirs[0]);
                    assert(directions@.subrange(0, i as int).contains(dirs[0]));
                }
            }
        }
        i += 1;
    }
    proof {
        assert(directions@.subrange(0, i as int) =~= directions@);
        assert forall|dirs: Seq<Direction>|
            #[trigger] is_route(maze, f1 as int, f2 as int, k0.0, k0.1, used0, dirs) && below(
                min_transitions,
                used0.len() + dirs.len(),
            ) implies (path matches Some(p) && p@.len() <= dirs.len()) by {
            assert(dirs.len() > 0);
            assert(directions@.contains(dirs[0]));
        }
    }
    if used_key {
        keys.remove();
        assert(keys@.0 =~= k0.0);
    }
    match path {
        Some(p) => Some((p, min_t.unwrap())),
        None => None,
    }
}

/// The shortest route from `f1` to `f2`, or none when there is no route.
pub fn has_path(maze: &Maze, f1: usize, f2: usize) -> (r: Option<Path>)
    requires
        maze.wf(),
        f1 < maze.cells().len(),
        f2 < maze.cells().len(),
    ensures
        shortest_route(maze, f1 as int, f2 as int, steps_of(r)),
{
    let mut k = Keys::new();
    let mut transitions: Vec<usize> = Vec::new();
    let found = has_path_keys(maze, f1, f2, &mut k, &mut transitions, None);
    match found {
        Some((path, _)) => Some(path),
        None => None,
    }
}

/// The first of the shortest paths in `results`, or none when all are none.
pub fn shortest_of(results: Vec<Option<Path>>) -> (r: Option<Path>)
    ensures
        first_shortest(results@.map_values(|o: Option<Path>| steps_of(o)), steps_of(r)),
{
    let ghost rs = results@.map_values(|o: Option<Path>| steps_of(o));
    let mut results = results;
    let mut min: Option<Path> = None;
    let ghost mut at: int = 0;
    while results.len() > 0
        invariant
            results@.len() <= rs.len(),
            forall|j: int| 0 <= j < results@.len() ==> steps_of(#[trigger] results@[j]) == rs[j],
            min is None ==> forall|j: int| results@.len() <= j < rs.len() ==> #[trigger] rs[j] is None,
            min matches Some(p) ==> {
                &&& results@.len() <= at < rs.len()
                &&& rs[at] == Some(p@)
                &&& forall|j: int| results@.len() <= j < at ==> (#[trigger] rs[j] matches Some(q) && p@.len() < q.len() || rs[j] is None)
                &&& forall|j: int| results@.len() <= j < rs.len() ==> (#[trigger] rs[j] matches Some(q) ==> p@.len() <= q.len())
            },
        decreases results@.len(),
    {
        let ghost n = results@.len();
        let got = results.pop().unwrap();
        assert(steps_of(got) == rs[n - 1]);
        match got {
            Some(candidate) => {
                let take = match &min {
                    Some(current) => candidate.cost() <= current.cost(),
                    None => true,
                };
                if take {
                    min = Some(candidate);
                    proof {
                        at = n - 1;
                    }
                }
            },
            None => {},
        }
    }
    min
}

/// The shortest route from `f1` to any of `ends`, evaluated goal by goal;
/// none when no goal can be reached.
pub fn min_path(maze: &Maze, f1: usize, ends: &Vec<usize>) -> (r: Option<Path>)
    requires
        maze.wf(),
        f1 < maze.cells().len(),
        forall|i: int| 0 <= i < ends@.len() ==> #[trigger] ends@[i] < maze.cells().len(),
    ensures
        shortest_to_any(maze, f1 as int, ends@, steps_of(r)),
{
    let mut results: Vec<Option<Path>> = Vec::new();
    let mut i: usize = 0;
    while i < ends.len()
        invariant
            maze.wf(),
            f1 < maze.cells().len(),
            forall|j: int| 0 <= j < ends@.len() ==> #[trigger] ends@[j] < maze.cells().len(),
            i <= ends@.len(),
            results@.len() == i,
            forall|j: int|
                0 <= j < i ==> shortest_route(maze, f1 as int, ends@[j] as int, steps_of(#[trigger] results@[j])),
        decreases ends@.len() - i,
    {
        let found = has_path(maze, f1, ends[i]);
        results.push(found);
        i += 1;
    }
    let ghost rs = results@.map_values(|o: Option<Path>| steps_of(o));
    let r = shortest_of(results);
    proof {
        lemma_first_shortest_to_any(maze, f1 as int, ends@, rs, steps_of(r));
    }
    r
}

/// Picking the first shortest of the per-goal shortest routes gives a
/// shortest route to any of the goals.
pub proof fn lemma_first_shortest_to_any(
    maze: &Maze,
    start: int,
    ends: Seq<usize>,
    rs: Seq<Option<Seq<Direction>>>,
    r: Option<Seq<Direction>>,
)
    requires
        rs.len() == ends.len(),
        forall|i: int| 0 <= i < ends.len() ==> shortest_route(maze, start, ends[i] as int, #[trigger] rs[i]),
        first_shortest(rs, r),
    ensures
        shortest_to_any(maze, start, ends, r),
{
    assert forall|i: int, dirs: Seq<Direction>|
        0 <= i < ends.len() && #[trigger] route_from(maze, start, ends[i] as int, dirs) implies (r matches Some(p)
            && p.len() <= dirs.len()) by {
        assert(shortest_route(maze, start, ends[i] as int, rs[i]));
        assert(rs[i] is Some);
    }
    if let Some(p) = r {
        let i = choose|i: int| 0 <= i < rs.len() && rs[i] == Some(p) && (forall|j: int|
            0 <= j < i ==> (#[trigger] rs[j] matches Some(q) && p.len() < q.len() || rs[j] is None)) && (
            forall|j: int| 0 <= j < rs.len() ==> (#[trigger] rs[j] matches Some(q) ==> p.len() <= q.len()));
        assert(shortest_route(maze, start, ends[i] as int, rs[i]));
    }
}

} // verus!
