use maze::graph::{Direction, Maze, SimpleField, Transition};
use maze::keys::Keys;
use maze::layout::{get_index, get_move, read_fields, tie_fields};
use maze::path::Path;
use maze::search::{diff, has_path, min_path, shortest_of};

fn tie_graph(maze: &mut Maze, a: &[usize]) {
    Transition::new(maze, true, &Direction::EAST, a[0], a[1]);
    Transition::new(maze, false, &Direction::SOUTH, a[1], a[3]);
    Transition::new(maze, true, &Direction::SOUTH, a[0], a[2]);
}

fn square() -> (Maze, Vec<usize>) {
    let mut maze = Maze::new();
    let a = vec![
        maze.add_field(SimpleField::new(0, 0, true, false)),
        maze.add_field(SimpleField::new(1, 0, false, false)),
        maze.add_field(SimpleField::new(0, 1, false, false)),
        maze.add_field(SimpleField::new(1, 1, false, true)),
    ];
    tie_graph(&mut maze, &a);
    (maze, a)
}

fn chain() -> (Maze, Vec<usize>) {
    let mut maze = Maze::new();
    let rf1 = maze.add_field(SimpleField::new(0, 0, false, false));
    let rf2 = maze.add_field(SimpleField::new(0, 1, false, false));
    let rf3 = maze.add_field(SimpleField::new(1, 1, true, false));
    let rf4 = maze.add_field(SimpleField::new(0, 2, false, true));
    Transition::new(&mut maze, false, &Direction::SOUTH, rf1, rf2);
    Transition::new(&mut maze, false, &Direction::NORTH, rf2, rf1);
    Transition::new(&mut maze, true, &Direction::SOUTH, rf2, rf4);
    Transition::new(&mut maze, false, &Direction::NORTH, rf4, rf2);
    Transition::new(&mut maze, false, &Direction::EAST, rf2, rf3);
    Transition::new(&mut maze, false, &Direction::WEST, rf3, rf2);
    (maze, vec![rf1, rf2, rf3, rf4])
}

fn show(p: &Path) {
    println!("{:?}", p.steps());
}

#[test]
fn basics() {
    let f1 = SimpleField::new(0, 0, true, false);
    assert_eq!(f1.has_key(), true);
    assert_eq!(f1.is_end(), false);
    let f2 = SimpleField::new(1, 0, false, false);
    assert_eq!(f2.has_key(), false);
    assert_eq!(f2.is_end(), false);
    let f3 = SimpleField::new(0, 1, false, false);
    assert_eq!(f3.has_key(), false);
    assert_eq!(f3.is_end(), false);
    let f4 = SimpleField::new(1, 1, false, true);
    assert_eq!(f4.has_key(), false);
    assert_eq!(f4.is_end(), true);

    let mut maze = Maze::new();
    let rf1 = maze.add_field(f1);
    let rf2 = maze.add_field(f2);
    let rf3 = maze.add_field(f3);
    let rf4 = maze.add_field(f4);
    tie_graph(&mut maze, &[rf1, rf2, rf3, rf4]);

    let p = has_path(&maze, rf1, rf4);
    if let Some(pp) = &p {
        show(pp);
    }
    assert_eq!(p.is_some(), true);
    assert_eq!(p.unwrap().cost(), 2);

    let p = has_path(&maze, rf2, rf4);
    if let Some(pp) = &p {
        show(pp);
    }
    assert_eq!(p.is_some(), true);
    assert_eq!(p.unwrap().cost(), 1);

    let p = has_path(&maze, rf2, rf3);
    assert_eq!(p.is_some(), false);
}

#[test]
fn not_closest() {
    let (maze, a) = chain();
    let p = has_path(&maze, a[0], a[3]);
    assert_eq!(p.is_some(), true);
    if let Some(pp) = &p {
        show(pp);
    }
    let ends = vec![a[1], a[2], a[3]];
    let p = min_path(&maze, a[0], &ends);
    assert_eq!(p.is_some(), true);
    if let Some(pp) = &p {
        show(pp);
    }
}

#[test]
fn square_from_key_corner() {
    let (maze, a) = square();
    let p = min_path(&maze, a[0], &vec![a[3]]).unwrap();
    assert_eq!(p.cost(), 2);
    assert_eq!(p.steps().clone(), vec![Direction::EAST, Direction::SOUTH]);
}

#[test]
fn square_from_east_cell() {
    let (maze, a) = square();
    let p = min_path(&maze, a[1], &vec![a[3]]).unwrap();
    assert_eq!(p.cost(), 1);
    assert_eq!(p.steps().clone(), vec![Direction::SOUTH]);
}

#[test]
fn square_one_way_has_no_route() {
    let (maze, a) = square();
    assert!(min_path(&maze, a[1], &vec![a[2]]).is_none());
}

#[test]
fn chain_detours_for_the_key() {
    let (maze, a) = chain();
    let p = min_path(&maze, a[0], &vec![a[3]]).unwrap();
    assert_eq!(p.cost(), 4);
    assert_eq!(
        p.steps().clone(),
        vec![Direction::SOUTH, Direction::EAST, Direction::WEST, Direction::SOUTH]
    );
}

#[test]
fn chain_cheapest_of_several_goals() {
    let (maze, a) = chain();
    let ends = vec![a[1], a[2], a[3]];
    let p = min_path(&maze, a[0], &ends).unwrap();
    assert_eq!(p.cost(), 1);
    assert_eq!(p.steps().clone(), vec![Direction::SOUTH]);
    assert_eq!(has_path(&maze, a[0], a[2]).unwrap().cost(), 2);
    assert_eq!(has_path(&maze, a[0], a[3]).unwrap().cost(), 4);
}

#[test]
fn start_that_is_a_goal_costs_nothing() {
    let (maze, a) = chain();
    let p = min_path(&maze, a[2], &vec![a[2]]).unwrap();
    assert_eq!(p.cost(), 0);
    assert!(p.steps().is_empty());
}

#[test]
fn no_goals_gives_no_route() {
    let (maze, a) = chain();
    assert!(min_path(&maze, a[0], &Vec::new()).is_none());
}

#[test]
fn door_without_a_key_stays_shut() {
    let mut maze = Maze::new();
    let s = maze.add_field(SimpleField::new(0, 0, false, false));
    let g = maze.add_field(SimpleField::new(1, 0, false, true));
    Transition::new(&mut maze, true, &Direction::EAST, s, g);
    assert!(has_path(&maze, s, g).is_none());
}

#[test]
fn one_key_opens_one_door() {
    let mut maze = Maze::new();
    let k = maze.add_field(SimpleField::new(0, 0, true, false));
    let m = maze.add_field(SimpleField::new(1, 0, false, false));
    let g = maze.add_field(SimpleField::new(2, 0, false, true));
    Transition::new(&mut maze, true, &Direction::EAST, k, m);
    Transition::new(&mut maze, true, &Direction::EAST, m, g);
    assert!(has_path(&maze, k, m).is_some());
    assert!(has_path(&maze, k, g).is_none());
}

#[test]
fn open_maze_matches_breadth_first_distance() {
    // A 3x3 grid, every neighbour joined both ways, no doors: the distance is
    // the grid distance.
    let mut maze = Maze::new();
    let mut ids = Vec::new();
    for y in 0..3u8 {
        for x in 0..3u8 {
            ids.push(maze.add_field(SimpleField::new(x, y, false, false)));
        }
    }
    for y in 0..3usize {
        for x in 0..3usize {
            let i = ids[y * 3 + x];
            if x > 0 {
                Transition::new(&mut maze, false, &Direction::WEST, i, ids[y * 3 + x - 1]);
            }
            if x < 2 {
                Transition::new(&mut maze, false, &Direction::EAST, i, ids[y * 3 + x + 1]);
            }
            if y > 0 {
                Transition::new(&mut maze, false, &Direction::NORTH, i, ids[(y - 1) * 3 + x]);
            }
            if y < 2 {
                Transition::new(&mut maze, false, &Direction::SOUTH, i, ids[(y + 1) * 3 + x]);
            }
        }
    }
    assert_eq!(has_path(&maze, ids[0], ids[8]).unwrap().cost(), 4);
    assert_eq!(has_path(&maze, ids[4], ids[1]).unwrap().cost(), 1);
    assert_eq!(has_path(&maze, ids[6], ids[2]).unwrap().cost(), 4);
}

#[test]
fn returned_route_uses_each_transition_once() {
    let (maze, a) = chain();
    let p = has_path(&maze, a[0], a[3]).unwrap();
    let mut at = a[0];
    let mut seen: Vec<usize> = Vec::new();
    for d in p.steps() {
        let t = maze.field(at).get_transition(*d).unwrap();
        assert!(!seen.contains(&t));
        seen.push(t);
        at = maze.transition(t).get_field2();
    }
    assert_eq!(at, a[3]);
}

#[test]
fn modes_agree_on_cost() {
    let (maze, a) = chain();
    let ends = vec![a[3], a[2], a[1]];
    let serial = min_path(&maze, a[0], &ends).unwrap();
    let mut results = Vec::new();
    for e in ends.iter().rev() {
        results.push(has_path(&maze, a[0], *e));
    }
    let gathered = shortest_of(results).unwrap();
    assert_eq!(serial.cost(), gathered.cost());
}

#[test]
fn shortest_of_keeps_the_first_of_equal_cost() {
    let (maze, a) = chain();
    let results = vec![
        None,
        has_path(&maze, a[0], a[2]),
        has_path(&maze, a[3], a[1]),
        has_path(&maze, a[0], a[1]),
    ];
    let p = shortest_of(results).unwrap();
    assert_eq!(p.cost(), 1);
    assert_eq!(p.steps().clone(), vec![Direction::NORTH]);
    assert!(shortest_of(vec![None, None]).is_none());
}

#[test]
fn ledger_collects_each_cell_once() {
    let mut k = Keys::new();
    let f = SimpleField::new(3, 4, true, false);
    assert!(k.add(&f));
    assert!(!k.add(&SimpleField::new(3, 4, true, false)));
    assert!(k.remove_use());
    assert!(!k.remove_use());
    k.add_use();
    assert!(k.remove_use());
    k.add_use();
    k.remove();
    assert!(!k.remove_use());
    assert!(k.add(&f));
}

#[test]
fn transitions_are_one_way() {
    let mut maze = Maze::new();
    let a = maze.add_field(SimpleField::new(0, 0, false, false));
    let b = maze.add_field(SimpleField::new(1, 0, false, false));
    let t = Transition::new(&mut maze, true, &Direction::EAST, a, b);
    assert_eq!(maze.field(a).get_transition(Direction::EAST), Some(t));
    assert_eq!(maze.field(b).get_transition(Direction::WEST), None);
    assert_eq!(maze.transition(t).get_field1(), a);
    assert_eq!(maze.transition(t).get_field2(), b);
    assert!(maze.transition(t).has_doors());
}

#[test]
fn manhattan_distance() {
    assert_eq!(diff(0, 0, 255, 255), 510);
    assert_eq!(diff(5, 1, 2, 3), 5);
    assert_eq!(Direction::NORTH.get_opposite(), Direction::SOUTH);
    assert_eq!(Direction::EAST.get_opposite(), Direction::WEST);
}

#[test]
fn decodes_cells_and_exits() {
    let mut text = String::new();
    text.push_str("0100 0100 1100\n");
    text.push_str("1000 0000 0011\n");
    let (mut maze, ends) = read_fields(text.as_bytes());
    assert_eq!(maze.len(), 2);
    assert_eq!(ends, vec![1]);
    assert!(maze.field(0).has_key());
    assert!(!maze.field(1).has_key());
    assert!(maze.field(1).is_end());
    assert_eq!(maze.field(1).position(), (1, 0));
    tie_fields(text.as_bytes(), &mut maze);
    let t = maze.field(0).get_transition(Direction::EAST).unwrap();
    assert!(maze.transition(t).has_doors());
    assert_eq!(maze.transition(t).get_field2(), 1);
    let back = maze.field(1).get_transition(Direction::WEST).unwrap();
    assert!(!maze.transition(back).has_doors());
    assert_eq!(maze.field(1).get_transition(Direction::EAST), None);
    let p = min_path(&maze, 0, &ends).unwrap();
    assert_eq!(p.steps().clone(), vec![Direction::EAST]);
    assert_eq!(get_index(3, 2), 21);
    assert_eq!(get_move(0, 0, Direction::WEST), None);
    assert_eq!(get_move(8, 0, Direction::EAST), None);
    assert_eq!(get_move(4, 5, Direction::SOUTH), None);
    assert_eq!(get_move(4, 5, Direction::NORTH), Some(40));
    assert_eq!(get_move(4, 1, Direction::EAST), Some(14));
}
