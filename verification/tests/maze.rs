use astar::two_dim::TwoDimSearchProblemWrapper;
use astar::{astar_t, SearchProblem, TwoDimSearchProblem};
use std::collections::VecDeque;

struct Maze {
    xmax: i32,
    ymax: i32,
}

impl TwoDimSearchProblem for Maze {
    fn get(&self, x: i32, y: i32) -> Option<u32> {
        /* Imagine a simple maze, that looks something like this:
        .
        ........
               .
        ........
        .
        ........
        where . is passable, and everywhere else is impassible.
        */
        if x < 0 || x > self.xmax || y < 0 || y > self.ymax {
            None
        } else if y % 4 == 0 && x > 0 {
            None
        } else if (y + 2) % 4 == 0 && x < self.xmax {
            None
        } else {
            Some(0)
        }
    }
    fn diag(&self) -> bool {
        false
    }
    fn tween(&self) -> bool {
        false
    }
}

#[test]
fn test_maze() {
    let maze = Maze { xmax: 7, ymax: 5 };
    let p = astar_t(&maze, (0, 0), (0, 4)).unwrap();
    assert_eq!(
        p.0,
        vec![
            (0, 0),
            (0, 1),
            (1, 1),
            (2, 1),
            (3, 1),
            (4, 1),
            (5, 1),
            (6, 1),
            (7, 1),
            (7, 2),
            (7, 3),
            (6, 3),
            (5, 3),
            (4, 3),
            (3, 3),
            (2, 3),
            (1, 3),
            (0, 3),
            (0, 4),
        ]
        .into_iter()
        .collect::<VecDeque<_>>()
    );
}

#[test]
fn test_maze_reusable() {
    let maze = Maze { xmax: 7, ymax: 5 };
    let p = astar_t(&maze, (0, 0), (0, 4)).unwrap();
    let again = astar_t(&maze, (0, 0), (0, 4)).unwrap();
    assert_eq!(p, again);
}

#[test]
fn test_maze_reverse() {
    let maze = Maze { xmax: 7, ymax: 5 };
    let p = astar_t(&maze, (0, 0), (0, 4)).unwrap();
    let back = astar_t(&maze, (0, 4), (0, 0)).unwrap();
    assert_eq!(
        p.0.into_iter().collect::<Vec<_>>(),
        back.0.into_iter().rev().collect::<Vec<_>>()
    );
}

#[test]
fn maze_walk_costs_two_a_move() {
    let maze = Maze { xmax: 7, ymax: 5 };
    let p = astar_t(&maze, (0, 0), (0, 4)).unwrap();
    assert_eq!(p.1, 36);
}

/// A grid on which a few cells are walls.
struct Field {
    walls: Vec<(i32, i32)>,
    diag: bool,
    tween: bool,
    cost: u32,
}

impl TwoDimSearchProblem for Field {
    fn get(&self, x: i32, y: i32) -> Option<u32> {
        if self.walls.contains(&(x, y)) {
            None
        } else {
            Some(self.cost)
        }
    }
    fn diag(&self) -> bool {
        self.diag
    }
    fn tween(&self) -> bool {
        self.tween
    }
}

fn moves(f: &Field, at: (i32, i32)) -> Vec<((i32, i32), u64)> {
    let w = TwoDimSearchProblemWrapper { start: (0, 0), end: (0, 0), rsp: f };
    w.neighbors(&at)
}

#[test]
fn moves_along_the_axes() {
    let f = Field { walls: vec![], diag: false, tween: false, cost: 0 };
    assert_eq!(
        moves(&f, (5, 5)),
        vec![((5, 6), 2), ((4, 5), 2), ((6, 5), 2), ((5, 4), 2)]
    );
    let f = Field { walls: vec![(4, 5), (5, 4)], diag: false, tween: false, cost: 7 };
    assert_eq!(moves(&f, (5, 5)), vec![((5, 6), 9), ((6, 5), 9)]);
}

#[test]
fn moves_along_the_diagonals() {
    let f = Field { walls: vec![], diag: true, tween: false, cost: 1 };
    assert_eq!(
        moves(&f, (0, 0)),
        vec![
            ((0, 1), 3),
            ((-1, 0), 3),
            ((1, 0), 3),
            ((0, -1), 3),
            ((-1, 1), 4),
            ((1, 1), 4),
            ((1, -1), 4),
            ((-1, -1), 4),
        ]
    );
}

#[test]
fn corners_are_not_cut() {
    // the cell above is a wall: no diagonal move passes it
    let f = Field { walls: vec![(0, 1)], diag: true, tween: false, cost: 0 };
    assert_eq!(
        moves(&f, (0, 0)),
        vec![((-1, 0), 2), ((1, 0), 2), ((0, -1), 2), ((1, -1), 3), ((-1, -1), 3)]
    );
    // a diagonal cell that is a wall itself is left out
    let f = Field { walls: vec![(1, 1)], diag: true, tween: false, cost: 0 };
    assert_eq!(
        moves(&f, (0, 0)),
        vec![
            ((0, 1), 2),
            ((-1, 0), 2),
            ((1, 0), 2),
            ((0, -1), 2),
            ((-1, 1), 3),
            ((1, -1), 3),
            ((-1, -1), 3),
        ]
    );
}

#[test]
fn corners_are_cut_where_allowed() {
    let f = Field { walls: vec![(0, 1), (1, 0)], diag: true, tween: true, cost: 0 };
    assert_eq!(
        moves(&f, (0, 0)),
        vec![
            ((-1, 0), 2),
            ((0, -1), 2),
            ((-1, 1), 3),
            ((1, 1), 3),
            ((1, -1), 3),
            ((-1, -1), 3),
        ]
    );
}

#[test]
fn no_moves_off_the_edge_of_the_numbers() {
    let f = Field { walls: vec![], diag: true, tween: false, cost: 0 };
    let top = i32::MAX;
    assert_eq!(
        moves(&f, (top, top)),
        vec![((top - 1, top), 2), ((top, top - 1), 2), ((top - 1, top - 1), 3)]
    );
    let f = Field { walls: vec![], diag: true, tween: true, cost: 0 };
    let low = i32::MIN;
    assert_eq!(
        moves(&f, (low, 0)),
        vec![
            ((low, 1), 2),
            ((low + 1, 0), 2),
            ((low, -1), 2),
            ((low + 1, 1), 3),
            ((low + 1, -1), 3),
        ]
    );
}

#[test]
fn estimate_is_twice_the_manhattan_distance() {
    let f = Field { walls: vec![], diag: false, tween: false, cost: 0 };
    let w = TwoDimSearchProblemWrapper { start: (1, 1), end: (4, -3), rsp: &f };
    assert_eq!(w.heuristic(&(1, 1)), 14);
    assert_eq!(w.heuristic(&(4, -3)), 0);
    assert_eq!(w.heuristic(&(5, -5)), 6);
    assert_eq!(w.estimate_length(), Some(7));
    assert_eq!(w.start(), (1, 1));
    assert!(w.is_end(&(4, -3)));
    assert!(!w.is_end(&(4, 3)));
    let far = TwoDimSearchProblemWrapper {
        start: (i32::MIN, i32::MIN),
        end: (i32::MAX, i32::MAX),
        rsp: &f,
    };
    assert_eq!(far.heuristic(&(i32::MIN, i32::MIN)), 4 * (u32::MAX as u64));
    assert_eq!(far.estimate_length(), None);
    let wide = TwoDimSearchProblemWrapper { start: (i32::MIN, 0), end: (i32::MAX, 0), rsp: &f };
    assert_eq!(wide.estimate_length(), Some(u32::MAX));
}

#[test]
fn fingerprints_of_cells_differ() {
    let f = Field { walls: vec![], diag: false, tween: false, cost: 0 };
    let w = TwoDimSearchProblemWrapper { start: (0, 0), end: (0, 0), rsp: &f };
    assert_eq!(w.key(&(i32::MIN, i32::MIN)), 0);
    assert_eq!(w.key(&(i32::MIN, i32::MAX)), u32::MAX as u64);
    assert_eq!(w.key(&(i32::MAX, i32::MAX)), u64::MAX);
    assert_eq!(w.key(&(0, -1)), (1u64 << 63) + (1u64 << 31) - 1);
    assert_ne!(w.key(&(1, 0)), w.key(&(0, 1)));
}

#[test]
fn walled_in_goal_gives_nothing() {
    let f = Field {
        walls: vec![(2, 3), (3, 2), (4, 3), (3, 4), (-1, 0), (0, -1), (5, 0), (0, 5),
                    (-1, 1), (-1, 2), (-1, 3), (-1, 4), (1, -1), (2, -1), (3, -1), (4, -1),
                    (5, 1), (5, 2), (5, 3), (5, 4), (1, 5), (2, 5), (3, 5), (4, 5)],
        diag: false,
        tween: false,
        cost: 0,
    };
    assert_eq!(astar_t(&f, (0, 0), (3, 3)), None);
    assert_eq!(astar_t(&f, (0, 0), (4, 4)), None);
    assert_eq!(astar_t(&f, (0, 0), (9, 9)), None);
    let beside = astar_t(&f, (0, 0), (1, 4)).unwrap();
    assert_eq!(beside.1, 10);
    assert_eq!(beside.0.len(), 6);
}

#[test]
fn diagonal_walk_is_cheaper() {
    let f = Field { walls: vec![], diag: false, tween: false, cost: 0 };
    let p = astar_t(&f, (0, 0), (2, 2)).unwrap();
    assert_eq!(p.1, 8);
    let f = Field { walls: vec![], diag: true, tween: false, cost: 0 };
    let p = astar_t(&f, (0, 0), (2, 2)).unwrap();
    assert_eq!(p.0, vec![(0, 0), (1, 1), (2, 2)].into_iter().collect::<VecDeque<_>>());
    assert_eq!(p.1, 6);
}

#[test]
fn walk_on_open_ground() {
    let f = Field { walls: vec![], diag: false, tween: false, cost: 0 };
    let p = astar_t(&f, (0, 0), (0, 4)).unwrap();
    assert_eq!(
        p.0,
        vec![(0, 0), (0, 1), (0, 2), (0, 3), (0, 4)].into_iter().collect::<VecDeque<_>>()
    );
    assert_eq!(p.1, 8);
    let same = astar_t(&f, (9, 9), (9, 9)).unwrap();
    assert_eq!(same.0, vec![(9, 9)].into_iter().collect::<VecDeque<_>>());
    assert_eq!(same.1, 0);
}

#[test]
fn level_ground_costs_by_distance() {
    let f = Field { walls: vec![], diag: false, tween: false, cost: 3 };
    let p = astar_t(&f, (0, 0), (2, -3)).unwrap();
    assert_eq!(p.0.len(), 6);
    assert_eq!(p.1, 25);
    let back = astar_t(&f, (2, -3), (0, 0)).unwrap();
    assert_eq!(back.1, 25);
}
