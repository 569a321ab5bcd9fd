use astar::{astar, SearchProblem};
use std::cell::Cell;
use std::collections::VecDeque;

struct GridState {
    start: (i32, i32),
    end: (i32, i32),
}

fn abs(x: i32) -> i32 {
    if x < 0 {
        -x
    } else {
        x
    }
}

impl SearchProblem for GridState {
    type Node = (i32, i32);

    fn start(&self) -> (i32, i32) {
        self.start
    }
    fn is_end(&self, other: &(i32, i32)) -> bool {
        other == &self.end
    }
    fn heuristic(&self, &(p_x, p_y): &(i32, i32)) -> u64 {
        let (s_x, s_y) = self.end;
        (abs(s_x - p_x) + abs(s_y - p_y)) as u64
    }
    fn neighbors(&self, &(x, y): &(i32, i32)) -> Vec<((i32, i32), u64)> {
        let mut vec = vec![];
        for i in -1..1 + 1 {
            for k in -1..1 + 1 {
                if !(i == 0 && k == 0) {
                    vec.push(((x + i, y + k), 1));
                }
            }
        }
        vec
    }
    fn key(&self, &(x, y): &(i32, i32)) -> u64 {
        ((x as u32 as u64) << 32) | (y as u32 as u64)
    }
}

fn path(start: (i32, i32), end: (i32, i32)) -> Option<(VecDeque<(i32, i32)>, u128)> {
    let gs = GridState { start: start, end: end };
    astar(&gs)
}

#[test]
fn test_iter() {
    let gs = GridState { start: (0, 0), end: (0, 0) };
    assert!(
        gs.neighbors(&(0, 0))
            == vec![
                ((-1, -1), 1),
                ((-1, 0), 1),
                ((-1, 1), 1),
                ((0, -1), 1),
                ((0, 1), 1),
                ((1, -1), 1),
                ((1, 0), 1),
                ((1, 1), 1),
            ]
    )
}

#[test]
fn test_start_end() {
    let p = path((0, 0), (0, 0)).unwrap();
    assert_eq!(p.0, vec![(0, 0)].into_iter().collect::<VecDeque<_>>());
}

#[test]
fn test_next() {
    let p = path((0, 0), (0, 1)).unwrap();
    assert_eq!(p.0, vec![(0, 0), (0, 1)].into_iter().collect::<VecDeque<_>>());
}

#[test]
fn test_few() {
    let p = path((0, 0), (0, 4)).unwrap();
    assert_eq!(
        p.0,
        vec![(0, 0), (0, 1), (0, 2), (0, 3), (0, 4)].into_iter().collect::<VecDeque<_>>()
    );
}

#[test]
fn start_that_is_the_goal_costs_nothing() {
    let p = path((3, -2), (3, -2)).unwrap();
    assert_eq!(p.0, vec![(3, -2)].into_iter().collect::<VecDeque<_>>());
    assert_eq!(p.1, 0);
}

#[test]
fn straight_line_costs_one_a_step() {
    let p = path((0, 0), (0, 4)).unwrap();
    assert_eq!(p.0.len(), 5);
    assert_eq!(p.1, 4);
}

#[test]
fn diagonal_line_costs_one_a_step() {
    let p = path((0, 0), (3, 3)).unwrap();
    assert_eq!(p.0, vec![(0, 0), (1, 1), (2, 2), (3, 3)].into_iter().collect::<VecDeque<_>>());
    assert_eq!(p.1, 3);
}

#[test]
fn every_step_of_a_path_is_offered() {
    let gs = GridState { start: (-2, 5), end: (4, 1) };
    let (p, cost) = astar(&gs).unwrap();
    assert_eq!(p[0], (-2, 5));
    assert_eq!(p[p.len() - 1], (4, 1));
    let mut sum: u128 = 0;
    for i in 0..p.len() - 1 {
        let offered = gs.neighbors(&p[i]);
        let step = offered.iter().find(|(to, _)| *to == p[i + 1]);
        assert!(step.is_some());
        sum += step.unwrap().1 as u128;
    }
    assert_eq!(sum, cost);
    assert_eq!(cost, 6);
}

#[test]
fn same_search_twice_gives_the_same() {
    let gs = GridState { start: (0, 0), end: (5, 2) };
    assert_eq!(astar(&gs), astar(&gs));
}

/// A handful of states with steps between them, given as a table.
struct Graph {
    start: u32,
    goal: u32,
    edges: Vec<(u32, u32, u64)>,
    estimates: Vec<u64>,
}

impl SearchProblem for Graph {
    type Node = u32;

    fn start(&self) -> u32 {
        self.start
    }
    fn is_end(&self, node: &u32) -> bool {
        *node == self.goal
    }
    fn heuristic(&self, node: &u32) -> u64 {
        self.estimates[*node as usize]
    }
    fn neighbors(&self, node: &u32) -> Vec<(u32, u64)> {
        self.edges.iter().filter(|e| e.0 == *node).map(|e| (e.1, e.2)).collect()
    }
    fn key(&self, node: &u32) -> u64 {
        *node as u64
    }
}

#[test]
fn unreachable_goal_gives_nothing() {
    let g = Graph {
        start: 0,
        goal: 3,
        edges: vec![(0, 1, 1), (1, 2, 1), (2, 0, 1), (3, 0, 1)],
        estimates: vec![0, 0, 0, 0],
    };
    assert_eq!(astar(&g), None);
}

#[test]
fn start_without_steps_gives_nothing() {
    let g = Graph { start: 0, goal: 1, edges: vec![], estimates: vec![0, 0] };
    assert_eq!(astar(&g), None);
}

#[test]
fn open_node_reached_more_cheaply_is_relaxed() {
    // 0 -> 1 costs 10, but 0 -> 2 -> 1 costs 2.
    let g = Graph {
        start: 0,
        goal: 3,
        edges: vec![(0, 1, 10), (0, 2, 1), (2, 1, 1), (1, 3, 1)],
        estimates: vec![0, 0, 0, 0],
    };
    let (p, cost) = astar(&g).unwrap();
    assert_eq!(p, vec![0, 2, 1, 3].into_iter().collect::<VecDeque<_>>());
    assert_eq!(cost, 3);
}

#[test]
fn cheaper_of_two_ways_is_taken() {
    let g = Graph {
        start: 0,
        goal: 3,
        edges: vec![(0, 1, 1), (0, 2, 1), (1, 3, 5), (2, 3, 4)],
        estimates: vec![2, 1, 1, 0],
    };
    let (p, cost) = astar(&g).unwrap();
    assert_eq!(p, vec![0, 2, 3].into_iter().collect::<VecDeque<_>>());
    assert_eq!(cost, 5);
}

#[test]
fn equal_keys_are_served_in_order_of_creation() {
    // Both ways cost the same; the node met first is closed first.
    let g = Graph {
        start: 0,
        goal: 3,
        edges: vec![(0, 1, 1), (0, 2, 1), (1, 3, 1), (2, 3, 1)],
        estimates: vec![0, 0, 0, 0],
    };
    let (p, cost) = astar(&g).unwrap();
    assert_eq!(p, vec![0, 1, 3].into_iter().collect::<VecDeque<_>>());
    assert_eq!(cost, 2);
}

#[test]
fn too_high_an_estimate_may_miss_the_cheapest_path() {
    // The way over 1 costs 2, but the estimate at 1 is 9: the way over 2,
    // which costs 5, is found first.
    let g = Graph {
        start: 0,
        goal: 3,
        edges: vec![(0, 1, 1), (0, 2, 4), (1, 3, 1), (2, 3, 1)],
        estimates: vec![0, 9, 0, 0],
    };
    let (p, cost) = astar(&g).unwrap();
    assert_eq!(p, vec![0, 2, 3].into_iter().collect::<VecDeque<_>>());
    assert_eq!(cost, 5);
}

#[test]
fn closed_node_is_not_opened_again() {
    // 1 is closed at the cost 5 before 2 is, from which it costs but 2: it
    // keeps the cost and the parent it was closed with.
    let g = Graph {
        start: 0,
        goal: 3,
        edges: vec![(0, 1, 5), (0, 2, 1), (2, 1, 1), (1, 3, 10)],
        estimates: vec![0, 0, 10, 0],
    };
    let (p, cost) = astar(&g).unwrap();
    assert_eq!(p, vec![0, 1, 3].into_iter().collect::<VecDeque<_>>());
    assert_eq!(cost, 15);
}

#[test]
fn costs_beyond_u64_add_up() {
    let big = u64::MAX;
    let g = Graph {
        start: 0,
        goal: 2,
        edges: vec![(0, 1, big), (1, 2, big)],
        estimates: vec![0, 0, 0],
    };
    let (p, cost) = astar(&g).unwrap();
    assert_eq!(p.len(), 3);
    assert_eq!(cost, 2 * (big as u128));
}

/// Counts how often an estimate is asked for.
struct Counting {
    asked: Cell<u32>,
}

impl SearchProblem for Counting {
    type Node = u32;

    fn start(&self) -> u32 {
        0
    }
    fn is_end(&self, node: &u32) -> bool {
        *node == 3
    }
    fn heuristic(&self, node: &u32) -> u64 {
        self.asked.set(self.asked.get() + 1);
        if *node == 1 {
            7
        } else {
            0
        }
    }
    fn neighbors(&self, node: &u32) -> Vec<(u32, u64)> {
        match *node {
            // 1 and 2 are both reached twice, the second time more cheaply
            0 => vec![(1, 9), (2, 9), (4, 1)],
            4 => vec![(1, 1), (2, 1)],
            1 => vec![(3, 50)],
            2 => vec![(3, 50)],
            _ => vec![],
        }
    }
    fn key(&self, node: &u32) -> u64 {
        *node as u64
    }
}

#[test]
fn zero_estimate_is_asked_for_again() {
    let c = Counting { asked: Cell::new(0) };
    let (p, cost) = astar(&c).unwrap();
    assert_eq!(p, vec![0, 4, 2, 3].into_iter().collect::<VecDeque<_>>());
    assert_eq!(cost, 52);
    // start, 4, 1, 2, then 2 again (its estimate is 0) but not 1 (it is 7),
    // then 3.
    assert_eq!(c.asked.get(), 6);
}
