use astar::{astar, astar_r, ReusableSearchProblem, SearchProblem};
use std::collections::VecDeque;

/// The whole numbers, each next to the one below and the one above it;
/// stepping up costs 3 and stepping down 1.
struct Ladder;

impl ReusableSearchProblem for Ladder {
    type Node = i64;

    fn heuristic(&self, node: &i64, end: &i64) -> u64 {
        if end > node {
            3 * (end - node) as u64
        } else {
            (node - end) as u64
        }
    }
    fn neighbors(&self, node: &i64) -> Vec<(i64, u64)> {
        vec![(node - 1, 1), (node + 1, 3)]
    }
    fn key(&self, node: &i64) -> u64 {
        *node as u64
    }
    fn estimate_length(&self, start: &i64, end: &i64) -> Option<u32> {
        Some((start - end).unsigned_abs() as u32 + 1)
    }
}

#[test]
fn one_environment_answers_many_queries() {
    let l = Ladder;
    let up = astar_r(&l, 0, 3).unwrap();
    assert_eq!(up.0, vec![0, 1, 2, 3].into_iter().collect::<VecDeque<_>>());
    assert_eq!(up.1, 9);
    let down = astar_r(&l, 3, 0).unwrap();
    assert_eq!(down.0, vec![3, 2, 1, 0].into_iter().collect::<VecDeque<_>>());
    assert_eq!(down.1, 3);
    let stay = astar_r(&l, -7, -7).unwrap();
    assert_eq!(stay.0, vec![-7].into_iter().collect::<VecDeque<_>>());
    assert_eq!(stay.1, 0);
}

#[test]
fn same_query_twice_gives_the_same() {
    let l = Ladder;
    let first = astar_r(&l, -2, 4);
    let between = astar_r(&l, 10, -10);
    let second = astar_r(&l, -2, 4);
    assert_eq!(first, second);
    assert_eq!(first.unwrap().1, 18);
    assert_eq!(between.unwrap().1, 20);
}

/// Two rooms with no door between them.
struct Rooms;

impl ReusableSearchProblem for Rooms {
    type Node = u8;

    fn heuristic(&self, _node: &u8, _end: &u8) -> u64 {
        0
    }
    fn neighbors(&self, node: &u8) -> Vec<(u8, u64)> {
        match *node {
            0 => vec![(1, 1)],
            1 => vec![(0, 1)],
            2 => vec![(3, 1)],
            _ => vec![(2, 1)],
        }
    }
    fn key(&self, node: &u8) -> u64 {
        *node as u64
    }
}

#[test]
fn no_way_between_the_rooms() {
    let r = Rooms;
    assert_eq!(astar_r(&r, 0, 3), None);
    assert_eq!(astar_r(&r, 2, 1), None);
    let within = astar_r(&r, 2, 3).unwrap();
    assert_eq!(within.0, vec![2, 3].into_iter().collect::<VecDeque<_>>());
    assert_eq!(within.1, 1);
}

#[test]
fn query_is_a_search_problem() {
    let l = Ladder;
    let q = l.search(0, 3);
    assert_eq!(q.start(), 0);
    assert!(q.is_end(&3));
    assert!(!q.is_end(&0));
    assert_eq!(q.heuristic(&1), 6);
    assert_eq!(q.heuristic(&5), 2);
    assert_eq!(q.neighbors(&1), vec![(0, 1), (2, 3)]);
    assert_eq!(q.key(&-1), u64::MAX);
    assert_eq!(q.estimate_length(), Some(4));
    assert_eq!(astar(&q), astar_r(&l, 0, 3));
    assert_eq!(astar(&l.search(3, 0)).unwrap().1, 3);
}
