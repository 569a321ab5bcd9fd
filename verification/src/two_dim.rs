use crate::optimal::{cheapest_of_all, consistent};
use crate::search::is_outcome;
use crate::{astar, fingerprints_tell_apart, found, is_route, total, SearchProblem};
use std::collections::VecDeque;
use vstd::prelude::*;

verus! {

/// A grid of cells, each passable at a cost or impassable.
pub trait TwoDimSearchProblem {
    /// The cost of the cell at (`x`, `y`), or nothing where it is impassable.
    open spec fn get_spec(&self, x: i32, y: i32) -> Option<u32> {
        arbitrary()
    }

    /// Whether moves along the diagonals are allowed.
    open spec fn diag_spec(&self) -> bool {
        arbitrary()
    }

    /// Whether a diagonal move may cut a corner, that is, pass between
    /// two cells of which one or both are impassable.
    open spec fn tween_spec(&self) -> bool {
        arbitrary()
    }

    fn get(&self, x: i32, y: i32) -> (cost: Option<u32>)
        ensures
            cost == self.get_spec(x, y),
    ;

    fn diag(&self) -> (b: bool)
        ensures
            b == self.diag_spec(),
    ;

    fn tween(&self) -> (b: bool)
        ensures
            b == self.tween_spec(),
    ;
}

/// The cost of the cell at (`x`, `y`). Where no cell can be, because a
/// coordinate is beyond what an `i32` holds, there is none.
pub open spec fn cell<G: TwoDimSearchProblem>(g: &G, x: int, y: int) -> Option<u32> {
    if i32::MIN <= x <= i32::MAX && i32::MIN <= y <= i32::MAX {
        g.get_spec(x as i32, y as i32)
    } else {
        None
    }
}

/// The move onto the cell at (`x`, `y`), if it is passable: it costs what
/// the cell costs and `toll` on top.
pub open spec fn move_onto<G: TwoDimSearchProblem>(g: &G, x: int, y: int, toll: u64) -> Seq<
    ((i32, i32), u64),
> {
    match cell(g, x, y) {
        Some(cost) => seq![((x as i32, y as i32), (cost + toll) as u64)],
        None => Seq::empty(),
    }
}

/// The diagonal move from (`x`, `y`) by (`dx`, `dy`), if it is allowed: the
/// two cells that flank it are passable, or corners may be cut.
pub open spec fn slant<G: TwoDimSearchProblem>(g: &G, x: int, y: int, dx: int, dy: int) -> Seq<
    ((i32, i32), u64),
> {
    if g.tween_spec() || (cell(g, x, y + dy) is Some && cell(g, x + dx, y) is Some) {
        move_onto(g, x + dx, y + dy, 3)
    } else {
        Seq::empty()
    }
}

/// The four moves along the axes: up, left, right, down.
pub open spec fn straight_moves<G: TwoDimSearchProblem>(g: &G, x: int, y: int) -> Seq<
    ((i32, i32), u64),
> {
    move_onto(g, x, y + 1, 2) + move_onto(g, x - 1, y, 2) + move_onto(g, x + 1, y, 2) + move_onto(
        g,
        x,
        y - 1,
        2,
    )
}

/// The moves from the cell at (`x`, `y`): a move along an axis costs 2 more
/// than the cell it leads to, a move along a diagonal 3 more. The moves
/// along the diagonals come last: up left, up right, down right, down left.
pub open spec fn grid_moves<G: TwoDimSearchProblem>(g: &G, x: int, y: int) -> Seq<
    ((i32, i32), u64),
> {
    if g.diag_spec() {
        straight_moves(g, x, y) + slant(g, x, y, -1, 1) + slant(g, x, y, 1, 1) + slant(
            g,
            x,
            y,
            1,
            -1,
        ) + slant(g, x, y, -1, -1)
    } else {
        straight_moves(g, x, y)
    }
}

/// The number of moves along the axes that lead from `a` to `b` on an empty
/// grid.
pub open spec fn moves_between(a: (i32, i32), b: (i32, i32)) -> int {
    let dx = b.0 - a.0;
    let dy = b.1 - a.1;
    (if dx < 0 {
        -dx
    } else {
        dx
    }) + (if dy < 0 {
        -dy
    } else {
        dy
    })
}

/// Twice the number of moves along the axes that lead from `a` to `b` on an
/// empty grid: each such move costs 2 at least.
pub open spec fn manhattan(a: (i32, i32), b: (i32, i32)) -> int {
    2 * moves_between(a, b)
}

/// The fingerprint of a cell: its coordinates, counted from the least
/// `i32`, side by side.
pub open spec fn cell_key(c: (i32, i32)) -> int {
    (c.0 - i32::MIN) * 0x1_0000_0000 + (c.1 - i32::MIN)
}

/// A grid with a start and a goal: the search problem of walking from one
/// to the other.
pub struct TwoDimSearchProblemWrapper<'a, Rsp: TwoDimSearchProblem> {
    pub start: (i32, i32),
    pub end: (i32, i32),
    pub rsp: &'a Rsp,
}

impl<'a, Rsp: TwoDimSearchProblem> TwoDimSearchProblemWrapper<'a, Rsp> {
    /// Adds to `v` the move onto the cell at (`x + dx`, `y + dy`), if that
    /// cell is passable, and says whether it is.
    fn add_move(
        &self,
        v: &mut Vec<((i32, i32), u64)>,
        x: i32,
        dx: i32,
        y: i32,
        dy: i32,
        toll: u64,
    ) -> (passable: bool)
        requires
            -1 <= dx <= 1,
            -1 <= dy <= 1,
            toll <= 3,
        ensures
            final(v)@ == old(v)@ + move_onto(self.rsp, x + dx, y + dy, toll),
            passable == cell(self.rsp, x + dx, y + dy) is Some,
    {
        match (x.checked_add(dx), y.checked_add(dy)) {
            (Some(nx), Some(ny)) => match self.rsp.get(nx, ny) {
                Some(p) => {
                    v.push(((nx, ny), p as u64 + toll));
                    true
                },
                None => {
                    false
                },
            },
            _ => {
                false
            },
        }
    }
}

impl<'a, Rsp: TwoDimSearchProblem> SearchProblem for TwoDimSearchProblemWrapper<'a, Rsp> {
    type Node = (i32, i32);

    open spec fn start_spec(&self) -> (i32, i32) {
        self.start
    }

    open spec fn is_end_spec(&self, node: (i32, i32)) -> bool {
        node == self.end
    }

    open spec fn heuristic_spec(&self, node: (i32, i32)) -> u64 {
        manhattan(node, self.end) as u64
    }

    open spec fn neighbors_spec(&self, node: (i32, i32)) -> Seq<((i32, i32), u64)> {
        grid_moves(self.rsp, node.0 as int, node.1 as int)
    }

    open spec fn key_spec(&self, node: (i32, i32)) -> u64 {
        cell_key(node) as u64
    }

    fn start(&self) -> (i32, i32) {
        self.start
    }

    fn is_end(&self, node: &(i32, i32)) -> bool {
        self.end.0 == node.0 && self.end.1 == node.1
    }

    fn heuristic(&self, node: &(i32, i32)) -> u64 {
        let (bx, by) = *node;
        let (ex, ey) = self.end;
        let dx: i64 = ex as i64 - bx as i64;
        let dy: i64 = ey as i64 - by as i64;
        let ax: i64 = if dx < 0 {
            -dx
        } else {
            dx
        };
        let ay: i64 = if dy < 0 {
            -dy
        } else {
            dy
        };
        ((ax + ay) * 2) as u64
    }

    /// The number of moves along the axes from the start to the goal on an
    /// empty grid, where a `u32` holds it.
    fn estimate_length(&self) -> (n: Option<u32>)
        ensures
            n == (if moves_between(self.start, self.end) <= u32::MAX {
                Some(moves_between(self.start, self.end) as u32)
            } else {
                None
            }),
    {
        let moves = self.heuristic(&self.start) / 2;
        if moves <= u32::MAX as u64 {
            Some(moves as u32)
        } else {
            None
        }
    }

    fn neighbors(&self, node: &(i32, i32)) -> (v: Vec<((i32, i32), u64)>) {
        let mut v = Vec::new();
        let (x, y) = *node;

        let a = self.add_move(&mut v, x, 0, y, 1, 2);
        let b = self.add_move(&mut v, x, -1, y, 0, 2);
        let c = self.add_move(&mut v, x, 1, y, 0, 2);
        let d = self.add_move(&mut v, x, 0, y, -1, 2);
        assert(v@ == straight_moves(self.rsp, x as int, y as int));

        if self.rsp.diag() {
            let tween = self.rsp.tween();
            if tween || (a && b) {
                self.add_move(&mut v, x, -1, y, 1, 3);
            }
            if tween || (a && c) {
                self.add_move(&mut v, x, 1, y, 1, 3);
            }
            if tween || (c && d) {
                self.add_move(&mut v, x, 1, y, -1, 3);
            }
            if tween || (b && d) {
                self.add_move(&mut v, x, -1, y, -1, 3);
            }
        }
        v
    }

    fn key(&self, node: &(i32, i32)) -> u64 {
        let col = (node.0 as i64 - i32::MIN as i64) as u64;
        let row = (node.1 as i64 - i32::MIN as i64) as u64;
        col * 0x1_0000_0000 + row
    }
}

/// No two cells have the same fingerprint.
pub proof fn lemma_cells_tell_apart<'a, Rsp: TwoDimSearchProblem>(
    w: &TwoDimSearchProblemWrapper<'a, Rsp>,
)
    ensures
        fingerprints_tell_apart(w),
{
    assert forall|a: (i32, i32), b: (i32, i32)| #[trigger]
        w.key_spec(a) == #[trigger] w.key_spec(b) implies a == b by {
    }
}

/// Either there are no diagonal moves, or no cell is free of cost: then a
/// diagonal move costs at least the two moves along the axes that the
/// estimate counts for it.
pub open spec fn diagonals_cost<G: TwoDimSearchProblem>(g: &G) -> bool {
    !g.diag_spec() || forall|x: i32, y: i32|
        (#[trigger] g.get_spec(x, y)) matches Some(cost) ==> cost >= 1
}

/// On such a grid the estimate is consistent.
pub proof fn lemma_grid_is_consistent<'a, Rsp: TwoDimSearchProblem>(
    w: &TwoDimSearchProblemWrapper<'a, Rsp>,
)
    requires
        diagonals_cost(w.rsp),
    ensures
        consistent(w),
{
    let g = w.rsp;
    assert forall|a: (i32, i32), e: int|
        0 <= e < w.neighbors_spec(a).len() implies w.heuristic_spec(a) <= (
    #[trigger] w.neighbors_spec(a)[e]).1 + w.heuristic_spec(w.neighbors_spec(a)[e].0) by {
        let x = a.0 as int;
        let y = a.1 as int;
        let m = w.neighbors_spec(a)[e];
        let a1 = move_onto(g, x, y + 1, 2);
        let a2 = move_onto(g, x - 1, y, 2);
        let a3 = move_onto(g, x + 1, y, 2);
        let a4 = move_onto(g, x, y - 1, 2);
        let straight = a1 + a2 + a3 + a4;
        assert(straight == straight_moves(g, x, y));
        if e < straight.len() {
            assert(m == straight[e]);
            assert(a1.contains(m) || a2.contains(m) || a3.contains(m) || a4.contains(m)) by {
                if e < a1.len() {
                    assert(a1[e] == m);
                } else if e < a1.len() + a2.len() {
                    assert(a2[e - a1.len()] == m);
                } else if e < a1.len() + a2.len() + a3.len() {
                    assert(a3[e - a1.len() - a2.len()] == m);
                } else {
                    assert(a4[e - a1.len() - a2.len() - a3.len()] == m);
                }
            }
        } else {
            let d1 = slant(g, x, y, -1, 1);
            let d2 = slant(g, x, y, 1, 1);
            let d3 = slant(g, x, y, 1, -1);
            let d4 = slant(g, x, y, -1, -1);
            let f = e - straight.len();
            assert(d1.contains(m) || d2.contains(m) || d3.contains(m) || d4.contains(m)) by {
                if f < d1.len() {
                    assert(d1[f] == m);
                } else if f < d1.len() + d2.len() {
                    assert(d2[f - d1.len()] == m);
                } else if f < d1.len() + d2.len() + d3.len() {
                    assert(d3[f - d1.len() - d2.len()] == m);
                } else {
                    assert(d4[f - d1.len() - d2.len() - d3.len()] == m);
                }
            }
        }
    }
}

/// Searches the grid `s` for a cheapest walk from `start` to `end`. Hands
/// back the cells of the walk, `start` first and `end` last, and its cost;
/// or nothing where no walk leads from one to the other.
pub fn astar_t<S: TwoDimSearchProblem>(s: &S, start: (i32, i32), end: (i32, i32)) -> (r: Option<
    (VecDeque<(i32, i32)>, u128),
>)
    ensures
        is_outcome(&(TwoDimSearchProblemWrapper { start: start, end: end, rsp: s }), found(r)),
        match r {
            Some((path, cost)) => exists|costs: Seq<u64>| #[trigger]
                is_route(
                    &(TwoDimSearchProblemWrapper { start: start, end: end, rsp: s }),
                    path@,
                    costs,
                ) && path@.last() == end && cost == total(costs),
            None => forall|path: Seq<(i32, i32)>, costs: Seq<u64>| #[trigger]
                is_route(
                    &(TwoDimSearchProblemWrapper { start: start, end: end, rsp: s }),
                    path,
                    costs,
                ) ==> path.last() != end,
        },
        diagonals_cost(s) ==> (r matches Some((_, cost)) ==> cheapest_of_all(
            &(TwoDimSearchProblemWrapper { start: start, end: end, rsp: s }),
            cost as nat,
        )),
{
    let rspw = TwoDimSearchProblemWrapper { start: start, end: end, rsp: s };
    proof {
        lemma_cells_tell_apart(&rspw);
        if diagonals_cost(s) {
            lemma_grid_is_consistent(&rspw);
        }
    }
    astar(&rspw)
}

} // verus!
