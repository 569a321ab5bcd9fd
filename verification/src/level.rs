use crate::laws::{law_found_path_is_route, law_nothing_found_is_unreachable};
use crate::optimal::{law_found_path_is_cheapest, lemma_route_longer, lemma_route_prefix};
use crate::search::is_outcome;
use crate::two_dim::{
    lemma_cells_tell_apart, lemma_grid_is_consistent, move_onto, moves_between, straight_moves,
    TwoDimSearchProblem, TwoDimSearchProblemWrapper,
};
use crate::{is_route, total, SearchProblem};
use vstd::prelude::*;

verus! {

/// The grid is level: every cell is passable at the cost `cost`, and no
/// move goes along a diagonal.
pub open spec fn level<G: TwoDimSearchProblem>(g: &G, cost: u32) -> bool {
    &&& !g.diag_spec()
    &&& forall|x: i32, y: i32| #[trigger] g.get_spec(x, y) == Some(cost)
}

/// The cell from which one move leads to `to` and which is one move nearer
/// to `from` than `to` is.
pub open spec fn cell_before(from: (i32, i32), to: (i32, i32)) -> (i32, i32) {
    if to.0 > from.0 {
        ((to.0 - 1) as i32, to.1)
    } else if to.0 < from.0 {
        ((to.0 + 1) as i32, to.1)
    } else if to.1 > from.1 {
        (to.0, (to.1 - 1) as i32)
    } else {
        (to.0, (to.1 + 1) as i32)
    }
}

/// On a level grid every move from a cell leads to a cell beside it and
/// costs 2 more than a cell.
proof fn lemma_moves_on_level_grid<'a, G: TwoDimSearchProblem>(
    w: &TwoDimSearchProblemWrapper<'a, G>,
    cost: u32,
    from: (i32, i32),
    to: (i32, i32),
    toll: u64,
)
    requires
        level(w.rsp, cost),
    ensures
        w.neighbors_spec(from).contains((to, toll)) <==> moves_between(from, to) == 1 && toll
            == cost + 2,
{
    let moves = w.neighbors_spec(from);
    let x = from.0 as int;
    let y = from.1 as int;
    assert(moves == straight_moves(w.rsp, x, y));
    if moves.contains((to, toll)) {
        let e = choose|e: int| 0 <= e < moves.len() && moves[e] == (to, toll);
    }
    if moves_between(from, to) == 1 && toll == cost + 2 {
        let up = move_onto(w.rsp, x, y + 1, 2);
        let left = move_onto(w.rsp, x - 1, y, 2);
        let right = move_onto(w.rsp, x + 1, y, 2);
        let down = move_onto(w.rsp, x, y - 1, 2);
        if to.1 == y + 1 {
            assert(moves[0] == (to, toll));
        } else if to.0 == x - 1 {
            assert(moves[up.len() as int] == (to, toll));
        } else if to.0 == x + 1 {
            assert(moves[(up.len() + left.len()) as int] == (to, toll));
        } else {
            assert(moves[(up.len() + left.len() + right.len()) as int] == (to, toll));
        }
    }
}

/// On a level grid a walk leads from the start to any cell `to`, at the
/// cost of as many moves as lie between them.
pub proof fn lemma_walk<'a, G: TwoDimSearchProblem>(
    w: &TwoDimSearchProblemWrapper<'a, G>,
    cost: u32,
    to: (i32, i32),
) -> (walk: (Seq<(i32, i32)>, Seq<u64>))
    requires
        level(w.rsp, cost),
    ensures
        is_route(w, walk.0, walk.1),
        walk.0.last() == to,
        total(walk.1) == moves_between(w.start, to) * (cost + 2),
    decreases moves_between(w.start, to),
{
    if to == w.start {
        let path = seq![to];
        let costs = Seq::<u64>::empty();
        assert(total(costs) == 0);
        (path, costs)
    } else {
        let from = cell_before(w.start, to);
        let toll = (cost + 2) as u64;
        let (path, costs) = lemma_walk(w, cost, from);
        lemma_moves_on_level_grid(w, cost, from, to, toll);
        lemma_route_longer(w, path, costs, to, toll);
        assert(moves_between(w.start, to) * (cost + 2) == moves_between(w.start, from) * (cost
            + 2) + (cost + 2)) by (nonlinear_arith)
            requires
                moves_between(w.start, to) == moves_between(w.start, from) + 1,
        ;
        (path.push(to), costs.push(toll))
    }
}

/// On a level grid no walk costs less than as many moves as lie between the
/// start and the cell it leads to.
pub proof fn lemma_walk_costs<'a, G: TwoDimSearchProblem>(
    w: &TwoDimSearchProblemWrapper<'a, G>,
    cost: u32,
    path: Seq<(i32, i32)>,
    costs: Seq<u64>,
)
    requires
        level(w.rsp, cost),
        is_route(w, path, costs),
    ensures
        total(costs) >= moves_between(w.start, path.last()) * (cost + 2),
    decreases costs.len(),
{
    if costs.len() == 0 {
        assert(moves_between(w.start, path.last()) * (cost + 2) == 0) by (nonlinear_arith)
            requires
                moves_between(w.start, path.last()) == 0,
        ;
    } else {
        let n = costs.len() as int;
        lemma_route_prefix(w, path, costs, n - 1);
        lemma_walk_costs(w, cost, path.take(n), costs.take(n - 1));
        assert(costs.take(n - 1) =~= costs.drop_last());
        assert(w.neighbors_spec(path[n - 1]).contains((path[n], costs[n - 1])));
        lemma_moves_on_level_grid(w, cost, path[n - 1], path[n], costs[n - 1]);
        assert(moves_between(w.start, path[n]) * (cost + 2) <= moves_between(w.start, path[n - 1])
            * (cost + 2) + (cost + 2)) by (nonlinear_arith)
            requires
                moves_between(w.start, path[n]) <= moves_between(w.start, path[n - 1]) + 1,
        ;
    }
}

/// On a level grid a search finds a walk, and the walk costs as many moves
/// as lie between the start and the goal: 2 more than a cell for each.
pub proof fn law_level_grid_costs_by_distance<'a, G: TwoDimSearchProblem>(
    w: &TwoDimSearchProblemWrapper<'a, G>,
    cost: u32,
    r: Option<(Seq<(i32, i32)>, nat)>,
)
    requires
        level(w.rsp, cost),
        is_outcome(w, r),
    ensures
        r matches Some((path, paid)) && paid == moves_between(w.start, w.end) * (cost + 2),
{
    lemma_cells_tell_apart(w);
    lemma_grid_is_consistent(w);
    let (walk, tolls) = lemma_walk(w, cost, w.end);
    match r {
        None => {
            law_nothing_found_is_unreachable(w, walk, tolls);
        },
        Some((path, paid)) => {
            law_found_path_is_route(w, path, paid);
            let costs = choose|costs: Seq<u64>| #[trigger]
                is_route(w, path, costs) && w.is_end_spec(path.last()) && paid == total(costs);
            lemma_walk_costs(w, cost, path, costs);
            law_found_path_is_cheapest(w, path, paid, walk, tolls);
        },
    }
}

} // verus!
