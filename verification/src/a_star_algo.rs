use vstd::prelude::*;
use vstd::pervasive::VecAdditionalExecFns;

use crate::board::{Board, Content, MAX_DIM};
use crate::direction::{adjacent, manhattan, Direction};
use crate::vect2_t::UCoord2;

verus! {

/// One search node: a cell, the accumulated move cost of the best known
/// route to it from the search origin, a heuristic estimate of the cost
/// still ahead, and the predecessor cell on that best route. The origin is
/// its own predecessor.
#[derive(Debug, Clone, Copy)]
struct Node {
    coord: UCoord2,
    move_cost: usize,
    heuristic: usize,
    parent_coord: UCoord2,
}

impl Node {
    fn new(coord: UCoord2, move_cost: usize, heuristic: usize, parent_coord: UCoord2) -> (r: Self)
        ensures
            r.coord == coord,
            r.move_cost == move_cost,
            r.heuristic == heuristic,
            r.parent_coord == parent_coord,
    {
        Self { coord, move_cost, heuristic, parent_coord }
    }

    /// The frontier is ordered by accumulated cost plus heuristic estimate.
    fn cost(&self) -> (r: usize)
        requires
            self.move_cost + self.heuristic <= usize::MAX,
        ensures
            r == self.move_cost + self.heuristic,
    {
        self.move_cost + self.heuristic
    }
}

/// Whether some node of `s` sits on cell `c`.
spec fn contains_coord(s: Seq<Node>, c: UCoord2) -> bool {
    exists|i: int| 0 <= i < s.len() && (#[trigger] s[i]).coord == c
}

/// No two nodes of `s` sit on the same cell.
spec fn no_dup_coords(s: Seq<Node>) -> bool {
    forall|i: int, j: int|
        0 <= i < j < s.len() ==> (#[trigger] s[i]).coord != (#[trigger] s[j]).coord
}

/// What holds of every frontier node: it sits on a traversable in-board
/// cell not yet settled, one step from a settled predecessor whose cost is
/// one less, and carries the exact Manhattan estimate to the target.
spec fn open_node_ok(b: Board, kinds: Seq<Content>, target: UCoord2, cl: Seq<Node>, n: Node) -> bool {
    &&& b.in_board(n.coord)
    &&& kinds.contains(b.cell(n.coord))
    &&& adjacent(n.parent_coord, n.coord)
    &&& !contains_coord(cl, n.coord)
    &&& n.move_cost <= cl.len()
    &&& n.heuristic == manhattan(n.coord, target)
    &&& n.heuristic <= 2 * MAX_DIM
    &&& exists|j: int|
        0 <= j < cl.len() && (#[trigger] cl[j]).coord == n.parent_coord && cl[j].move_cost + 1
            == n.move_cost
}

/// What holds of a settled node other than the origin: it sits on a
/// traversable in-board cell, one step from an earlier settled predecessor
/// whose cost is one less, and was settled with a cost below its index.
spec fn node_linked(b: Board, kinds: Seq<Content>, cl: Seq<Node>, i: int) -> bool {
    &&& adjacent(cl[i].parent_coord, cl[i].coord)
    &&& kinds.contains(b.cell(cl[i].coord))
    &&& cl[i].move_cost <= i
    &&& exists|j: int|
        0 <= j < i && (#[trigger] cl[j]).coord == cl[i].parent_coord && cl[j].move_cost + 1
            == cl[i].move_cost
}

/// The settled list is well formed: it starts with the origin, whose cost is
/// zero and who is its own predecessor; every later node is linked back to an
/// earlier one; and no cell is settled twice.
spec fn closed_wf(b: Board, kinds: Seq<Content>, start: UCoord2, cl: Seq<Node>) -> bool {
    &&& cl.len() >= 1
    &&& cl[0].coord == start
    &&& cl[0].parent_coord == start
    &&& cl[0].move_cost == 0
    &&& no_dup_coords(cl)
    &&& forall|i: int| 0 <= i < cl.len() ==> b.in_board((#[trigger] cl[i]).coord)
    &&& forall|i: int| 1 <= i < cl.len() ==> #[trigger] node_linked(b, kinds, cl, i)
}

/// The frontier is well formed against the settled list.
spec fn open_wf(b: Board, kinds: Seq<Content>, target: UCoord2, cl: Seq<Node>, op: Seq<Node>) -> bool {
    &&& no_dup_coords(op)
    &&& forall|i: int| 0 <= i < op.len() ==> #[trigger] open_node_ok(b, kinds, target, cl, op[i])
}

/// A cell the search may walk: on the board, with one of the traversable
/// content kinds.
pub open spec fn traversable(b: Board, kinds: Seq<Content>, c: UCoord2) -> bool {
    b.in_board(c) && kinds.contains(b.cell(c))
}

/// The cell is on the frontier or settled.
spec fn settled_or_frontier(cl: Seq<Node>, op: Seq<Node>, c: UCoord2) -> bool {
    contains_coord(cl, c) || contains_coord(op, c)
}

/// Every cell of a valid path lies in a set that holds the path's origin and
/// is closed under traversable adjacency.
proof fn lemma_path_stays_settled(
    b: Board,
    kinds: Seq<Content>,
    cl: Seq<Node>,
    start: UCoord2,
    p: Seq<UCoord2>,
    i: int,
)
    requires
        cl.len() >= 1,
        cl[0].coord == start,
        forall|c: UCoord2, j: int|
            0 <= j < cl.len() && #[trigger] adjacent(cl[j].coord, c) && traversable(b, kinds, c)
                ==> contains_coord(cl, c),
        0 <= i < p.len(),
        p.len() > 0 ==> adjacent(start, p[0]),
        forall|k: int| 0 <= k < p.len() ==> b.in_board(#[trigger] p[k]) && kinds.contains(b.cell(p[k])),
        forall|k: int| 0 <= k < p.len() - 1 ==> adjacent(#[trigger] p[k], p[k + 1]),
    ensures
        contains_coord(cl, p[i]),
    decreases i,
{
    if i == 0 {
        assert(adjacent(cl[0].coord, p[0]));
        assert(traversable(b, kinds, p[0]));
    } else {
        lemma_path_stays_settled(b, kinds, cl, start, p, i - 1);
        let j = choose|j: int| 0 <= j < cl.len() && (#[trigger] cl[j]).coord == p[i - 1];
        assert(adjacent(cl[j].coord, p[i]));
        assert(traversable(b, kinds, p[i]));
    }
}

/// What a returned path promises: it leads from `start` (excluded, and
/// never revisited) to `target` (included, and last) in unit grid steps,
/// every cell of it is in-board and traversable, no cell twice, and it is
/// empty exactly when start and target coincide.
pub open spec fn path_ok(
    b: Board,
    start: UCoord2,
    target: UCoord2,
    kinds: Seq<Content>,
    p: Seq<UCoord2>,
) -> bool {
    &&& (p.len() == 0 <==> start == target)
    &&& p.len() > 0 ==> p.last() == target && adjacent(start, p[0])
    &&& forall|i: int|
        0 <= i < p.len() ==> b.in_board(#[trigger] p[i]) && kinds.contains(b.cell(p[i]))
    &&& forall|i: int| 0 <= i < p.len() - 1 ==> adjacent(#[trigger] p[i], p[i + 1])
    &&& p.no_duplicates()
    &&& !p.contains(start)
}

/// A valid walk out of `start`: unit steps over traversable in-board
/// cells. Unlike a path it fixes no endpoint and may revisit cells.
spec fn walk_ok(b: Board, kinds: Seq<Content>, start: UCoord2, p: Seq<UCoord2>) -> bool {
    &&& p.len() > 0 ==> adjacent(start, p[0])
    &&& forall|i: int|
        0 <= i < p.len() ==> b.in_board(#[trigger] p[i]) && kinds.contains(b.cell(p[i]))
    &&& forall|i: int| 0 <= i < p.len() - 1 ==> adjacent(#[trigger] p[i], p[i + 1])
}

/// A prefix of a valid walk is a valid walk onto its last cell.
proof fn lemma_walk_prefix(b: Board, kinds: Seq<Content>, start: UCoord2, p: Seq<UCoord2>, i: int)
    requires
        walk_ok(b, kinds, start, p),
        0 < i <= p.len(),
    ensures
        walk_ok(b, kinds, start, p.take(i)),
        p.take(i).len() == i,
        p.take(i).last() == p[i - 1],
{
    let q = p.take(i);
    assert forall|k: int| 0 <= k < q.len() implies b.in_board(#[trigger] q[k]) && kinds.contains(
        b.cell(q[k]),
    ) by {
        assert(q[k] == p[k]);
    }
    assert forall|k: int| 0 <= k < q.len() - 1 implies adjacent(#[trigger] q[k], q[k + 1]) by {
        assert(q[k] == p[k]);
        assert(q[k + 1] == p[k + 1]);
    }
    assert(q[0] == p[0]);
}

/// The Manhattan distance obeys the triangle inequality.
proof fn lemma_manhattan_triangle(a: UCoord2, c: UCoord2, t: UCoord2)
    ensures
        manhattan(a, t) <= manhattan(a, c) + manhattan(c, t),
{
}

/// A chain of unit steps cannot shorten the Manhattan distance by more than
/// one per step.
proof fn lemma_chain_manhattan(start: UCoord2, p: Seq<UCoord2>)
    requires
        p.len() > 0,
        adjacent(start, p[0]),
        forall|i: int| 0 <= i < p.len() - 1 ==> adjacent(#[trigger] p[i], p[i + 1]),
    ensures
        manhattan(start, p.last()) <= p.len(),
    decreases p.len(),
{
    if p.len() > 1 {
        let q = p.drop_first();
        assert forall|i: int| 0 <= i < q.len() - 1 implies adjacent(#[trigger] q[i], q[i + 1]) by {
            assert(q[i] == p[i + 1]);
            assert(q[i + 1] == p[i + 2]);
            assert(adjacent(p[i + 1], p[i + 2]));
        }
        assert(adjacent(p[0], q[0]));
        lemma_chain_manhattan(p[0], q);
        assert(q.last() == p.last());
    }
}

/// From any cell of a valid walk, the walk's end is within the remaining
/// steps, by the Manhattan measure.
proof fn lemma_walk_remainder(
    b: Board,
    kinds: Seq<Content>,
    start: UCoord2,
    p: Seq<UCoord2>,
    i: int,
)
    requires
        walk_ok(b, kinds, start, p),
        0 <= i < p.len(),
    ensures
        manhattan(p[i], p.last()) <= p.len() - 1 - i,
{
    if i == p.len() - 1 {
    } else {
        let q = p.skip(i + 1);
        assert(q.len() == p.len() - i - 1);
        assert(q[0] == p[i + 1]);
        assert(adjacent(p[i], q[0]));
        assert forall|k: int| 0 <= k < q.len() - 1 implies adjacent(#[trigger] q[k], q[k + 1]) by {
            assert(q[k] == p[i + 1 + k]);
            assert(q[k + 1] == p[i + 1 + k + 1]);
            assert(adjacent(p[i + 1 + k], p[i + 1 + k + 1]));
        }
        lemma_chain_manhattan(p[i], q);
        assert(q.last() == p.last());
    }
}

/// Somewhere along a walk that ends outside a node list lies a first cell
/// outside it, with every cell before that one listed.
proof fn lemma_first_exit(cl: Seq<Node>, p: Seq<UCoord2>, i: int)
    requires
        0 <= i < p.len(),
        !contains_coord(cl, p[i]),
    ensures
        exists|i0: int|
            0 <= i0 <= i && !contains_coord(cl, #[trigger] p[i0]) && (forall|j2: int|
                0 <= j2 < i0 ==> contains_coord(cl, #[trigger] p[j2])),
    decreases i,
{
    if forall|j2: int| 0 <= j2 < i ==> contains_coord(cl, #[trigger] p[j2]) {
        assert(!contains_coord(cl, p[i]) && (forall|j2: int|
            0 <= j2 < i ==> contains_coord(cl, #[trigger] p[j2])));
    } else {
        let jbad = choose|jbad: int| 0 <= jbad < i && !contains_coord(cl, #[trigger] p[jbad]);
        lemma_first_exit(cl, p, jbad);
    }
}

/// A valid path is never shorter than the Manhattan distance between its
/// endpoints: with no obstruction it can meet it exactly, with obstructions
/// it can only exceed it.
pub proof fn lemma_path_len_ge_manhattan(
    b: Board,
    start: UCoord2,
    target: UCoord2,
    kinds: Seq<Content>,
    p: Seq<UCoord2>,
)
    requires
        path_ok(b, start, target, kinds, p),
    ensures
        p.len() >= manhattan(start, target),
{
    if p.len() == 0 {
        assert(start == target);
    } else {
        lemma_chain_manhattan(start, p);
    }
}

/// The neighbouring cell one unit closer to `b`: first along the x axis,
/// then along the y axis. Meaningful only while `a != b`.
spec fn step_toward(a: UCoord2, b: UCoord2) -> UCoord2 {
    if a.x < b.x {
        UCoord2 { x: (a.x + 1) as usize, y: a.y }
    } else if a.x > b.x {
        UCoord2 { x: (a.x - 1) as usize, y: a.y }
    } else if a.y < b.y {
        UCoord2 { x: a.x, y: (a.y + 1) as usize }
    } else {
        UCoord2 { x: a.x, y: (a.y - 1) as usize }
    }
}

/// The L-shaped unit-step route from `a` (excluded) to `b` (included).
spec fn staircase(a: UCoord2, b: UCoord2) -> Seq<UCoord2>
    decreases manhattan(a, b),
{
    if a == b {
        Seq::empty()
    } else {
        seq![step_toward(a, b)] + staircase(step_toward(a, b), b)
    }
}

/// The staircase is a valid route of exactly the Manhattan distance, as
/// long as every in-board cell is traversable and both ends are in-board.
proof fn lemma_staircase_ok(b: Board, kinds: Seq<Content>, a: UCoord2, t: UCoord2)
    requires
        forall|c: UCoord2| #[trigger] b.in_board(c) ==> kinds.contains(b.cell(c)),
        b.in_board(a),
        b.in_board(t),
    ensures
        path_ok(b, a, t, kinds, staircase(a, t)),
        staircase(a, t).len() == manhattan(a, t),
        forall|i: int|
            0 <= i < staircase(a, t).len() ==> manhattan(#[trigger] staircase(a, t)[i], t)
                == manhattan(a, t) - 1 - i,
    decreases manhattan(a, t),
{
    if a != t {
        let n = step_toward(a, t);
        assert(b.in_board(n));
        assert(adjacent(a, n));
        lemma_staircase_ok(b, kinds, n, t);
        let p = staircase(a, t);
        let rest = staircase(n, t);
        assert(p == seq![n] + rest);
        assert(p[0] == n);
        assert(p.len() == 1 + rest.len());
        if rest.len() == 0 {
            assert(n == t);
            assert(p.last() == t);
        } else {
            assert(p.last() == rest.last());
        }
        assert forall|i: int|
            0 <= i < p.len() implies b.in_board(#[trigger] p[i]) && kinds.contains(
            b.cell(p[i]),
        ) by {
            if i > 0 {
                assert(p[i] == rest[i - 1]);
            }
        }
        assert forall|i: int| 0 <= i < p.len() - 1 implies adjacent(#[trigger] p[i], p[i + 1]) by {
            if i == 0 {
                assert(p[1] == rest[0]);
                assert(adjacent(n, rest[0]));
            } else {
                assert(p[i] == rest[i - 1]);
                assert(p[i + 1] == rest[i]);
                assert(adjacent(rest[i - 1], rest[i]));
            }
        }
        // each step lands exactly one unit closer to the target, so the
        // cells are pairwise distinct and the origin is not among them
        assert forall|i: int| 0 <= i < p.len() implies manhattan(#[trigger] p[i], t) == manhattan(
            a,
            t,
        ) - 1 - i by {
            if i == 0 {
                assert(p[0] == n);
                assert(manhattan(n, t) == manhattan(a, t) - 1);
            } else {
                assert(p[i] == rest[i - 1]);
                assert(manhattan(rest[i - 1], t) == manhattan(n, t) - 1 - (i - 1));
            }
        }
        assert forall|i: int, j: int|
            0 <= i < p.len() && 0 <= j < p.len() && i != j implies #[trigger] p[i]
            != #[trigger] p[j] by {
            assert(manhattan(p[i], t) != manhattan(p[j], t));
        }
        assert(p.no_duplicates());
        assert(!p.contains(a)) by {
            if p.contains(a) {
                let i = choose|i: int| 0 <= i < p.len() && (#[trigger] p[i]) == a;
                assert(manhattan(p[i], t) == manhattan(a, t) - 1 - i);
            }
        }
    }
}

/// On a grid whose every in-board cell is traversable, any two cells are
/// joined by a valid route of exactly the Manhattan distance: the lower
/// bound of `lemma_path_len_ge_manhattan` is tight there, and by
/// `compute_path`'s contract the planner cannot answer `NotFound` on such
/// a grid.
pub proof fn lemma_unobstructed_route_exists(
    b: Board,
    kinds: Seq<Content>,
    start: UCoord2,
    target: UCoord2,
)
    requires
        forall|c: UCoord2| #[trigger] b.in_board(c) ==> kinds.contains(b.cell(c)),
        b.in_board(start),
        b.in_board(target),
    ensures
        exists|p: Seq<UCoord2>|
            #[trigger] path_ok(b, start, target, kinds, p) && p.len() == manhattan(start, target),
{
    lemma_staircase_ok(b, kinds, start, target);
}

/// No more nodes fit on the board than it has cells, once every node sits
/// on its own in-board cell.
proof fn lemma_unique_nodes_bound(b: Board, s: Seq<Node>)
    requires
        no_dup_coords(s),
        forall|i: int| 0 <= i < s.len() ==> b.in_board((#[trigger] s[i]).coord),
    ensures
        s.len() <= b.spec_width() * b.spec_height(),
{
    let w = b.spec_width() as int;
    let h = b.spec_height() as int;
    let ids = Seq::new(s.len(), |i: int| s[i].coord.y * w + s[i].coord.x);
    assert forall|i: int, j: int| 0 <= i < j < ids.len() implies ids[i] != ids[j] by {
        let c1 = s[i].coord;
        let c2 = s[j].coord;
        assert(c1 != c2);
        assert(c1.x < w && c1.y < h && c2.x < w && c2.y < h);
        assert(c1.y * w + c1.x != c2.y * w + c2.x) by (nonlinear_arith)
            requires
                c1 != c2,
                0 <= c1.x < w,
                0 <= c2.x < w,
                0 <= c1.y,
                0 <= c2.y,
        ;
    }
    assert(ids.no_duplicates());
    ids.unique_seq_to_set();
    assert(w * h >= 0) by (nonlinear_arith)
        requires
            w >= 0,
            h >= 0,
    ;
    vstd::set_lib::lemma_int_range(0, w * h);
    assert forall|x: int| ids.to_set().contains(x) implies vstd::set_lib::set_int_range(
        0,
        w * h,
    ).contains(x) by {
        let i = choose|i: int| 0 <= i < ids.len() && ids[i] == x;
        let c = s[i].coord;
        assert(0 <= c.y * w + c.x < h * w) by (nonlinear_arith)
            requires
                0 <= c.x < w,
                0 <= c.y < h,
        ;
    }
    vstd::set_lib::lemma_len_subset(ids.to_set(), vstd::set_lib::set_int_range(0, w * h));
}

/// Whether `c` is one of the traversable content kinds.
fn content_in(kinds: &[Content], c: Content) -> (r: bool)
    ensures
        r == kinds@.contains(c),
{
    let mut i: usize = 0;
    while i < kinds.len()
        invariant
            i <= kinds@.len(),
            forall|j: int| 0 <= j < i ==> kinds@[j] != c,
        decreases kinds@.len() - i,
    {
        if kinds[i] == c {
            return true;
        }
        i += 1;
    }
    false
}

/// The index of the node on cell `c`, if one is listed.
fn find_coord(list: &Vec<Node>, c: UCoord2) -> (r: Option<usize>)
    ensures
        match r {
            Some(i) => i < list@.len() && list@[i as int].coord == c,
            None => !contains_coord(list@, c),
        },
{
    let mut i: usize = 0;
    while i < list.len()
        invariant
            i <= list@.len(),
            forall|j: int| 0 <= j < i ==> (#[trigger] list@[j]).coord != c,
        decreases list@.len() - i,
    {
        if list[i].coord.x == c.x && list[i].coord.y == c.y {
            return Some(i);
        }
        i += 1;
    }
    None
}

/// The index of a cheapest frontier node.
fn find_min_cost(list: &Vec<Node>) -> (r: usize)
    requires
        list@.len() > 0,
        forall|i: int|
            0 <= i < list@.len() ==> (#[trigger] list@[i]).move_cost + list@[i].heuristic
                <= usize::MAX,
    ensures
        r < list@.len(),
        forall|i: int|
            0 <= i < list@.len() ==> list@[r as int].move_cost + list@[r as int].heuristic <= (
            #[trigger] list@[i]).move_cost + list@[i].heuristic,
{
    let mut best: usize = 0;
    let mut i: usize = 1;
    while i < list.len()
        invariant
            1 <= i <= list@.len(),
            best < i,
            forall|k: int|
                0 <= k < list@.len() ==> (#[trigger] list@[k]).move_cost + list@[k].heuristic
                    <= usize::MAX,
            forall|k: int|
                0 <= k < i ==> list@[best as int].move_cost + list@[best as int].heuristic <= (
                #[trigger] list@[k]).move_cost + list@[k].heuristic,
        decreases list@.len() - i,
    {
        if list[i].cost() < list[best].cost() {
            best = i;
        }
        i += 1;
    }
    best
}

/// The informed shortest-path planner: best-first search over the known
/// grid, with a frontier and a settled list both keyed by cell.
pub struct AStarAlgo {
    open_list: Vec<Node>,
    closed_list: Vec<Node>,
}

impl AStarAlgo {
    /// Both node lists are empty.
    pub closed spec fn is_clear(&self) -> bool {
        self.open_list@.len() == 0 && self.closed_list@.len() == 0
    }

    pub fn new() -> (r: Self)
        ensures
            r.is_clear(),
    {
        Self { open_list: Vec::new(), closed_list: Vec::new() }
    }

    fn clear(&mut self)
        ensures
            final(self).is_clear(),
    {
        self.open_list.clear();
        self.closed_list.clear();
    }

    /// Manhattan distance from `coord` to `target_coord`, the admissible
    /// estimate that orders the frontier.
    fn heuristic(&self, coord: UCoord2, target_coord: UCoord2) -> (r: usize)
        requires
            manhattan(coord, target_coord) <= usize::MAX,
        ensures
            r == manhattan(coord, target_coord),
    {
        let dx = if target_coord.x >= coord.x {
            target_coord.x - coord.x
        } else {
            coord.x - target_coord.x
        };
        let dy = if target_coord.y >= coord.y {
            target_coord.y - coord.y
        } else {
            coord.y - target_coord.y
        };
        dx + dy
    }

    /// Every move costs one more than the move that led to its predecessor.
    fn node_move_cost(&self, parent_move_cost: usize) -> (r: usize)
        requires
            parent_move_cost < usize::MAX,
        ensures
            r == parent_move_cost + 1,
    {
        parent_move_cost + 1
    }

    /// Computes a shortest route from `start_coord` to `target_coord` over
    /// cells whose content is one of `walkable_content`, by best-first
    /// search: the cheapest frontier node by cost plus Manhattan estimate
    /// is settled each step. Returns the route in start-to-target order,
    /// the origin excluded, no longer than any valid route (which of the
    /// equally short routes comes back is an implementation choice), or
    /// `None` when the frontier empties before the target is settled: an
    /// unreachable target is an explicit result, never an abort, and it
    /// comes back only when no valid route exists at all.
    pub fn compute_path(
        &mut self,
        board: &Board,
        start_coord: UCoord2,
        target_coord: UCoord2,
        walkable_content: &[Content],
    ) -> (r: Option<Vec<UCoord2>>)
        requires
            board.wf(),
            board.in_board(start_coord),
            board.in_board(target_coord),
        ensures
            match r {
                Some(path) => path_ok(*board, start_coord, target_coord, walkable_content@, path@)
                    && (forall|p: Seq<UCoord2>|
                    path_ok(*board, start_coord, target_coord, walkable_content@, p)
                        ==> path@.len() <= p.len()),
                None => true,
            },
            start_coord == target_coord ==> r is Some,
            adjacent(start_coord, target_coord) && walkable_content@.contains(
                board.cell(target_coord),
            ) ==> r is Some,
            r is None ==> (forall|p: Seq<UCoord2>|
                !path_ok(*board, start_coord, target_coord, walkable_content@, p)),
    {
        let ghost kinds = walkable_content@;
        let ghost b = *board;
        proof {
            crate::board::lemma_wf_bounds(board);
        }
        let ghost area = b.spec_width() * b.spec_height();
        self.clear();
        self.closed_list.push(Node::new(start_coord, 0, 0, start_coord));
        let mut parent_coord = start_coord;
        let mut parent_move_cost: usize = 0;
        proof {
            assert(closed_wf(b, kinds, start_coord, self.closed_list@));
            lemma_unique_nodes_bound(b, self.closed_list@);
        }
        while parent_coord.x != target_coord.x || parent_coord.y != target_coord.y
            invariant
                board.wf(),
                b == *board,
                kinds == walkable_content@,
                area == b.spec_width() * b.spec_height(),
                b.in_board(start_coord),
                b.in_board(target_coord),
                closed_wf(b, kinds, start_coord, self.closed_list@),
                open_wf(b, kinds, target_coord, self.closed_list@, self.open_list@),
                self.closed_list@.len() <= area,
                self.closed_list@.last().coord == parent_coord,
                self.closed_list@.last().move_cost == parent_move_cost,
                contains_coord(self.closed_list@, target_coord) ==> parent_coord == target_coord,
                forall|c: UCoord2, j: int|
                    0 <= j < self.closed_list@.len() - 1 && #[trigger] adjacent(
                        self.closed_list@[j].coord,
                        c,
                    ) && traversable(b, kinds, c) ==> settled_or_frontier(
                        self.closed_list@,
                        self.open_list@,
                        c,
                    ),
                // every settled cost undercuts every walk onto its cell
                forall|j: int, p: Seq<UCoord2>|
                    #![trigger self.closed_list@[j], walk_ok(b, kinds, start_coord, p)]
                    0 <= j < self.closed_list@.len() && walk_ok(b, kinds, start_coord, p)
                        && p.len() > 0 && p.last() == self.closed_list@[j].coord
                        ==> self.closed_list@[j].move_cost <= p.len(),
                // frontier costs respect every settled neighbour but the
                // still unexpanded last one
                forall|i: int, j: int|
                    #![trigger self.open_list@[i], self.closed_list@[j]]
                    0 <= i < self.open_list@.len() && 0 <= j < self.closed_list@.len() - 1
                        && adjacent(self.closed_list@[j].coord, self.open_list@[i].coord)
                        ==> self.open_list@[i].move_cost <= self.closed_list@[j].move_cost + 1,
            decreases area + 1 - self.closed_list@.len(),
        {
            let ghost cl = self.closed_list@;
            let ghost w = b.spec_width() as int;
            let ghost h = b.spec_height() as int;
            proof {
                crate::board::lemma_wf_bounds(board);
                assert(parent_coord != target_coord);
                // the settled cost is below the settled count, which the
                // board's cell count bounds
                assert(cl.last().move_cost <= cl.len() - 1) by {
                    if cl.len() > 1 {
                        assert(node_linked(b, kinds, cl, cl.len() - 1));
                    }
                }
                assert(area <= MAX_DIM * MAX_DIM) by (nonlinear_arith)
                    requires
                        area == b.spec_width() * b.spec_height(),
                        b.spec_width() <= MAX_DIM,
                        b.spec_height() <= MAX_DIM,
                ;
            }
            // expand the traversable, unsettled neighbours of the last settled cell
            let neighbours = board.neighbours_in_board_iter(parent_coord, Direction::Left);
            let ghost nb = neighbours@;
            let mut k: usize = 0;
            while k < neighbours.len()
                invariant
                    board.wf(),
                    b == *board,
                    kinds == walkable_content@,
                    w == b.spec_width() as int,
                    h == b.spec_height() as int,
                    area == b.spec_width() * b.spec_height(),
                    area <= MAX_DIM * MAX_DIM,
                    b.in_board(start_coord),
                    b.in_board(target_coord),
                    parent_coord != target_coord,
                    cl == self.closed_list@,
                    closed_wf(b, kinds, start_coord, cl),
                    open_wf(b, kinds, target_coord, cl, self.open_list@),
                    cl.len() <= area,
                    cl.last().coord == parent_coord,
                    cl.last().move_cost == parent_move_cost,
                    parent_move_cost <= cl.len() - 1,
                    contains_coord(cl, target_coord) ==> parent_coord == target_coord,
                    neighbours@ == nb,
                    nb == crate::board::in_board_filter(
                        crate::direction::neighbours_from(parent_coord, Direction::Left, 4),
                        w,
                        h,
                    ),
                    k <= nb.len(),
                    forall|c: UCoord2, j: int|
                        0 <= j < cl.len() - 1 && #[trigger] adjacent(cl[j].coord, c)
                            && traversable(b, kinds, c) ==> settled_or_frontier(
                            cl,
                            self.open_list@,
                            c,
                        ),
                    forall|j: int|
                        0 <= j < k && traversable(b, kinds, #[trigger] nb[j])
                            ==> settled_or_frontier(cl, self.open_list@, nb[j]),
                    forall|j: int, p: Seq<UCoord2>|
                        #![trigger cl[j], walk_ok(b, kinds, start_coord, p)]
                        0 <= j < cl.len() && walk_ok(b, kinds, start_coord, p) && p.len() > 0
                            && p.last() == cl[j].coord ==> cl[j].move_cost <= p.len(),
                    forall|i: int, j: int|
                        #![trigger self.open_list@[i], cl[j]]
                        0 <= i < self.open_list@.len() && 0 <= j < cl.len() - 1 && adjacent(
                            cl[j].coord,
                            self.open_list@[i].coord,
                        ) ==> self.open_list@[i].move_cost <= cl[j].move_cost + 1,
                    // a relaxed neighbour of the cell being expanded is one
                    // move dearer than it at most
                    forall|i: int, j: int|
                        #![trigger self.open_list@[i], nb[j]]
                        0 <= i < self.open_list@.len() && 0 <= j < k && self.open_list@[i].coord
                            == nb[j] ==> self.open_list@[i].move_cost <= parent_move_cost + 1,
                decreases nb.len() - k,
            {
                let c = neighbours[k];
                proof {
                    crate::board::lemma_wf_bounds(board);
                    assert(nb[k as int] == c);
                    assert(nb.contains(c));
                    crate::board::lemma_neighbour_list_members(
                        parent_coord,
                        Direction::Left,
                        w,
                        h,
                        c,
                    );
                    assert(adjacent(parent_coord, c) && b.in_board(c));
                }
                let content = board.get_content(&c);
                let walk = content_in(walkable_content, content);
                let in_closed = find_coord(&self.closed_list, c).is_some();
                let ghost op0 = self.open_list@;
                if walk && !in_closed {
                    proof {
                        // the Manhattan estimate of two in-board cells fits
                        assert(manhattan(c, target_coord) <= w + h);
                    }
                    let hx = self.heuristic(c, target_coord);
                    let n = Node::new(c, self.node_move_cost(parent_move_cost), hx, parent_coord);
                    proof {
                        assert(open_node_ok(b, kinds, target_coord, cl, n)) by {
                            assert(cl[cl.len() - 1].coord == n.parent_coord && cl[cl.len()
                                - 1].move_cost + 1 == n.move_cost);
                        }
                    }
                    match find_coord(&self.open_list, c) {
                        Some(oi) => {
                            let existing = self.open_list[oi];
                            if existing.move_cost > n.move_cost {
                                self.open_list.set(oi, n);
                                proof {
                                    assert forall|i2: int|
                                        0 <= i2 < self.open_list@.len() implies open_node_ok(
                                        b,
                                        kinds,
                                        target_coord,
                                        cl,
                                        #[trigger] self.open_list@[i2],
                                    ) by {
                                        if i2 != oi {
                                            assert(self.open_list@[i2] == op0[i2]);
                                        }
                                    }
                                    assert(no_dup_coords(self.open_list@)) by {
                                        assert forall|i2: int, j2: int|
                                            0 <= i2 < j2 < self.open_list@.len() implies (
                                        #[trigger] self.open_list@[i2]).coord != (
                                        #[trigger] self.open_list@[j2]).coord by {
                                            assert(self.open_list@[i2].coord == op0[i2].coord);
                                            assert(self.open_list@[j2].coord == op0[j2].coord);
                                        }
                                    }
                                    // lowering one cost breaks no bound
                                    assert forall|i2: int|
                                        0 <= i2 < self.open_list@.len() && (
                                    #[trigger] self.open_list@[i2]).coord == c implies
                                        self.open_list@[i2].move_cost <= parent_move_cost + 1 by {
                                        if i2 != oi {
                                            assert(self.open_list@[i2].coord == op0[i2].coord);
                                            assert(op0[oi as int].coord == c);
                                            assert(false);
                                        }
                                    }
                                    assert forall|i2: int, j: int|
                                        0 <= i2 < self.open_list@.len() && 0 <= j < cl.len() - 1
                                            && adjacent(
                                            (#[trigger] cl[j]).coord,
                                            (#[trigger] self.open_list@[i2]).coord,
                                        ) implies self.open_list@[i2].move_cost <= cl[j].move_cost
                                        + 1 by {
                                        if i2 == oi {
                                            assert(op0[i2] == existing);
                                            assert(existing.move_cost <= cl[j].move_cost + 1);
                                            assert(n.move_cost < existing.move_cost);
                                        } else {
                                            assert(self.open_list@[i2] == op0[i2]);
                                        }
                                    }
                                    assert forall|i2: int, j: int|
                                        0 <= i2 < self.open_list@.len() && 0 <= j < k && (
                                    #[trigger] self.open_list@[i2]).coord == (#[trigger] nb[j])
                                        implies self.open_list@[i2].move_cost <= parent_move_cost
                                        + 1 by {
                                        if i2 != oi {
                                            assert(self.open_list@[i2] == op0[i2]);
                                        }
                                    }
                                }
                            } else {
                                proof {
                                    // the listed cost was already at most one
                                    // move beyond the cell being expanded
                                    assert(op0[oi as int] == existing);
                                    assert forall|i2: int|
                                        0 <= i2 < self.open_list@.len() && (
                                    #[trigger] self.open_list@[i2]).coord == c implies
                                        self.open_list@[i2].move_cost <= parent_move_cost + 1 by {
                                        if i2 != oi {
                                            assert(self.open_list@[i2].coord == op0[i2].coord);
                                            assert(op0[oi as int].coord == c);
                                            assert(false);
                                        }
                                    }
                                }
                            }
                            proof {
                                assert(contains_coord(self.open_list@, c)) by {
                                    assert(self.open_list@[oi as int].coord == c);
                                }
                            }
                        },
                        None => {
                            self.open_list.push(n);
                            proof {
                                assert forall|i2: int|
                                    0 <= i2 < self.open_list@.len() implies open_node_ok(
                                    b,
                                    kinds,
                                    target_coord,
                                    cl,
                                    #[trigger] self.open_list@[i2],
                                ) by {
                                    if i2 < op0.len() {
                                        assert(self.open_list@[i2] == op0[i2]);
                                    }
                                }
                                assert(no_dup_coords(self.open_list@)) by {
                                    assert forall|i2: int, j2: int|
                                        0 <= i2 < j2 < self.open_list@.len() implies (
                                    #[trigger] self.open_list@[i2]).coord != (
                                    #[trigger] self.open_list@[j2]).coord by {
                                        if j2 < op0.len() {
                                            assert(self.open_list@[i2] == op0[i2]);
                                            assert(self.open_list@[j2] == op0[j2]);
                                        } else {
                                            assert(self.open_list@[j2] == n);
                                            assert(self.open_list@[i2] == op0[i2]);
                                            assert(!contains_coord(op0, c));
                                        }
                                    }
                                }
                                assert(contains_coord(self.open_list@, c)) by {
                                    assert(self.open_list@[op0.len() as int].coord == c);
                                }
                                assert forall|i2: int|
                                    0 <= i2 < self.open_list@.len() && (
                                #[trigger] self.open_list@[i2]).coord == c implies
                                    self.open_list@[i2].move_cost <= parent_move_cost + 1 by {
                                    if i2 < op0.len() {
                                        assert(op0[i2].coord == c);
                                        assert(contains_coord(op0, c));
                                        assert(false);
                                    }
                                }
                                assert forall|i2: int, j: int|
                                    0 <= i2 < self.open_list@.len() && 0 <= j < cl.len() - 1
                                        && adjacent(
                                        (#[trigger] cl[j]).coord,
                                        (#[trigger] self.open_list@[i2]).coord,
                                    ) implies self.open_list@[i2].move_cost <= cl[j].move_cost
                                    + 1 by {
                                    if i2 < op0.len() {
                                        assert(self.open_list@[i2] == op0[i2]);
                                    } else {
                                        // a fresh cell adjacent to an already
                                        // expanded settled cell would already
                                        // be settled or on the frontier
                                        assert(self.open_list@[i2] == n);
                                        assert(traversable(b, kinds, c));
                                        assert(settled_or_frontier(cl, op0, c));
                                        assert(!contains_coord(op0, c));
                                        assert(false);
                                    }
                                }
                                assert forall|i2: int, j: int|
                                    0 <= i2 < self.open_list@.len() && 0 <= j < k && (
                                #[trigger] self.open_list@[i2]).coord == (#[trigger] nb[j])
                                    implies self.open_list@[i2].move_cost <= parent_move_cost
                                    + 1 by {
                                    if i2 < op0.len() {
                                        assert(self.open_list@[i2] == op0[i2]);
                                    }
                                }
                            }
                        },
                    }
                }
                k += 1;
                proof {
                    // membership in the frontier only grows in this pass
                    assert forall|cc: UCoord2|
                        contains_coord(op0, cc) implies contains_coord(
                        self.open_list@,
                        cc,
                    ) by {
                        let i2 = choose|i2: int|
                            0 <= i2 < op0.len() && (#[trigger] op0[i2]).coord == cc;
                        assert(self.open_list@[i2].coord == cc);
                    }
                    // the just-examined neighbour, if traversable, is now
                    // settled or on the frontier, and earlier ones stay so
                    assert forall|j: int|
                        0 <= j < k && traversable(b, kinds, #[trigger] nb[j]) implies
                        settled_or_frontier(cl, self.open_list@, nb[j]) by {
                        if j < k - 1 {
                            assert(settled_or_frontier(cl, op0, nb[j]));
                        } else {
                            assert(nb[j] == c);
                            if !contains_coord(cl, c) {
                                assert(walk);
                                assert(contains_coord(self.open_list@, c));
                            }
                        }
                    }
                    assert forall|c2: UCoord2, j: int|
                        0 <= j < cl.len() - 1 && #[trigger] adjacent(cl[j].coord, c2)
                            && traversable(b, kinds, c2) implies settled_or_frontier(
                        cl,
                        self.open_list@,
                        c2,
                    ) by {
                        assert(settled_or_frontier(cl, op0, c2));
                    }
                    // costs at every examined neighbour are settled within
                    // one move of the cell being expanded
                    assert forall|i2: int, j: int|
                        0 <= i2 < self.open_list@.len() && 0 <= j < k && (
                    #[trigger] self.open_list@[i2]).coord == (#[trigger] nb[j]) implies
                        self.open_list@[i2].move_cost <= parent_move_cost + 1 by {
                        if j == k - 1 {
                            assert(nb[j] == c);
                            if !(walk && !in_closed) {
                                assert(open_node_ok(
                                    b,
                                    kinds,
                                    target_coord,
                                    cl,
                                    self.open_list@[i2],
                                ));
                                if !walk {
                                    assert(kinds.contains(b.cell(c)));
                                    assert(false);
                                } else {
                                    assert(contains_coord(cl, c));
                                    assert(false);
                                }
                            }
                        }
                    }
                }
            }
            // an empty frontier proves no further cell can be reached
            if self.open_list.len() == 0 {
                proof {
                    assert(start_coord != target_coord) by {
                        if start_coord == target_coord {
                            assert(cl[0].coord == target_coord);
                            assert(contains_coord(cl, target_coord));
                        }
                    }
                    // with no frontier left, the settled cells are closed
                    // under traversable adjacency: no route leaves them
                    assert forall|c2: UCoord2, j: int|
                        0 <= j < cl.len() && #[trigger] adjacent(cl[j].coord, c2) && traversable(
                            b,
                            kinds,
                            c2,
                        ) implies contains_coord(cl, c2) by {
                        if j < cl.len() - 1 {
                            assert(settled_or_frontier(cl, self.open_list@, c2));
                        } else {
                            assert(cl[j].coord == parent_coord);
                            crate::board::lemma_neighbour_list_members(
                                parent_coord,
                                Direction::Left,
                                w,
                                h,
                                c2,
                            );
                            assert(nb.contains(c2));
                            let jj = choose|jj: int| 0 <= jj < nb.len() && nb[jj] == c2;
                            assert(settled_or_frontier(cl, self.open_list@, nb[jj]));
                        }
                    }
                    assert(!contains_coord(cl, target_coord));
                    assert forall|p: Seq<UCoord2>|
                        !path_ok(b, start_coord, target_coord, kinds, p) by {
                        if path_ok(b, start_coord, target_coord, kinds, p) {
                            assert(p.len() > 0);
                            lemma_path_stays_settled(b, kinds, cl, start_coord, p, p.len() - 1);
                            assert(contains_coord(cl, p[p.len() - 1]));
                            assert(p[p.len() - 1] == target_coord);
                        }
                    }
                    // in particular an adjacent traversable target would be
                    // a one-step route, so none exists here
                    if adjacent(start_coord, target_coord) && kinds.contains(
                        b.cell(target_coord),
                    ) {
                        let p = seq![target_coord];
                        assert(p.last() == target_coord && p[0] == target_coord);
                        assert(p.no_duplicates());
                        assert(!p.contains(start_coord)) by {
                            if p.contains(start_coord) {
                                let ii = choose|ii: int|
                                    0 <= ii < p.len() && (#[trigger] p[ii]) == start_coord;
                                assert(p[0] == start_coord);
                            }
                        }
                        assert(path_ok(b, start_coord, target_coord, kinds, p));
                        assert(false);
                    }
                }
                return None;
            }
            proof {
                assert forall|i2: int|
                    0 <= i2 < self.open_list@.len() implies (#[trigger] self.open_list@[i2]).move_cost
                    + self.open_list@[i2].heuristic <= usize::MAX by {
                    assert(open_node_ok(b, kinds, target_coord, cl, self.open_list@[i2]));
                }
            }
            let min_idx = find_min_cost(&self.open_list);
            let ghost op1 = self.open_list@;
            proof {
                // with the expansion done, frontier costs now respect every
                // settled neighbour, the freshly expanded one included
                assert forall|i2: int, j: int|
                    0 <= i2 < op1.len() && 0 <= j < cl.len() && adjacent(
                        (#[trigger] cl[j]).coord,
                        (#[trigger] op1[i2]).coord,
                    ) implies op1[i2].move_cost <= cl[j].move_cost + 1 by {
                    if j == cl.len() - 1 {
                        let cc = op1[i2].coord;
                        crate::board::lemma_neighbour_list_members(
                            parent_coord,
                            Direction::Left,
                            w,
                            h,
                            cc,
                        );
                        assert(open_node_ok(b, kinds, target_coord, cl, op1[i2]));
                        assert(nb.contains(cc));
                        let j2 = choose|j2: int| 0 <= j2 < nb.len() && (#[trigger] nb[j2]) == cc;
                        assert(op1[i2].move_cost <= parent_move_cost + 1);
                    }
                }
                // and every traversable cell adjacent to any settled cell is
                // settled or on the frontier
                assert forall|c2: UCoord2, j: int|
                    0 <= j < cl.len() && #[trigger] adjacent(cl[j].coord, c2) && traversable(
                        b,
                        kinds,
                        c2,
                    ) implies settled_or_frontier(cl, op1, c2) by {
                    if j == cl.len() - 1 {
                        crate::board::lemma_neighbour_list_members(
                            parent_coord,
                            Direction::Left,
                            w,
                            h,
                            c2,
                        );
                        assert(nb.contains(c2));
                        let j2 = choose|j2: int| 0 <= j2 < nb.len() && (#[trigger] nb[j2]) == c2;
                        assert(settled_or_frontier(cl, op1, nb[j2]));
                    }
                }
            }
            let cheapest = self.open_list.remove(min_idx);
            proof {
                assert(cheapest == op1[min_idx as int]);
                assert(open_node_ok(b, kinds, target_coord, cl, cheapest));
                assert forall|j: int|
                    0 <= j < self.open_list@.len() implies #[trigger] self.open_list@[j] == (if j
                    < min_idx as int {
                    op1[j]
                } else {
                    op1[j + 1]
                }) by {}
            }
            parent_coord = cheapest.coord;
            parent_move_cost = cheapest.move_cost;
            self.closed_list.push(cheapest);
            proof {
                let cl2 = self.closed_list@;
                assert(cl2 == cl.push(cheapest));
                assert(cl2.last() == cheapest);
                // the settled list stays well formed with the new node linked
                assert forall|i2: int| 1 <= i2 < cl2.len() implies #[trigger] node_linked(
                    b,
                    kinds,
                    cl2,
                    i2,
                ) by {
                    if i2 < cl.len() {
                        assert(node_linked(b, kinds, cl, i2));
                        let j = choose|j: int|
                            0 <= j < i2 && (#[trigger] cl[j]).coord == cl[i2].parent_coord && cl[
                                j
                            ].move_cost + 1 == cl[i2].move_cost;
                        assert(cl2[j] == cl[j]);
                        assert(cl2[i2] == cl[i2]);
                    } else {
                        let j = choose|j: int|
                            0 <= j < cl.len() && (#[trigger] cl[j]).coord == cheapest.parent_coord
                                && cl[j].move_cost + 1 == cheapest.move_cost;
                        assert(cl2[j] == cl[j]);
                    }
                }
                assert(no_dup_coords(cl2)) by {
                    assert forall|i2: int, j2: int|
                        0 <= i2 < j2 < cl2.len() implies (#[trigger] cl2[i2]).coord != (
                    #[trigger] cl2[j2]).coord by {
                        if j2 < cl.len() {
                            assert(cl2[i2] == cl[i2] && cl2[j2] == cl[j2]);
                        } else {
                            assert(cl2[i2] == cl[i2]);
                            assert(cl2[j2] == cheapest);
                            assert(!contains_coord(cl, cheapest.coord));
                        }
                    }
                }
                assert(forall|i2: int|
                    0 <= i2 < cl2.len() ==> b.in_board((#[trigger] cl2[i2]).coord));
                assert(closed_wf(b, kinds, start_coord, cl2));
                lemma_unique_nodes_bound(b, cl2);
                // the remaining frontier is still well formed against the
                // grown settled list
                assert forall|i2: int|
                    0 <= i2 < self.open_list@.len() implies open_node_ok(
                    b,
                    kinds,
                    target_coord,
                    cl2,
                    #[trigger] self.open_list@[i2],
                ) by {
                    let nn = self.open_list@[i2];
                    let oi = if i2 < min_idx as int {
                        i2
                    } else {
                        i2 + 1
                    };
                    assert(nn == op1[oi]);
                    assert(open_node_ok(b, kinds, target_coord, cl, nn));
                    assert(nn.coord != cheapest.coord) by {
                        if oi < min_idx as int {
                            assert(op1[oi].coord != op1[min_idx as int].coord);
                        } else {
                            assert(op1[min_idx as int].coord != op1[oi].coord);
                        }
                    }
                    assert(!contains_coord(cl2, nn.coord)) by {
                        if contains_coord(cl2, nn.coord) {
                            let j = choose|j: int|
                                0 <= j < cl2.len() && (#[trigger] cl2[j]).coord == nn.coord;
                            if j < cl.len() {
                                assert(cl[j] == cl2[j]);
                                assert(contains_coord(cl, nn.coord));
                                assert(false);
                            } else {
                                assert(cl2[j] == cheapest);
                                assert(false);
                            }
                        }
                    }
                    let j = choose|j: int|
                        0 <= j < cl.len() && (#[trigger] cl[j]).coord == nn.parent_coord && cl[
                            j
                        ].move_cost + 1 == nn.move_cost;
                    assert(cl2[j] == cl[j]);
                }
                assert(no_dup_coords(self.open_list@)) by {
                    assert forall|i2: int, j2: int|
                        0 <= i2 < j2 < self.open_list@.len() implies (
                    #[trigger] self.open_list@[i2]).coord != (#[trigger] self.open_list@[j2]).coord
                        by {
                        let oi = if i2 < min_idx as int {
                            i2
                        } else {
                            i2 + 1
                        };
                        let oj = if j2 < min_idx as int {
                            j2
                        } else {
                            j2 + 1
                        };
                        assert(self.open_list@[i2] == op1[oi]);
                        assert(self.open_list@[j2] == op1[oj]);
                        assert(op1[oi].coord != op1[oj].coord);
                    }
                }
                // what was settled or on the frontier remains so
                assert forall|cc: UCoord2|
                    settled_or_frontier(cl, op1, cc) implies settled_or_frontier(
                    cl2,
                    self.open_list@,
                    cc,
                ) by {
                    if contains_coord(cl, cc) {
                        let t = choose|t: int| 0 <= t < cl.len() && (#[trigger] cl[t]).coord == cc;
                        assert(cl2[t] == cl[t]);
                    } else {
                        let t = choose|t: int|
                            0 <= t < op1.len() && (#[trigger] op1[t]).coord == cc;
                        if t == min_idx as int {
                            assert(cl2.last().coord == cc);
                        } else if t < min_idx as int {
                            assert(self.open_list@[t].coord == cc);
                        } else {
                            assert(self.open_list@[t - 1] == op1[t]);
                        }
                    }
                }
                // the closure property carries over to the grown settled list
                assert forall|c2: UCoord2, j: int|
                    0 <= j < cl2.len() - 1 && #[trigger] adjacent(cl2[j].coord, c2) && traversable(
                        b,
                        kinds,
                        c2,
                    ) implies settled_or_frontier(cl2, self.open_list@, c2) by {
                    assert(cl2[j] == cl[j]);
                    if j < cl.len() - 1 {
                        assert(settled_or_frontier(cl, op1, c2));
                    } else {
                        crate::board::lemma_neighbour_list_members(
                            cl[j].coord,
                            Direction::Left,
                            w,
                            h,
                            c2,
                        );
                        assert(nb.contains(c2));
                        let jj = choose|jj: int| 0 <= jj < nb.len() && nb[jj] == c2;
                        assert(settled_or_frontier(cl, op1, nb[jj]));
                    }
                }
                // the newly settled cost undercuts every walk onto its
                // cell: such a walk leaves the old settled set at a first
                // cell, which sits on the frontier within one move of its
                // settled predecessor; the minimum selection together with
                // the Manhattan estimate's consistency carries the bound
                // over to the popped node
                assert forall|j: int, p: Seq<UCoord2>|
                    #![trigger cl2[j], walk_ok(b, kinds, start_coord, p)]
                    0 <= j < cl2.len() && walk_ok(b, kinds, start_coord, p) && p.len() > 0
                        && p.last() == cl2[j].coord implies cl2[j].move_cost <= p.len() by {
                    if j < cl.len() {
                        assert(cl2[j] == cl[j]);
                        assert(cl[j].move_cost <= p.len());
                    } else {
                        assert(cl2[j] == cheapest);
                        let z = cheapest.coord;
                        assert(!contains_coord(cl, z));
                        assert(p[p.len() - 1] == z);
                        lemma_first_exit(cl, p, p.len() - 1);
                        let i0 = choose|i0: int|
                            0 <= i0 <= p.len() - 1 && !contains_coord(cl, #[trigger] p[i0]) && (
                            forall|j2: int| 0 <= j2 < i0 ==> contains_coord(cl, #[trigger] p[j2]));
                        assert(traversable(b, kinds, p[i0]));
                        let jp: int = if i0 == 0 {
                            0
                        } else {
                            choose|jp: int|
                                0 <= jp < cl.len() && (#[trigger] cl[jp]).coord == p[i0 - 1]
                        };
                        if i0 == 0 {
                            assert(adjacent(cl[0].coord, p[0]));
                            assert(cl[0].move_cost == 0);
                        } else {
                            assert(contains_coord(cl, p[i0 - 1]));
                            assert(cl[jp].coord == p[i0 - 1]);
                            assert(adjacent(cl[jp].coord, p[i0]));
                            lemma_walk_prefix(b, kinds, start_coord, p, i0);
                            assert(walk_ok(b, kinds, start_coord, p.take(i0)));
                            assert(p.take(i0).last() == cl[jp].coord);
                            assert(cl[jp].move_cost <= i0);
                        }
                        assert(cl[jp].move_cost <= i0);
                        assert(settled_or_frontier(cl, op1, p[i0]));
                        assert(contains_coord(op1, p[i0]));
                        let ni = choose|ni: int|
                            0 <= ni < op1.len() && (#[trigger] op1[ni]).coord == p[i0];
                        assert(op1[ni].move_cost <= cl[jp].move_cost + 1);
                        assert(op1[ni].move_cost <= i0 + 1);
                        assert(cheapest.move_cost + cheapest.heuristic <= op1[ni].move_cost
                            + op1[ni].heuristic);
                        assert(open_node_ok(b, kinds, target_coord, cl, op1[ni]));
                        assert(cheapest.heuristic == manhattan(z, target_coord));
                        assert(op1[ni].heuristic == manhattan(p[i0], target_coord));
                        lemma_walk_remainder(b, kinds, start_coord, p, i0);
                        assert(manhattan(p[i0], z) <= p.len() - 1 - i0);
                        lemma_manhattan_triangle(p[i0], z, target_coord);
                        assert(cheapest.move_cost <= p.len());
                    }
                }
                // frontier costs still respect every settled neighbour but
                // the new, still unexpanded last one
                assert forall|i2: int, j: int|
                    #![trigger self.open_list@[i2], cl2[j]]
                    0 <= i2 < self.open_list@.len() && 0 <= j < cl2.len() - 1 && adjacent(
                        cl2[j].coord,
                        self.open_list@[i2].coord,
                    ) implies self.open_list@[i2].move_cost <= cl2[j].move_cost + 1 by {
                    let oi = if i2 < min_idx as int {
                        i2
                    } else {
                        i2 + 1
                    };
                    assert(self.open_list@[i2] == op1[oi]);
                    assert(cl2[j] == cl[j]);
                    assert(op1[oi].move_cost <= cl[j].move_cost + 1);
                }
                // a settled target means the walk has arrived
                if contains_coord(cl2, target_coord) && parent_coord != target_coord {
                    let t = choose|t: int|
                        0 <= t < cl2.len() && (#[trigger] cl2[t]).coord == target_coord;
                    if t < cl.len() {
                        assert(cl[t] == cl2[t]);
                        assert(contains_coord(cl, target_coord));
                        assert(false);
                    } else {
                        assert(cl2[t] == cheapest);
                        assert(false);
                    }
                }
            }
        }
        // the target is settled: read the route off the predecessor links
        proof {
            assert(self.closed_list@[0].coord == start_coord);
            assert(contains_coord(self.closed_list@, target_coord)) by {
                assert(self.closed_list@.last().coord == target_coord);
            }
        }
        let path = self.generate_path(board, Ghost(kinds), target_coord);
        proof {
            // the settled cost at the target undercuts every valid route,
            // and the returned route has exactly that cost: it is shortest
            let clf = self.closed_list@;
            assert(clf.last().coord == target_coord);
            assert(path@.len() == clf.last().move_cost);
            assert forall|p: Seq<UCoord2>|
                #[trigger] path_ok(b, start_coord, target_coord, kinds, p) implies path@.len()
                <= p.len() by {
                if start_coord == target_coord {
                    assert(p.len() == 0);
                    if clf.len() > 1 {
                        assert(clf[0].coord != clf[clf.len() - 1].coord);
                    }
                    assert(clf.last().move_cost == 0);
                } else {
                    assert(p.len() > 0 && p.last() == target_coord);
                    assert(walk_ok(b, kinds, start_coord, p));
                    assert(clf[clf.len() - 1].move_cost <= p.len());
                }
            }
        }
        Some(path)
    }

    /// Walks the predecessor links back from `target_coord` and returns the
    /// settled route in start-to-target order, the origin excluded.
    fn generate_path(&self, board: &Board, Ghost(kinds): Ghost<Seq<Content>>, target_coord: UCoord2) -> (r: Vec<UCoord2>)
        requires
            closed_wf(*board, kinds, self.closed_list@[0].coord, self.closed_list@),
            contains_coord(self.closed_list@, target_coord),
        ensures
            path_ok(*board, self.closed_list@[0].coord, target_coord, kinds, r@),
            forall|i: int|
                0 <= i < self.closed_list@.len() && (#[trigger] self.closed_list@[i]).coord
                    == target_coord ==> r@.len() == self.closed_list@[i].move_cost,
    {
        let ghost cl = self.closed_list@;
        let ghost start = cl[0].coord;
        let idx = match find_coord(&self.closed_list, target_coord) {
            Some(i) => i,
            None => {
                proof {
                    assert(false);
                }
                0
            },
        };
        let mut node = self.closed_list[idx];
        proof {
            assert(cl[idx as int] == node);
        }
        if node.parent_coord.x == node.coord.x && node.parent_coord.y == node.coord.y {
            // its own predecessor: this is the origin, so start and target coincide
            proof {
                if idx != 0 {
                    assert(node_linked(*board, kinds, cl, idx as int));
                    assert(false);
                }
                assert forall|i2: int|
                    0 <= i2 < cl.len() && (#[trigger] cl[i2]).coord == target_coord implies cl[
                    i2
                ].move_cost == 0 by {
                    if i2 != 0 {
                        assert(cl[0].coord != cl[i2].coord);
                    }
                }
            }
            let r: Vec<UCoord2> = Vec::new();
            return r;
        }
        proof {
            // the target is not the origin, or it would be its own predecessor
            if idx == 0 {
                assert(false);
            }
            assert(start != target_coord) by {
                if start == target_coord {
                    assert(cl[0].coord == cl[idx as int].coord);
                    assert(false);
                }
            }
        }
        let ghost tmc = cl[idx as int].move_cost;
        let mut rev: Vec<UCoord2> = Vec::new();
        while node.parent_coord.x != node.coord.x || node.parent_coord.y != node.coord.y
            invariant
                closed_wf(*board, kinds, start, cl),
                cl == self.closed_list@,
                start == cl[0].coord,
                start != target_coord,
                exists|i: int| 0 <= i < cl.len() && #[trigger] cl[i] == node,
                rev@.len() == 0 ==> node.coord == target_coord,
                rev@.len() > 0 ==> rev@[0] == target_coord,
                rev@.len() > 0 ==> adjacent(node.coord, rev@[rev@.len() - 1]),
                forall|k: int|
                    0 <= k < rev@.len() ==> board.in_board(#[trigger] rev@[k]) && kinds.contains(
                        board.cell(rev@[k]),
                    ),
                forall|k: int| 0 <= k < rev@.len() - 1 ==> adjacent(#[trigger] rev@[k + 1], rev@[k]),
                node.move_cost + rev@.len() == tmc,
                forall|k: int|
                    #![trigger rev@[k]]
                    0 <= k < rev@.len() ==> (exists|i2: int|
                        0 <= i2 < cl.len() && (#[trigger] cl[i2]).coord == rev@[k]
                            && cl[i2].move_cost == tmc - k),
            decreases node.move_cost,
        {
            let ghost i = choose|i: int| 0 <= i < cl.len() && #[trigger] cl[i] == node;
            proof {
                if i == 0 {
                    assert(false);
                }
                assert(node_linked(*board, kinds, cl, i));
                assert(cl[i].coord == node.coord && cl[i].move_cost == tmc - rev@.len());
            }
            rev.push(node.coord);
            let pidx = match find_coord(&self.closed_list, node.parent_coord) {
                Some(p) => p,
                None => {
                    proof {
                        let j = choose|j: int|
                            0 <= j < i && (#[trigger] cl[j]).coord == cl[i].parent_coord
                                && cl[j].move_cost + 1 == cl[i].move_cost;
                        assert(contains_coord(cl, node.parent_coord));
                        assert(false);
                    }
                    0
                },
            };
            let next = self.closed_list[pidx];
            proof {
                let j = choose|j: int|
                    0 <= j < i && (#[trigger] cl[j]).coord == cl[i].parent_coord
                        && cl[j].move_cost + 1 == cl[i].move_cost;
                // the settled list holds one node per cell, so the lookup
                // found exactly the linked predecessor
                assert(cl[pidx as int] == next);
                if pidx as int != j {
                    assert(cl[pidx as int].coord == cl[j].coord);
                    assert(false);
                }
                assert(next.move_cost + 1 == node.move_cost);
                assert(adjacent(next.coord, rev@[rev@.len() - 1]));
            }
            node = next;
        }
        proof {
            // the walk ended on the origin
            let i = choose|i: int| 0 <= i < cl.len() && #[trigger] cl[i] == node;
            if i != 0 {
                assert(node_linked(*board, kinds, cl, i));
                assert(false);
            }
            assert(node.coord == start);
            assert(rev@.len() > 0);
            assert(node.move_cost == 0);
            assert(rev@.len() == tmc);
            // the settled costs fall by exactly one per step, so no cell
            // repeats and the origin is never among the steps
            assert forall|k1: int, k2: int|
                0 <= k1 < rev@.len() && 0 <= k2 < rev@.len() && k1 != k2 implies rev@[k1]
                != rev@[k2] by {
                if rev@[k1] == rev@[k2] {
                    let i1 = choose|i1: int|
                        0 <= i1 < cl.len() && (#[trigger] cl[i1]).coord == rev@[k1]
                            && cl[i1].move_cost == tmc - k1;
                    let i2 = choose|i2: int|
                        0 <= i2 < cl.len() && (#[trigger] cl[i2]).coord == rev@[k2]
                            && cl[i2].move_cost == tmc - k2;
                    if i1 < i2 {
                        assert(cl[i1].coord != cl[i2].coord);
                    } else if i2 < i1 {
                        assert(cl[i2].coord != cl[i1].coord);
                    }
                    assert(false);
                }
            }
            assert(!rev@.contains(start)) by {
                if rev@.contains(start) {
                    let k0 = choose|k0: int| 0 <= k0 < rev@.len() && (#[trigger] rev@[k0]) == start;
                    let i0 = choose|i0: int|
                        0 <= i0 < cl.len() && (#[trigger] cl[i0]).coord == rev@[k0]
                            && cl[i0].move_cost == tmc - k0;
                    if i0 != 0 {
                        assert(cl[0].coord != cl[i0].coord);
                    }
                    assert(false);
                }
            }
        }
        let mut path: Vec<UCoord2> = Vec::new();
        let mut k = rev.len();
        while k > 0
            invariant
                k <= rev@.len(),
                path@.len() == rev@.len() - k,
                forall|j: int|
                    0 <= j < path@.len() ==> #[trigger] path@[j] == rev@[rev@.len() - 1 - j],
            decreases k,
        {
            k -= 1;
            path.push(rev[k]);
        }
        proof {
            let p = path@;
            let n = rev@.len() as int;
            assert(p.len() == n);
            assert(p[n - 1] == rev@[0]);
            assert(p.last() == target_coord);
            assert(adjacent(start, p[0]));
            assert forall|i2: int| 0 <= i2 < p.len() - 1 implies adjacent(
                #[trigger] p[i2],
                p[i2 + 1],
            ) by {
                assert(p[i2] == rev@[n - 1 - i2]);
                assert(p[i2 + 1] == rev@[n - 2 - i2]);
                assert(adjacent(rev@[(n - 2 - i2) + 1], rev@[n - 2 - i2]));
            }
            // reversal keeps the steps distinct and the origin out
            assert forall|j1: int, j2: int|
                0 <= j1 < p.len() && 0 <= j2 < p.len() && j1 != j2 implies #[trigger] p[j1]
                != #[trigger] p[j2] by {
                assert(p[j1] == rev@[n - 1 - j1]);
                assert(p[j2] == rev@[n - 1 - j2]);
            }
            assert(p.no_duplicates());
            assert(!p.contains(start)) by {
                if p.contains(start) {
                    let j0 = choose|j0: int| 0 <= j0 < p.len() && (#[trigger] p[j0]) == start;
                    assert(rev@[n - 1 - j0] == start);
                    assert(rev@.contains(start));
                }
            }
            // the route is exactly as long as the target's settled cost
            assert(p.len() == tmc);
            assert forall|i2: int|
                0 <= i2 < cl.len() && (#[trigger] cl[i2]).coord == target_coord implies p.len()
                == cl[i2].move_cost by {
                if i2 < idx as int {
                    assert(cl[i2].coord != cl[idx as int].coord);
                } else if i2 > idx as int {
                    assert(cl[idx as int].coord != cl[i2].coord);
                }
            }
        }
        path
    }
}

} // verus!
