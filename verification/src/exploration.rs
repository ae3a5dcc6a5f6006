use vstd::prelude::*;

use crate::board::{Board, Content, MAX_DIM};
use crate::direction::{adjacent, Direction};
use crate::vect2_t::UCoord2;

verus! {

/// What the exploration remembers about a cell it has handled: `Covered`
/// (visited, not to be revisited) or `BadWay` (proven to lead nowhere).
#[derive(Debug, Clone, Copy, PartialEq, Eq, Structural)]
pub enum SquareState {
    BadWay,
    Covered,
}

/// What one exploration pass concluded: the target was reached, the branch
/// still looks viable, or the branch is proven dead.
#[derive(Debug, Clone, Copy, PartialEq, Eq, Structural)]
pub enum SearchResult {
    GoodWay,
    BadWay,
    TargetFound,
}

/// The mark a cell carries in an association list; a later entry for the
/// same cell wins.
pub open spec fn mark_of(s: Seq<(UCoord2, SquareState)>, c: UCoord2) -> Option<SquareState>
    decreases s.len(),
{
    if s.len() == 0 {
        None
    } else if s.last().0 == c {
        Some(s.last().1)
    } else {
        mark_of(s.drop_last(), c)
    }
}

/// A descending step sequence rooted at `from`: the last element is one
/// step from `from` on an empty in-board cell, and the rest chains on from
/// there. The empty sequence is a chain.
pub open spec fn chain_to(b: Board, from: UCoord2, s: Seq<UCoord2>) -> bool
    decreases s.len(),
{
    s.len() == 0 || {
        &&& adjacent(from, s.last())
        &&& b.in_board(s.last())
        &&& b.cell(s.last()) == Content::Empty
        &&& chain_to(b, s.last(), s.drop_last())
    }
}

/// Squared Euclidean distance between two cells, the key that orders
/// candidate moves when a target is known.
pub open spec fn dist2(t: UCoord2, c: UCoord2) -> int {
    (t.x - c.x) * (t.x - c.x) + (t.y - c.y) * (t.y - c.y)
}

/// Squared Euclidean distance of two nearby cells, computed without
/// overflow.
fn dist2_exec(t: UCoord2, c: UCoord2) -> (r: i32)
    requires
        t.x <= MAX_DIM,
        t.y <= MAX_DIM,
        c.x <= MAX_DIM,
        c.y <= MAX_DIM,
    ensures
        r == dist2(t, c),
{
    proof {
        let dx = t.x - c.x;
        let dy = t.y - c.y;
        assert(dx * dx + dy * dy <= 2 * (MAX_DIM as int) * (MAX_DIM as int) && dx * dx >= 0 && dy
            * dy >= 0) by (nonlinear_arith)
            requires
                -(MAX_DIM as int) <= dx <= MAX_DIM as int,
                -(MAX_DIM as int) <= dy <= MAX_DIM as int,
        ;
    }
    let d = t.sub(c);
    d.length2()
}

/// Reorders `v` by ascending squared distance to `t` (insertion sort): the
/// result holds exactly the members of `v`, sorted.
fn sort_by_dist(v: Vec<UCoord2>, t: UCoord2) -> (r: Vec<UCoord2>)
    requires
        t.x <= MAX_DIM,
        t.y <= MAX_DIM,
        forall|i: int|
            0 <= i < v@.len() ==> (#[trigger] v@[i]).x <= MAX_DIM && v@[i].y <= MAX_DIM,
    ensures
        r@.len() == v@.len(),
        forall|c: UCoord2| r@.contains(c) <==> v@.contains(c),
        forall|i: int, j: int| 0 <= i < j < r@.len() ==> dist2(t, r@[i]) <= dist2(t, r@[j]),
        forall|i: int|
            0 <= i < r@.len() ==> (#[trigger] r@[i]).x <= MAX_DIM && r@[i].y <= MAX_DIM,
{
    broadcast use vstd::seq_lib::lemma_seq_contains_after_push;

    let mut r: Vec<UCoord2> = Vec::new();
    let mut i: usize = 0;
    proof {
        assert(v@.take(0) =~= Seq::<UCoord2>::empty());
    }
    while i < v.len()
        invariant
            i <= v@.len(),
            r@.len() == i,
            t.x <= MAX_DIM,
            t.y <= MAX_DIM,
            forall|k: int|
                0 <= k < v@.len() ==> (#[trigger] v@[k]).x <= MAX_DIM && v@[k].y <= MAX_DIM,
            forall|c: UCoord2| r@.contains(c) <==> v@.take(i as int).contains(c),
            forall|i2: int, j2: int|
                0 <= i2 < j2 < r@.len() ==> dist2(t, r@[i2]) <= dist2(t, r@[j2]),
            forall|k: int| 0 <= k < r@.len() ==> (#[trigger] r@[k]).x <= MAX_DIM && r@[k].y
                <= MAX_DIM,
        decreases v@.len() - i,
    {
        let c = v[i];
        let dc = dist2_exec(t, c);
        let mut j: usize = 0;
        while j < r.len() && dist2_exec(t, r[j]) <= dc
            invariant
                j <= r@.len(),
                t.x <= MAX_DIM,
                t.y <= MAX_DIM,
                dc == dist2(t, c),
                forall|k: int| 0 <= k < r@.len() ==> (#[trigger] r@[k]).x <= MAX_DIM && r@[k].y
                    <= MAX_DIM,
                forall|i2: int, j2: int|
                    0 <= i2 < j2 < r@.len() ==> dist2(t, r@[i2]) <= dist2(t, r@[j2]),
                forall|k: int| 0 <= k < j ==> dist2(t, r@[k]) <= dc,
            decreases r@.len() - j,
        {
            j += 1;
        }
        let ghost r0 = r@;
        r.insert(j, c);
        proof {
            assert forall|k: int| 0 <= k < r@.len() implies #[trigger] r@[k] == (if k < j as int {
                r0[k]
            } else if k == j as int {
                c
            } else {
                r0[k - 1]
            }) by {}
            assert forall|i2: int, j2: int|
                0 <= i2 < j2 < r@.len() implies dist2(t, r@[i2]) <= dist2(t, r@[j2]) by {
                if i2 < j as int && j2 == j as int {
                    assert(dist2(t, r0[i2]) <= dc);
                } else if i2 == j as int && j2 > j as int {
                    assert(j < r0.len());
                    assert(dist2(t, r0[j as int]) > dc);
                    assert(dist2(t, r0[j as int]) <= dist2(t, r0[j2 - 1]) || j as int == j2 - 1);
                }
            }
            assert forall|cc: UCoord2| (#[trigger] r@.contains(cc)) <==> v@.take(
                i as int + 1,
            ).contains(cc) by {
                assert(v@.take(i as int + 1) =~= v@.take(i as int).push(c));
                if r@.contains(cc) {
                    let k = choose|k: int| 0 <= k < r@.len() && (#[trigger] r@[k]) == cc;
                    if k == j as int {
                        assert(v@.take(i as int).push(c).last() == c);
                        assert(v@.take(i as int + 1).contains(cc));
                    } else {
                        let k0 = if k < j as int {
                            k
                        } else {
                            k - 1
                        };
                        assert(r0[k0] == cc);
                        assert(r0.contains(cc));
                    }
                }
                if v@.take(i as int + 1).contains(cc) {
                    let k = choose|k: int|
                        0 <= k < v@.take(i as int + 1).len() && (#[trigger] v@.take(
                            i as int + 1,
                        )[k]) == cc;
                    if k == i as int {
                        assert(r@[j as int] == cc);
                        assert(r@.contains(cc));
                    } else {
                        assert(v@.take(i as int)[k] == cc);
                        assert(v@.take(i as int).contains(cc));
                        assert(r0.contains(cc));
                        let k2 = choose|k2: int| 0 <= k2 < r0.len() && (#[trigger] r0[k2]) == cc;
                        if k2 < j as int {
                            assert(r@[k2] == cc);
                        } else {
                            assert(r@[k2 + 1] == cc);
                        }
                        assert(r@.contains(cc));
                    }
                }
            }
        }
        i += 1;
    }
    proof {
        assert(v@.take(v@.len() as int) =~= v@);
    }
    r
}

/// Whether `v` lists the coordinate `c`.
fn coords_contain(v: &Vec<UCoord2>, c: UCoord2) -> (r: bool)
    ensures
        r == v@.contains(c),
{
    let mut i: usize = 0;
    while i < v.len()
        invariant
            i <= v@.len(),
            forall|j: int| 0 <= j < i ==> v@[j] != c,
        decreases v@.len() - i,
    {
        if v[i] == c {
            return true;
        }
        i += 1;
    }
    false
}

/// The in-board neighbours of `c`, in rotation order from `Left`: the
/// enumeration both search passes use.
pub open spec fn neighbour_list(b: Board, c: UCoord2) -> Seq<UCoord2> {
    crate::board::in_board_filter(
        crate::direction::neighbours_from(c, Direction::Left, 4),
        b.spec_width() as int,
        b.spec_height() as int,
    )
}

/// The first cell of `s` that `e` holds marked `Covered`, if any.
pub open spec fn first_covered(e: Engine, s: Seq<UCoord2>) -> Option<UCoord2>
    decreases s.len(),
{
    if s.len() == 0 {
        None
    } else if e.mark(s[0]) == Some(SquareState::Covered) {
        Some(s[0])
    } else {
        first_covered(e, s.drop_first())
    }
}

/// How one search pass rooted at `cur` may change the marks, given the
/// cells `cs0` its callers had already walked: existing marks stay as they
/// are; cells already walked, and `cur` itself, keep their mark; and any
/// newly marked cell is marked `BadWay`.
pub open spec fn mark_evolution(e0: Engine, e1: Engine, cs0: Seq<UCoord2>, cur: UCoord2) -> bool {
    &&& forall|c: UCoord2| (#[trigger] e0.mark(c)) is Some ==> e1.mark(c) == e0.mark(c)
    &&& forall|c: UCoord2| cs0.contains(c) || c == cur ==> (#[trigger] e1.mark(c)) == e0.mark(c)
    &&& forall|c: UCoord2|
        (#[trigger] e0.mark(c)) is None ==> (e1.mark(c) is None || e1.mark(c) == Some(
            SquareState::BadWay,
        ))
}

/// Two successive passes compose into one, once the walked set only grew
/// and the outer root was walked before the inner pass began.
proof fn lemma_mark_evolution_trans(
    e0: Engine,
    e1: Engine,
    e2: Engine,
    cs0: Seq<UCoord2>,
    cs1: Seq<UCoord2>,
    cur: UCoord2,
    nxt: UCoord2,
)
    requires
        mark_evolution(e0, e1, cs0, cur),
        mark_evolution(e1, e2, cs1, nxt),
        forall|c: UCoord2| cs0.contains(c) ==> cs1.contains(c),
        cs1.contains(cur),
    ensures
        mark_evolution(e0, e2, cs0, cur),
{
    assert forall|c: UCoord2| (#[trigger] e0.mark(c)) is Some implies e2.mark(c) == e0.mark(
        c,
    ) by {
        assert(e1.mark(c) == e0.mark(c));
    }
    assert forall|c: UCoord2| cs0.contains(c) || c == cur implies (#[trigger] e2.mark(c))
        == e0.mark(c) by {
        assert(e1.mark(c) == e0.mark(c));
        assert(cs1.contains(c) || c == nxt || e1.mark(c) is Some || e1.mark(c) is None);
        if cs0.contains(c) {
            assert(cs1.contains(c));
            assert(e2.mark(c) == e1.mark(c));
        } else {
            assert(c == cur);
            assert(cs1.contains(c));
            assert(e2.mark(c) == e1.mark(c));
        }
    }
    assert forall|c: UCoord2| (#[trigger] e0.mark(c)) is None implies (e2.mark(c) is None
        || e2.mark(c) == Some(SquareState::BadWay)) by {
        if e1.mark(c) is Some {
            assert(e1.mark(c) == Some(SquareState::BadWay));
            assert(e2.mark(c) == e1.mark(c));
        }
    }
}

/// The frontier-exploration planner: remembers, across turns, the cells
/// already visited (`Covered`) and the cells proven dead (`BadWay`), and the
/// step sequence its last search produced.
pub struct Engine {
    unavailable_squares: Vec<(UCoord2, SquareState)>,
    path: Vec<UCoord2>,
}

impl Engine {
    /// The mark the engine holds for cell `c`, if any.
    pub closed spec fn mark(&self, c: UCoord2) -> Option<SquareState> {
        mark_of(self.unavailable_squares@, c)
    }

    /// The step sequence the last search produced, deepest step first.
    pub closed spec fn path_spec(&self) -> Seq<UCoord2> {
        self.path@
    }

    /// A fresh engine with no marks and no pending path.
    pub fn new() -> (r: Self)
        ensures
            forall|c: UCoord2| r.mark(c) is None,
            r.path_spec().len() == 0,
    {
        Self { unavailable_squares: Vec::new(), path: Vec::new() }
    }

    /// Forgets every mark; the pending path is kept.
    pub fn clear(&mut self)
        ensures
            forall|c: UCoord2| final(self).mark(c) is None,
            final(self).path_spec() == old(self).path_spec(),
    {
        self.unavailable_squares.clear();
    }

    /// The engine's current mark for `c`.
    fn mark_lookup(&self, c: UCoord2) -> (r: Option<SquareState>)
        ensures
            r == self.mark(c),
    {
        let ghost s = self.unavailable_squares@;
        let mut i: usize = self.unavailable_squares.len();
        proof {
            assert(s.take(s.len() as int) =~= s);
        }
        while i > 0
            invariant
                i <= s.len(),
                s == self.unavailable_squares@,
                mark_of(s, c) == mark_of(s.take(i as int), c),
            decreases i,
        {
            i -= 1;
            let e = self.unavailable_squares[i];
            proof {
                assert(s.take(i as int + 1).last() == s[i as int]);
                assert(s.take(i as int + 1).drop_last() =~= s.take(i as int));
            }
            if e.0 == c {
                return Some(e.1);
            }
        }
        proof {
            assert(s.take(0) =~= Seq::<(UCoord2, SquareState)>::empty());
        }
        None
    }

    /// Sets the mark of `c` to `st`, leaving every other cell's mark alone.
    fn mark_insert(&mut self, c: UCoord2, st: SquareState)
        ensures
            final(self).mark(c) == Some(st),
            forall|c2: UCoord2| c2 != c ==> final(self).mark(c2) == old(self).mark(c2),
            final(self).path_spec() == old(self).path_spec(),
    {
        let ghost s0 = self.unavailable_squares@;
        self.unavailable_squares.push((c, st));
        proof {
            assert(self.unavailable_squares@.drop_last() =~= s0);
            assert(self.unavailable_squares@.last() == (c, st));
        }
    }

    /// Removes any mark of `c`, leaving every other cell's mark alone.
    fn mark_remove(&mut self, c: UCoord2)
        ensures
            final(self).mark(c) is None,
            forall|c2: UCoord2| c2 != c ==> final(self).mark(c2) == old(self).mark(c2),
            final(self).path_spec() == old(self).path_spec(),
    {
        let ghost s = self.unavailable_squares@;
        let mut kept: Vec<(UCoord2, SquareState)> = Vec::new();
        let mut i: usize = 0;
        proof {
            assert(s.take(0) =~= Seq::<(UCoord2, SquareState)>::empty());
        }
        while i < self.unavailable_squares.len()
            invariant
                i <= s.len(),
                s == self.unavailable_squares@,
                forall|c2: UCoord2|
                    #[trigger] mark_of(kept@, c2) == (if c2 == c {
                        None
                    } else {
                        mark_of(s.take(i as int), c2)
                    }),
            decreases s.len() - i,
        {
            let e = self.unavailable_squares[i];
            let ghost kept0 = kept@;
            if !(e.0 == c) {
                kept.push(e);
                proof {
                    assert(kept@.drop_last() =~= kept0);
                    assert(kept@.last() == s[i as int]);
                }
            }
            proof {
                assert(s.take(i as int + 1).last() == s[i as int]);
                assert(s.take(i as int + 1).drop_last() =~= s.take(i as int));
                assert forall|c2: UCoord2| #[trigger] mark_of(kept@, c2) == (if c2 == c {
                    None
                } else {
                    mark_of(s.take(i as int + 1), c2)
                }) by {
                    assert(mark_of(kept0, c2) == (if c2 == c {
                        None
                    } else {
                        mark_of(s.take(i as int), c2)
                    }));
                }
            }
            i += 1;
        }
        proof {
            assert(s.take(s.len() as int) =~= s);
        }
        self.unavailable_squares = kept;
    }

    /// Marks `coord` as already visited.
    pub fn set_square_covered(&mut self, coord: UCoord2)
        ensures
            final(self).mark(coord) == Some(SquareState::Covered),
            forall|c2: UCoord2| c2 != coord ==> final(self).mark(c2) == old(self).mark(c2),
            final(self).path_spec() == old(self).path_spec(),
    {
        self.mark_insert(coord, SquareState::Covered);
    }

    /// One depth-bounded search pass rooted at `current_coord`: walks the
    /// unmarked empty neighbours in heuristic order, condemns proven-dead
    /// branches with `BadWay` marks, and on success leaves the found step
    /// sequence appended to the path, deepest step first. Optimistic at the
    /// depth bound and toward unknown cells: it only answers `BadWay` when
    /// every neighbour is known and no branch led anywhere.
    fn look_forward(
        &mut self,
        board: &Board,
        current_coord: UCoord2,
        target_coord: &Option<UCoord2>,
        depth: usize,
        covered_squares: &mut Vec<UCoord2>,
    ) -> (r: SearchResult)
        requires
            board.wf(),
            board.in_board(current_coord),
            (match *target_coord {
                Some(t) => t.x <= MAX_DIM && t.y <= MAX_DIM,
                None => true,
            }),
        ensures
            r == SearchResult::GoodWay || r == SearchResult::BadWay,
            mark_evolution(*old(self), *final(self), old(covered_squares)@, current_coord),
            forall|c: UCoord2|
                old(covered_squares)@.contains(c) ==> final(covered_squares)@.contains(c),
            r == SearchResult::BadWay ==> final(self).path_spec() == old(self).path_spec(),
            final(self).path_spec().len() >= old(self).path_spec().len(),
            final(self).path_spec().take(old(self).path_spec().len() as int)
                == old(self).path_spec(),
            chain_to(
                *board,
                current_coord,
                final(self).path_spec().skip(old(self).path_spec().len() as int),
            ),
            forall|i: int|
                old(self).path_spec().len() <= i < final(self).path_spec().len()
                    ==> final(self).mark(#[trigger] final(self).path_spec()[i]) is None,
            *target_coord == Some(current_coord) ==> r == SearchResult::GoodWay && *final(self)
                == *old(self) && final(covered_squares)@ == old(covered_squares)@,
            r == SearchResult::BadWay ==> (forall|n: UCoord2|
                adjacent(current_coord, n) && board.in_board(n) ==> board.cell(n)
                    != Content::Unknown),
            r == SearchResult::BadWay ==> depth > 0 && *target_coord != Some(current_coord),
            depth == 0 && *target_coord != Some(current_coord) ==> r == SearchResult::GoodWay
                && *final(self) == *old(self) && final(covered_squares)@ == old(covered_squares)@,
            // an empty-handed GoodWay is only ever the frontier's optimism
            r == SearchResult::GoodWay && final(self).path_spec().len()
                == old(self).path_spec().len() && depth > 0 && *target_coord != Some(
                current_coord,
            ) ==> (exists|n: UCoord2|
                adjacent(current_coord, n) && board.in_board(n) && board.cell(n)
                    == Content::Unknown),
            // and it comes only once every walkable neighbour was tried:
            // each is condemned, or was walked by the enclosing pass
            r == SearchResult::GoodWay && final(self).path_spec().len()
                == old(self).path_spec().len() && depth > 0 && *target_coord != Some(
                current_coord,
            ) ==> (forall|n: UCoord2|
                adjacent(current_coord, n) && board.in_board(n) && board.cell(n) == Content::Empty
                    ==> final(self).mark(n) is Some || old(covered_squares)@.contains(n)),
            // a fully known, fully condemned neighbourhood forces BadWay
            depth > 0 && *target_coord != Some(current_coord) && (forall|n: UCoord2|
                adjacent(current_coord, n) && board.in_board(n) ==> board.cell(n)
                    != Content::Unknown) && (forall|n: UCoord2|
                adjacent(current_coord, n) && board.in_board(n) && board.cell(n) == Content::Empty
                    ==> old(self).mark(n) is Some) ==> r == SearchResult::BadWay,
            // every cell this pass walked, other than its root and its
            // produced steps, was condemned on the way
            forall|c: UCoord2|
                #[trigger] final(covered_squares)@.contains(c)
                    && !old(covered_squares)@.contains(c) && c != current_coord
                    && !final(self).path_spec().skip(
                    old(self).path_spec().len() as int,
                ).contains(c) ==> final(self).mark(c) is Some,
        decreases depth,
    {
        let ghost path0 = self.path@;
        let ghost cs0 = covered_squares@;
        let hit = match target_coord {
            Some(t) => t.x == current_coord.x && t.y == current_coord.y,
            None => false,
        };
        if hit {
            proof {
                assert(self.path@.skip(path0.len() as int) =~= Seq::<UCoord2>::empty());
                assert(self.path@.take(path0.len() as int) =~= path0);
            }
            return SearchResult::GoodWay;
        }
        if depth == 0 {
            proof {
                assert(self.path@.skip(path0.len() as int) =~= Seq::<UCoord2>::empty());
                assert(self.path@.take(path0.len() as int) =~= path0);
            }
            return SearchResult::GoodWay;
        }
        covered_squares.push(current_coord);
        proof {
            broadcast use vstd::seq_lib::lemma_seq_contains_after_push;

        }
        let ghost cs1 = covered_squares@;
        let ghost w = board.spec_width() as int;
        let ghost h = board.spec_height() as int;
        // enumerate the empty, unmarked in-board neighbours
        let ns = board.neighbours_in_board_iter(current_coord, Direction::Left);
        let mut cands: Vec<UCoord2> = Vec::new();
        let mut k: usize = 0;
        while k < ns.len()
            invariant
                board.wf(),
                w == board.spec_width() as int,
                h == board.spec_height() as int,
                board.in_board(current_coord),
                *self == *old(self),
                ns@ == neighbour_list(*board, current_coord),
                k <= ns@.len(),
                forall|j: int|
                    0 <= j < cands@.len() ==> board.in_board(#[trigger] cands@[j]) && board.cell(
                        cands@[j],
                    ) == Content::Empty && adjacent(current_coord, cands@[j]) && cands@[j].x
                        <= MAX_DIM && cands@[j].y <= MAX_DIM,
                forall|j: int| 0 <= j < cands@.len() ==> old(self).mark(#[trigger] cands@[j]) is None,
                forall|j: int|
                    0 <= j < k && board.cell(#[trigger] ns@[j]) == Content::Empty && old(self).mark(
                        ns@[j],
                    ) is None ==> cands@.contains(ns@[j]),
            decreases ns@.len() - k,
        {
            let c = ns[k];
            proof {
                broadcast use vstd::seq_lib::lemma_seq_contains_after_push;

                crate::board::lemma_wf_bounds(board);
                assert(ns@[k as int] == c);
                assert(ns@.contains(c));
                crate::board::lemma_neighbour_list_members(
                    current_coord,
                    Direction::Left,
                    w,
                    h,
                    c,
                );
            }
            let is_empty = match board.get_content(&c) {
                Content::Empty => true,
                _ => false,
            };
            let unmarked = match self.mark_lookup(c) {
                Some(_) => false,
                None => true,
            };
            let ghost cpre = cands@;
            if is_empty && unmarked {
                cands.push(c);
            }
            proof {
                assert forall|j: int|
                    0 <= j < k + 1 && board.cell(#[trigger] ns@[j]) == Content::Empty
                    && old(self).mark(ns@[j]) is None implies cands@.contains(ns@[j]) by {
                    if j < k {
                        assert(cpre.contains(ns@[j]));
                        let i0 = choose|i0: int|
                            0 <= i0 < cpre.len() && (#[trigger] cpre[i0]) == ns@[j];
                        assert(cands@[i0] == ns@[j]);
                    } else {
                        assert(cands@[cpre.len() as int] == c);
                    }
                }
            }
            k += 1;
        }
        let ghost cands_pre = cands@;
        let cands = match target_coord {
            Some(t) => sort_by_dist(cands, *t),
            None => cands,
        };
        proof {
            assert forall|j: int| 0 <= j < cands@.len() implies board.in_board(
                #[trigger] cands@[j],
            ) && board.cell(cands@[j]) == Content::Empty && adjacent(current_coord, cands@[j])
                && old(self).mark(cands@[j]) is None by {
                assert(cands@.contains(cands@[j]));
                assert(cands_pre.contains(cands@[j]));
                let k0 = choose|k0: int|
                    0 <= k0 < cands_pre.len() && (#[trigger] cands_pre[k0]) == cands@[j];
                assert(board.in_board(cands_pre[k0]));
            }
            // every walkable, unmarked neighbour made it into the ordered list
            assert forall|n: UCoord2|
                ns@.contains(n) && board.cell(n) == Content::Empty && old(self).mark(n) is None
                    implies #[trigger] cands@.contains(n) by {
                let j = choose|j: int| 0 <= j < ns@.len() && (#[trigger] ns@[j]) == n;
                assert(cands_pre.contains(ns@[j]));
            }
        }
        proof {
            assert forall|c: UCoord2| #[trigger] cs1.contains(c) implies cs0.contains(c) || c
                == current_coord by {
                let i0 = choose|i0: int| 0 <= i0 < cs1.len() && cs1[i0] == c;
                if i0 < cs0.len() {
                    assert(cs0[i0] == c);
                } else {
                    assert(cs1[i0] == current_coord);
                }
            }
        }
        let mut k2: usize = 0;
        while k2 < cands.len()
            invariant
                board.wf(),
                board.in_board(current_coord),
                (match *target_coord {
                    Some(t) => t.x <= MAX_DIM && t.y <= MAX_DIM,
                    None => true,
                }),
                *target_coord != Some(current_coord),
                depth >= 1,
                k2 <= cands@.len(),
                forall|j: int|
                    0 <= j < cands@.len() ==> board.in_board(#[trigger] cands@[j]) && board.cell(
                        cands@[j],
                    ) == Content::Empty && adjacent(current_coord, cands@[j]),
                forall|j: int|
                    0 <= j < cands@.len() ==> old(self).mark(#[trigger] cands@[j]) is None,
                mark_evolution(*old(self), *self, cs0, current_coord),
                forall|c: UCoord2| cs0.contains(c) ==> covered_squares@.contains(c),
                forall|c: UCoord2| cs1.contains(c) ==> covered_squares@.contains(c),
                covered_squares@.contains(current_coord),
                cs0 == old(covered_squares)@,
                path0 == old(self).path_spec(),
                self.path@ == path0,
                // every candidate already tried is condemned or walked
                forall|j: int|
                    0 <= j < k2 ==> self.mark(#[trigger] cands@[j]) is Some
                        || covered_squares@.contains(cands@[j]),
                // every cell walked below this pass is condemned
                forall|c: UCoord2|
                    #[trigger] covered_squares@.contains(c) && !cs0.contains(c) && c
                        != current_coord ==> self.mark(c) is Some,
            decreases cands@.len() - k2,
        {
            let next = cands[k2];
            let marked = match self.mark_lookup(next) {
                Some(_) => true,
                None => false,
            };
            let walked = coords_contain(covered_squares, next);
            if !marked && !walked {
                let ghost e_mid = *self;
                let ghost cs_mid = covered_squares@;
                let sr = self.look_forward(board, next, target_coord, depth - 1, covered_squares);
                proof {
                    lemma_mark_evolution_trans(
                        *old(self),
                        e_mid,
                        *self,
                        cs0,
                        cs_mid,
                        current_coord,
                        next,
                    );
                    // the pass rooted at `next` left `next` itself unmarked
                    assert(self.mark(next) == e_mid.mark(next));
                    assert(e_mid.mark(next) is None);
                    assert forall|c: UCoord2| cs0.contains(c) implies covered_squares@.contains(
                        c,
                    ) by {
                        assert(cs_mid.contains(c));
                    }
                    assert forall|c: UCoord2| cs1.contains(c) implies covered_squares@.contains(
                        c,
                    ) by {
                        assert(cs_mid.contains(c));
                    }
                    assert(covered_squares@.contains(current_coord)) by {
                        assert(cs_mid.contains(current_coord));
                    }
                }
                if sr == SearchResult::BadWay {
                    let ghost e_aft = *self;
                    self.mark_insert(next, SquareState::BadWay);
                    proof {
                        // a freshly condemned cell was never marked before
                        // and is not the root, so the evolution still holds
                        assert(old(self).mark(next) is None) by {
                            if old(self).mark(next) is Some {
                                assert(e_mid.mark(next) == old(self).mark(next));
                            }
                        }
                        assert(!cs0.contains(next));
                        assert(next != current_coord);
                        assert forall|c: UCoord2| (#[trigger] old(self).mark(c)) is Some implies
                            self.mark(c) == old(self).mark(c) by {
                            assert(e_aft.mark(c) == old(self).mark(c));
                            assert(c != next);
                        }
                        assert forall|c: UCoord2| cs0.contains(c) || c == current_coord implies (
                        #[trigger] self.mark(c)) == old(self).mark(c) by {
                            assert(e_aft.mark(c) == old(self).mark(c));
                            assert(c != next);
                        }
                        assert forall|c: UCoord2| (#[trigger] old(self).mark(c)) is None implies (
                        self.mark(c) is None || self.mark(c) == Some(SquareState::BadWay)) by {
                            if c != next {
                                assert(self.mark(c) == e_aft.mark(c));
                            }
                        }
                        assert(mark_evolution(*old(self), *self, cs0, current_coord));
                        // the tried candidates stay condemned or walked, and
                        // the failed subtree left everything it walked marked
                        assert(e_aft.path_spec() == e_mid.path_spec());
                        assert(e_aft.path_spec().skip(e_mid.path_spec().len() as int)
                            =~= Seq::<UCoord2>::empty());
                        assert forall|j: int|
                            0 <= j < k2 + 1 implies self.mark(#[trigger] cands@[j]) is Some
                            || covered_squares@.contains(cands@[j]) by {
                            if j < k2 {
                                if e_mid.mark(cands@[j]) is Some {
                                    assert(e_aft.mark(cands@[j]) == e_mid.mark(cands@[j]));
                                    if cands@[j] != next {
                                        assert(self.mark(cands@[j]) == e_aft.mark(cands@[j]));
                                    }
                                } else {
                                    assert(cs_mid.contains(cands@[j]));
                                }
                            } else {
                                assert(cands@[j] == next);
                            }
                        }
                        assert forall|c: UCoord2|
                            #[trigger] covered_squares@.contains(c) && !cs0.contains(c) && c
                            != current_coord implies self.mark(c) is Some by {
                            if c == next {
                            } else if cs_mid.contains(c) {
                                assert(e_mid.mark(c) is Some);
                                assert(e_aft.mark(c) == e_mid.mark(c));
                                assert(self.mark(c) == e_aft.mark(c));
                            } else {
                                assert(e_aft.mark(c) is Some);
                                assert(self.mark(c) == e_aft.mark(c));
                            }
                        }
                    }
                } else {
                    let ghost e_aft2 = *self;
                    let ghost pre_push = self.path@;
                    let ghost suffix = pre_push.skip(path0.len() as int);
                    self.path.push(next);
                    proof {
                        assert(self.path@ =~= pre_push.push(next));
                        assert(self.path@.take(path0.len() as int) =~= path0) by {
                            assert(pre_push.take(path0.len() as int) == path0);
                        }
                        assert(self.path@.skip(path0.len() as int) =~= suffix.push(next));
                        assert(suffix.push(next).last() == next);
                        assert(suffix.push(next).drop_last() =~= suffix);
                        assert(chain_to(*board, next, suffix));
                        assert(chain_to(*board, current_coord, suffix.push(next)));
                        assert forall|i: int|
                            path0.len() <= i < self.path@.len() implies self.mark(
                            #[trigger] self.path@[i],
                        ) is None by {
                            if i < pre_push.len() {
                                assert(self.path@[i] == pre_push[i]);
                            } else {
                                assert(self.path@[i] == next);
                            }
                        }
                        // the step just produced was an unmarked walkable
                        // neighbour at entry, and the pass walked nothing
                        // uncondemned besides its root and its steps
                        assert(old(self).mark(next) is None) by {
                            if old(self).mark(next) is Some {
                                assert(e_mid.mark(next) == old(self).mark(next));
                            }
                        }
                        assert(self.path@.len() > path0.len());
                        assert(suffix.push(next)[suffix.len() as int] == next);
                        assert forall|c: UCoord2|
                            #[trigger] covered_squares@.contains(c) && !cs0.contains(c) && c
                            != current_coord && !self.path@.skip(path0.len() as int).contains(
                            c,
                        ) implies self.mark(c) is Some by {
                            assert(!suffix.push(next).contains(c));
                            assert(c != next);
                            assert(!suffix.contains(c)) by {
                                if suffix.contains(c) {
                                    let i0 = choose|i0: int|
                                        0 <= i0 < suffix.len() && (#[trigger] suffix[i0]) == c;
                                    assert(suffix.push(next)[i0] == c);
                                }
                            }
                            assert(!e_aft2.path_spec().skip(path0.len() as int).contains(c)) by {
                                assert(e_aft2.path_spec().skip(path0.len() as int) == suffix);
                            }
                            assert(self.mark(c) == e_aft2.mark(c));
                            if cs_mid.contains(c) {
                                assert(e_mid.mark(c) is Some);
                                assert(e_aft2.mark(c) == e_mid.mark(c));
                            } else {
                                assert(e_aft2.mark(c) is Some);
                            }
                        }
                    }
                    return sr;
                }
            }
            k2 += 1;
        }
        // every candidate is exhausted: an unknown neighbour keeps hope, a
        // fully known neighbourhood condemns this branch
        let mut unknown_count: usize = 0;
        let mut k3: usize = 0;
        while k3 < ns.len()
            invariant
                board.wf(),
                board.in_board(current_coord),
                ns@ == neighbour_list(*board, current_coord),
                k3 <= ns@.len(),
                unknown_count <= k3,
                (unknown_count == 0 <==> (forall|j: int|
                    0 <= j < k3 ==> board.cell(#[trigger] ns@[j]) != Content::Unknown)),
            decreases ns@.len() - k3,
        {
            proof {
                assert(ns@.contains(ns@[k3 as int]));
                crate::board::lemma_neighbour_list_members(
                    current_coord,
                    Direction::Left,
                    board.spec_width() as int,
                    board.spec_height() as int,
                    ns@[k3 as int],
                );
            }
            let is_unknown = match board.get_content(&ns[k3]) {
                Content::Unknown => true,
                _ => false,
            };
            if is_unknown {
                unknown_count += 1;
            }
            k3 += 1;
        }
        proof {
            assert(self.path@.skip(path0.len() as int) =~= Seq::<UCoord2>::empty());
            assert(self.path@.take(path0.len() as int) =~= path0);
            // every walkable neighbour ended condemned or was walked by the
            // enclosing pass
            assert forall|n: UCoord2|
                adjacent(current_coord, n) && board.in_board(n) && board.cell(n)
                    == Content::Empty implies self.mark(n) is Some || cs0.contains(n) by {
                crate::board::lemma_neighbour_list_members(current_coord, Direction::Left, w, h, n);
                assert(ns@.contains(n));
                assert(n != current_coord);
                if old(self).mark(n) is Some {
                    assert(self.mark(n) == old(self).mark(n));
                } else {
                    assert(cands@.contains(n));
                    let j = choose|j: int| 0 <= j < cands@.len() && (#[trigger] cands@[j]) == n;
                    assert(self.mark(cands@[j]) is Some || covered_squares@.contains(cands@[j]));
                    if !(self.mark(n) is Some) {
                        assert(covered_squares@.contains(n));
                        if !cs0.contains(n) {
                            assert(self.mark(n) is Some);
                        }
                    }
                }
            }
        }
        if unknown_count > 0 {
            proof {
                // the optimistic answer names its reason: an unknown
                // neighbour is still out there
                assert(exists|j: int|
                    0 <= j < ns@.len() && board.cell(#[trigger] ns@[j]) == Content::Unknown);
                let j0 = choose|j0: int|
                    0 <= j0 < ns@.len() && board.cell(#[trigger] ns@[j0]) == Content::Unknown;
                assert(ns@.contains(ns@[j0]));
                crate::board::lemma_neighbour_list_members(
                    current_coord,
                    Direction::Left,
                    w,
                    h,
                    ns@[j0],
                );
                assert(adjacent(current_coord, ns@[j0]) && board.in_board(ns@[j0]) && board.cell(
                    ns@[j0],
                ) == Content::Unknown);
            }
            SearchResult::GoodWay
        } else {
            proof {
                assert forall|n: UCoord2|
                    adjacent(current_coord, n) && board.in_board(n) implies board.cell(n)
                    != Content::Unknown by {
                    crate::board::lemma_neighbour_list_members(
                        current_coord,
                        Direction::Left,
                        board.spec_width() as int,
                        board.spec_height() as int,
                        n,
                    );
                    assert(ns@.contains(n));
                    let j = choose|j: int| 0 <= j < ns@.len() && ns@[j] == n;
                    assert(board.cell(ns@[j]) != Content::Unknown);
                }
            }
            SearchResult::BadWay
        }
    }

    /// Starts one exploration pass at `current_coord`: marks it visited,
    /// rebuilds the path from scratch, and answers `TargetFound` exactly
    /// when the agent already stands on the known target. On any other
    /// outcome the path left behind is a valid step chain rooted at
    /// `current_coord` whose cells carry no mark; `BadWay` comes with an
    /// empty path and a fully known, exhausted neighbourhood.
    pub fn start_look_forward(
        &mut self,
        board: &Board,
        current_coord: UCoord2,
        target_coord: &Option<UCoord2>,
        depth: usize,
    ) -> (r: SearchResult)
        requires
            board.wf(),
            board.in_board(current_coord),
            (match *target_coord {
                Some(t) => t.x <= MAX_DIM && t.y <= MAX_DIM,
                None => true,
            }),
        ensures
            final(self).mark(current_coord) == Some(SquareState::Covered),
            forall|c: UCoord2|
                c != current_coord && (#[trigger] old(self).mark(c)) is Some ==> final(self).mark(
                    c,
                ) == old(self).mark(c),
            forall|c: UCoord2|
                c != current_coord && (#[trigger] old(self).mark(c)) is None ==> (final(self).mark(
                    c,
                ) is None || final(self).mark(c) == Some(SquareState::BadWay)),
            (r == SearchResult::TargetFound <==> *target_coord == Some(current_coord)),
            r == SearchResult::TargetFound ==> final(self).path_spec().len() == 0 && (forall|
                c: UCoord2,
            |
                c != current_coord ==> final(self).mark(c) == old(self).mark(c)),
            r == SearchResult::BadWay ==> final(self).path_spec().len() == 0,
            chain_to(*board, current_coord, final(self).path_spec()),
            forall|i: int|
                0 <= i < final(self).path_spec().len() ==> final(self).mark(
                    #[trigger] final(self).path_spec()[i],
                ) is None,
            r == SearchResult::BadWay ==> (forall|n: UCoord2|
                adjacent(current_coord, n) && board.in_board(n) ==> board.cell(n)
                    != Content::Unknown),
            // at a spent depth budget the search gives up without judgment
            depth == 0 && *target_coord != Some(current_coord) ==> r == SearchResult::GoodWay
                && final(self).path_spec().len() == 0,
            // an empty-handed GoodWay is owed to an open frontier alone
            r == SearchResult::GoodWay && final(self).path_spec().len() == 0 && depth > 0 ==> (
            exists|n: UCoord2|
                adjacent(current_coord, n) && board.in_board(n) && board.cell(n)
                    == Content::Unknown),
            // and it comes only after every walkable neighbour was tried
            // and condemned
            r == SearchResult::GoodWay && final(self).path_spec().len() == 0 && depth > 0 ==> (
            forall|n: UCoord2|
                adjacent(current_coord, n) && board.in_board(n) && board.cell(n) == Content::Empty
                    ==> final(self).mark(n) is Some),
            // a fully known, fully condemned neighbourhood forces BadWay
            depth > 0 && *target_coord != Some(current_coord) && (forall|n: UCoord2|
                adjacent(current_coord, n) && board.in_board(n) ==> board.cell(n)
                    != Content::Unknown) && (forall|n: UCoord2|
                adjacent(current_coord, n) && board.in_board(n) && board.cell(n) == Content::Empty
                    ==> old(self).mark(n) is Some) ==> r == SearchResult::BadWay,
    {
        self.mark_insert(current_coord, SquareState::Covered);
        let mut covered_squares: Vec<UCoord2> = Vec::new();
        self.path.clear();
        let ghost e_mid = *self;
        let hit = match target_coord {
            Some(t) => t.x == current_coord.x && t.y == current_coord.y,
            None => false,
        };
        if hit {
            return SearchResult::TargetFound;
        }
        let result = self.look_forward(board, current_coord, target_coord, depth, &mut covered_squares);
        proof {
            assert(mark_evolution(e_mid, *self, Seq::<UCoord2>::empty(), current_coord));
            assert(self.mark(current_coord) == e_mid.mark(current_coord));
            assert forall|c: UCoord2|
                c != current_coord && (#[trigger] old(self).mark(c)) is Some implies self.mark(c)
                == old(self).mark(c) by {
                assert(e_mid.mark(c) == old(self).mark(c));
            }
            assert forall|c: UCoord2|
                c != current_coord && (#[trigger] old(self).mark(c)) is None implies (self.mark(c)
                is None || self.mark(c) == Some(SquareState::BadWay)) by {
                assert(e_mid.mark(c) == old(self).mark(c));
            }
            assert(self.path@.skip(0) =~= self.path@);
            assert(e_mid.path_spec().len() == 0);
            if depth == 0 {
                assert(result == SearchResult::GoodWay);
                assert(self.path@.len() == 0);
            }
            if result == SearchResult::GoodWay && self.path@.len() == 0 && depth > 0 {
                assert forall|n: UCoord2|
                    adjacent(current_coord, n) && board.in_board(n) && board.cell(n)
                        == Content::Empty implies self.mark(n) is Some by {
                    assert(!Seq::<UCoord2>::empty().contains(n));
                }
            }
            if depth > 0 && *target_coord != Some(current_coord) && (forall|n: UCoord2|
                adjacent(current_coord, n) && board.in_board(n) ==> board.cell(n)
                    != Content::Unknown) && (forall|n: UCoord2|
                adjacent(current_coord, n) && board.in_board(n) && board.cell(n) == Content::Empty
                    ==> old(self).mark(n) is Some) {
                assert forall|n: UCoord2|
                    adjacent(current_coord, n) && board.in_board(n) && board.cell(n)
                        == Content::Empty implies e_mid.mark(n) is Some by {
                    assert(n != current_coord);
                    assert(e_mid.mark(n) == old(self).mark(n));
                }
                assert(result == SearchResult::BadWay);
            }
        }
        result
    }

    /// The agent's next cell. With a pending path, its most recently pushed
    /// step is the move. With none, the search found no way forward: the
    /// agent retreats to the first neighbour still marked `Covered`, the
    /// current cell is condemned `BadWay`, and the retreat cell's mark is
    /// cleared so it becomes explorable again. `None` reports the fatal
    /// inconsistency of having nowhere to retreat to.
    pub fn get_next_coord(&mut self, board: &Board, current_coord: UCoord2) -> (r: Option<
        UCoord2,
    >)
        requires
            board.wf(),
            board.in_board(current_coord),
        ensures
            old(self).path_spec().len() > 0 ==> r == Some(old(self).path_spec().last())
                && *final(self) == *old(self),
            old(self).path_spec().len() == 0 && first_covered(
                *old(self),
                neighbour_list(*board, current_coord),
            ) is None ==> r is None && *final(self) == *old(self),
            old(self).path_spec().len() == 0 && first_covered(
                *old(self),
                neighbour_list(*board, current_coord),
            ) is Some ==> r == first_covered(*old(self), neighbour_list(*board, current_coord))
                && final(self).mark(current_coord) == Some(SquareState::BadWay)
                && final(self).path_spec() == old(self).path_spec(),
            forall|cc: UCoord2|
                old(self).path_spec().len() == 0 && first_covered(
                    *old(self),
                    neighbour_list(*board, current_coord),
                ) == Some(cc) ==> final(self).mark(cc) is None && (forall|c2: UCoord2|
                    c2 != current_coord && c2 != cc ==> final(self).mark(c2) == old(self).mark(c2)),
    {
        if self.path.len() > 0 {
            let l = self.path.len();
            return Some(self.path[l - 1]);
        }
        let ghost e0 = *self;
        let ns = board.neighbours_in_board_iter(current_coord, Direction::Left);
        let ghost nsv = ns@;
        let mut i: usize = 0;
        proof {
            assert(nsv.skip(0) =~= nsv);
        }
        while i < ns.len()
            invariant
                i <= nsv.len(),
                ns@ == nsv,
                e0 == *self,
                e0 == *old(self),
                old(self).path_spec().len() == 0,
                nsv == neighbour_list(*board, current_coord),
                board.wf(),
                board.in_board(current_coord),
                first_covered(e0, nsv) == first_covered(e0, nsv.skip(i as int)),
            decreases nsv.len() - i,
        {
            let c = ns[i];
            proof {
                assert(nsv.skip(i as int)[0] == nsv[i as int]);
                assert(nsv.skip(i as int).drop_first() =~= nsv.skip(i as int + 1));
            }
            let covered = match self.mark_lookup(c) {
                Some(SquareState::Covered) => true,
                _ => false,
            };
            if covered {
                proof {
                    assert(nsv.skip(i as int).len() > 0);
                    assert(e0.mark(nsv.skip(i as int)[0]) == Some(SquareState::Covered));
                    assert(first_covered(e0, nsv) == Some(c));
                    assert(adjacent(current_coord, c)) by {
                        crate::board::lemma_neighbour_list_members(
                            current_coord,
                            Direction::Left,
                            board.spec_width() as int,
                            board.spec_height() as int,
                            c,
                        );
                        assert(nsv.contains(c));
                    }
                    assert(c != current_coord);
                }
                self.mark_insert(current_coord, SquareState::BadWay);
                self.mark_remove(c);
                return Some(c);
            }
            i += 1;
        }
        proof {
            assert(nsv.skip(nsv.len() as int) =~= Seq::<UCoord2>::empty());
        }
        None
    }
}

} // verus!
