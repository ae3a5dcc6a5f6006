use vstd::prelude::*;
use vstd::pervasive::VecAdditionalExecFns;

use crate::direction::{adjacent, neighbours_from, Direction};
use crate::range_helper::{centered_hi, centered_lo, centered_range};
use crate::vect2_t::{UCoord2, Vect2};

verus! {

/// Knowledge about one grid cell. A cell starts `Unknown` and, once observed
/// as `Wall` or `Empty`, never changes again.
#[derive(Debug, Clone, Copy, PartialEq, Eq, Structural)]
pub enum Content {
    Unknown,
    Wall,
    Empty,
}

/// Largest accepted grid side. Keeps every coordinate difference, Manhattan
/// distance, squared Euclidean distance and cell count inside `i32`/`usize`
/// arithmetic.
pub const MAX_DIM: usize = 32767;

/// Persistent partial knowledge of the grid, merged from bounded observation
/// windows, together with the remembered agent, start and goal coordinates.
pub struct Board {
    view: Vec<Vec<Content>>,
    width: usize,
    height: usize,
    rounds: usize,
    rick_current_coord: Option<UCoord2>,
    rick_start_coord: Option<UCoord2>,
    cmd_room_coord: Option<UCoord2>,
}

/// What one observed symbol says about a cell: walls and the three kinds of
/// traversable cell; anything else keeps the cell unknown.
pub open spec fn parse_symbol(s: char) -> Content {
    if s == '#' {
        Content::Wall
    } else if s == '.' || s == 'T' || s == 'C' {
        Content::Empty
    } else {
        Content::Unknown
    }
}

/// One cell after merging one observed symbol: the first observation wins,
/// a known cell is never changed.
pub open spec fn cell_step(c: Content, s: char) -> Content {
    if c != Content::Unknown {
        c
    } else {
        parse_symbol(s)
    }
}

/// Whether column `x` lies in the observation window centred on `cx`.
pub open spec fn in_window_axis(cx: int, x: int, limit: int) -> bool {
    centered_lo(cx) <= x < centered_hi(cx, limit)
}

/// Whether cell `(x, y)` lies in the observation window centred on `rick`.
pub open spec fn in_window(rick: UCoord2, x: int, y: int, w: int, h: int) -> bool {
    in_window_axis(rick.x as int, x, w) && in_window_axis(rick.y as int, y, h)
}

/// The whole grid after merging the observation `rows` seen from `rick`:
/// cells inside the window take one `cell_step`, the rest are untouched.
pub open spec fn grid_after(
    g: Seq<Seq<Content>>,
    rick: UCoord2,
    rows: Seq<Seq<char>>,
    w: int,
    h: int,
) -> Seq<Seq<Content>> {
    Seq::new(
        g.len(),
        |y: int|
            Seq::new(
                g[y].len(),
                |x: int|
                    if in_window(rick, x, y, w, h) {
                        cell_step(g[y][x], rows[y][x])
                    } else {
                        g[y][x]
                    },
            ),
    )
}

/// The goal coordinate after scanning columns `x_lo..x` of row `y`, starting
/// from `acc`: the last cell that is still unknown in `g` and shows the goal
/// symbol wins.
pub open spec fn cmd_scan_row(
    g: Seq<Seq<Content>>,
    row: Seq<char>,
    y: int,
    x_lo: int,
    x: int,
    acc: Option<UCoord2>,
) -> Option<UCoord2>
    decreases x - x_lo,
{
    if x <= x_lo {
        acc
    } else {
        let prev = cmd_scan_row(g, row, y, x_lo, x - 1, acc);
        if g[y][x - 1] == Content::Unknown && row[x - 1] == 'C' {
            Some(Vect2::<usize> { x: (x - 1) as usize, y: y as usize })
        } else {
            prev
        }
    }
}

/// The goal coordinate after scanning rows `y_lo..y` of the window.
pub open spec fn cmd_scan_rows(
    g: Seq<Seq<Content>>,
    rows: Seq<Seq<char>>,
    y_lo: int,
    y: int,
    x_lo: int,
    x_hi: int,
    acc: Option<UCoord2>,
) -> Option<UCoord2>
    decreases y - y_lo,
{
    if y <= y_lo {
        acc
    } else {
        let prev = cmd_scan_rows(g, rows, y_lo, y - 1, x_lo, x_hi, acc);
        cmd_scan_row(g, rows[y - 1], y - 1, x_lo, x_hi, prev)
    }
}

/// The remembered goal coordinate after merging one observation.
pub open spec fn cmd_after(
    g: Seq<Seq<Content>>,
    cmd0: Option<UCoord2>,
    rick: UCoord2,
    rows: Seq<Seq<char>>,
    w: int,
    h: int,
) -> Option<UCoord2> {
    cmd_scan_rows(
        g,
        rows,
        centered_lo(rick.y as int),
        centered_hi(rick.y as int, h),
        centered_lo(rick.x as int),
        centered_hi(rick.x as int, w),
        cmd0,
    )
}

/// The remembered start coordinate after one observation: fixed on the first
/// observation, never moved afterwards.
pub open spec fn start_after(start0: Option<UCoord2>, rick: UCoord2) -> Option<UCoord2> {
    if start0 is None {
        Some(rick)
    } else {
        start0
    }
}

impl Board {
    /// The grid as it is currently known, row by row.
    pub closed spec fn grid(&self) -> Seq<Seq<Content>> {
        self.view@.map_values(|rv: Vec<Content>| rv@)
    }

    pub closed spec fn spec_width(&self) -> usize {
        self.width
    }

    pub closed spec fn spec_height(&self) -> usize {
        self.height
    }

    pub closed spec fn spec_rounds(&self) -> usize {
        self.rounds
    }

    pub closed spec fn start_spec(&self) -> Option<UCoord2> {
        self.rick_start_coord
    }

    pub closed spec fn cmd_spec(&self) -> Option<UCoord2> {
        self.cmd_room_coord
    }

    pub closed spec fn current_spec(&self) -> Option<UCoord2> {
        self.rick_current_coord
    }

    /// The grid is a full `height` by `width` rectangle of cells, with both
    /// sides small enough for all the arithmetic the planners do.
    pub closed spec fn wf(&self) -> bool {
        &&& self.view@.len() == self.height
        &&& forall|y: int| 0 <= y < self.height ==> (#[trigger] self.view@[y])@.len() == self.width
        &&& self.width <= MAX_DIM
        &&& self.height <= MAX_DIM
    }

    /// Whether `c` is a cell of this grid.
    pub open spec fn in_board(&self, c: UCoord2) -> bool {
        c.x < self.spec_width() && c.y < self.spec_height()
    }

    /// Current knowledge about cell `c`.
    pub open spec fn cell(&self, c: UCoord2) -> Content {
        self.grid()[c.y as int][c.x as int]
    }

    /// A fresh board of the given dimensions with every cell unknown.
    pub fn new(width: usize, height: usize, rounds: usize) -> (r: Self)
        requires
            width <= MAX_DIM,
            height <= MAX_DIM,
        ensures
            r.wf(),
            r.spec_width() == width,
            r.spec_height() == height,
            r.spec_rounds() == rounds,
            r.start_spec() is None,
            r.cmd_spec() is None,
            r.current_spec() is None,
            forall|c: UCoord2| r.in_board(c) ==> r.cell(c) == Content::Unknown,
    {
        let mut view: Vec<Vec<Content>> = Vec::new();
        while view.len() < height
            invariant
                view@.len() <= height,
                forall|y: int|
                    0 <= y < view@.len() ==> (#[trigger] view@[y])@ =~= Seq::new(
                        width as nat,
                        |x: int| Content::Unknown,
                    ),
            decreases height - view.len(),
        {
            let mut row: Vec<Content> = Vec::new();
            while row.len() < width
                invariant
                    row@.len() <= width,
                    forall|x: int| 0 <= x < row@.len() ==> row@[x] == Content::Unknown,
                decreases width - row.len(),
            {
                row.push(Content::Unknown);
            }
            proof {
                assert(row@ =~= Seq::new(width as nat, |x: int| Content::Unknown));
            }
            view.push(row);
        }
        Board {
            view,
            width,
            height,
            rounds,
            rick_current_coord: None,
            rick_start_coord: None,
            cmd_room_coord: None,
        }
    }

    /// Where the agent first stood, if any observation arrived yet.
    pub fn rick_start_coord(&self) -> (r: Option<UCoord2>)
        ensures
            r == self.start_spec(),
    {
        self.rick_start_coord
    }

    /// Where the goal room was observed, if it was observed yet.
    pub fn cmd_room_coord(&self) -> (r: Option<UCoord2>)
        ensures
            r == self.cmd_spec(),
    {
        self.cmd_room_coord
    }

    /// Whether `coord` is a cell of this grid.
    pub fn coord_is_in_board(&self, coord: &UCoord2) -> (r: bool)
        ensures
            r == self.in_board(*coord),
    {
        coord.x < self.width && coord.y < self.height
    }

    /// Current knowledge about an in-board cell.
    pub fn get_content(&self, coord: &UCoord2) -> (r: Content)
        requires
            self.wf(),
            self.in_board(*coord),
        ensures
            r == self.cell(*coord),
    {
        self.view[coord.y][coord.x]
    }

    /// The in-board neighbours of `start`, in rotation order from `first_dir`.
    pub fn neighbours_in_board_iter(&self, start: UCoord2, first_dir: Direction) -> (r: Vec<
        UCoord2,
    >)
        ensures
            r@ == in_board_filter(
                neighbours_from(start, first_dir, 4),
                self.spec_width() as int,
                self.spec_height() as int,
            ),
    {
        let ghost w = self.spec_width() as int;
        let ghost h = self.spec_height() as int;
        let ns = start.neighbours_iter(first_dir);
        let ghost full = ns@;
        let mut r: Vec<UCoord2> = Vec::new();
        let mut i: usize = 0;
        proof {
            assert(full.skip(0) =~= full);
        }
        while i < ns.len()
            invariant
                i <= ns@.len(),
                ns@ == full,
                w == self.spec_width() as int,
                h == self.spec_height() as int,
                in_board_filter(full, w, h) == r@ + in_board_filter(full.skip(i as int), w, h),
            decreases ns@.len() - i,
        {
            let c = ns[i];
            proof {
                assert(full.skip(i as int).drop_first() =~= full.skip(i as int + 1));
                assert(full.skip(i as int)[0] == full[i as int]);
            }
            let ghost r0 = r@;
            if c.x < self.width && c.y < self.height {
                r.push(c);
                proof {
                    assert(r@ =~= r0 + seq![c]);
                    assert(r0 + (seq![c] + in_board_filter(full.skip(i as int + 1), w, h)) =~= (r0
                        + seq![c]) + in_board_filter(full.skip(i as int + 1), w, h));
                }
            }
            i += 1;
        }
        proof {
            assert(full.skip(ns@.len() as int) =~= Seq::<UCoord2>::empty());
            assert(r@ + in_board_filter(Seq::<UCoord2>::empty(), w, h) =~= r@);
        }
        r
    }

    /// Draws the board as it is currently known, one text row per grid
    /// row: the agent's cell, the goal room, and each cell's knowledge.
    pub fn render(&self) -> (r: String)
        requires
            self.wf(),
        ensures
            r@ == render_rows(*self, self.spec_height() as int),
    {
        proof {
            reveal_strlit("");
            reveal_strlit("K");
            reveal_strlit("C");
            reveal_strlit("?");
            reveal_strlit(".");
            reveal_strlit("#");
            reveal_strlit("\n");
        }
        let mut r = String::from_str("");
        let mut y: usize = 0;
        proof {
            assert(r@ =~= render_rows(*self, 0));
        }
        while y < self.height
            invariant
                self.wf(),
                y <= self.height,
                r@ == render_rows(*self, y as int),
            decreases self.height - y,
        {
            let mut x: usize = 0;
            proof {
                assert(r@ =~= render_rows(*self, y as int) + render_row(*self, y as int, 0));
            }
            while x < self.width
                invariant
                    self.wf(),
                    y < self.height,
                    x <= self.width,
                    r@ == render_rows(*self, y as int) + render_row(*self, y as int, x as int),
                decreases self.width - x,
            {
                let coord = Vect2 { x, y };
                let agent_here = match self.rick_current_coord {
                    Some(c) => c.x == x && c.y == y,
                    None => false,
                };
                let goal_here = match self.cmd_room_coord {
                    Some(c) => c.x == x && c.y == y,
                    None => false,
                };
                if agent_here {
                    r.append("K");
                } else if goal_here {
                    r.append("C");
                } else {
                    match self.get_content(&coord) {
                        Content::Unknown => r.append("?"),
                        Content::Empty => r.append("."),
                        Content::Wall => r.append("#"),
                    }
                }
                proof {
                    reveal_strlit("K");
                    reveal_strlit("C");
                    reveal_strlit("?");
                    reveal_strlit(".");
                    reveal_strlit("#");
                    assert(r@ =~= render_rows(*self, y as int) + render_row(
                        *self,
                        y as int,
                        x as int + 1,
                    ));
                }
                x += 1;
            }
            r.append("\n");
            proof {
                reveal_strlit("\n");
                assert(r@ =~= render_rows(*self, y as int + 1));
            }
            y += 1;
        }
        r
    }

    /// Merges one observation window into the board: reveals the cells of
    /// the window centred on `rick_coord` that are still unknown, remembers
    /// the agent's first position as the start, the agent's position now,
    /// and the goal room once its symbol is seen. Cells already known are
    /// never changed, observed or not.
    pub fn update_with(&mut self, rick_coord: UCoord2, data: &Vec<String>)
        requires
            old(self).wf(),
            old(self).in_board(rick_coord),
            data@.len() == old(self).spec_height(),
            forall|y: int|
                0 <= y < data@.len() ==> (#[trigger] data@[y])@.len() == old(self).spec_width(),
        ensures
            final(self).wf(),
            final(self).spec_width() == old(self).spec_width(),
            final(self).spec_height() == old(self).spec_height(),
            final(self).spec_rounds() == old(self).spec_rounds(),
            final(self).current_spec() == Some(rick_coord),
            final(self).start_spec() == start_after(old(self).start_spec(), rick_coord),
            final(self).grid() == grid_after(
                old(self).grid(),
                rick_coord,
                data@.map_values(|s: String| s@),
                old(self).spec_width() as int,
                old(self).spec_height() as int,
            ),
            final(self).cmd_spec() == cmd_after(
                old(self).grid(),
                old(self).cmd_spec(),
                rick_coord,
                data@.map_values(|s: String| s@),
                old(self).spec_width() as int,
                old(self).spec_height() as int,
            ),
            // a known cell never reverts, and cells outside the window are untouched
            forall|c: UCoord2|
                final(self).in_board(c) && old(self).cell(c) != Content::Unknown
                    ==> final(self).cell(c) == old(self).cell(c),
    {
        let ghost g0 = self.grid();
        let ghost rows = data@.map_values(|s: String| s@);
        let ghost w = self.spec_width() as int;
        let ghost h = self.spec_height() as int;

        if self.rick_start_coord.is_none() {
            self.rick_start_coord = Some(rick_coord);
        }
        self.rick_current_coord = Some(rick_coord);

        let (y_lo, y_hi) = centered_range(rick_coord.y, self.height);
        let (x_lo, x_hi) = centered_range(rick_coord.x, self.width);

        let mut y = y_lo;
        while y < y_hi
            invariant
                self.wf(),
                self.width == old(self).width,
                self.height == old(self).height,
                self.rounds == old(self).rounds,
                w == self.spec_width() as int,
                h == self.spec_height() as int,
                rick_coord.x < self.width,
                rick_coord.y < self.height,
                data@.len() == h,
                rows == data@.map_values(|s: String| s@),
                self.rick_current_coord == Some(rick_coord),
                self.rick_start_coord == start_after(old(self).start_spec(), rick_coord),
                g0 == old(self).grid(),
                g0.len() == h,
                forall|yy: int| 0 <= yy < h ==> (#[trigger] g0[yy]).len() == w,
                rows.len() == h,
                forall|yy: int| 0 <= yy < h ==> (#[trigger] rows[yy]).len() == w,
                y_lo == centered_lo(rick_coord.y as int),
                y_hi == centered_hi(rick_coord.y as int, h),
                x_lo == centered_lo(rick_coord.x as int),
                x_hi == centered_hi(rick_coord.x as int, w),
                y_lo <= y <= y_hi,
                y_hi <= self.height,
                x_hi <= self.width,
                forall|yy: int, xx: int|
                    0 <= yy < h && 0 <= xx < w ==> #[trigger] self.grid()[yy][xx] == (if y_lo <= yy
                        < y && x_lo <= xx < x_hi {
                        cell_step(g0[yy][xx], rows[yy][xx])
                    } else {
                        g0[yy][xx]
                    }),
                self.cmd_room_coord == cmd_scan_rows(
                    g0,
                    rows,
                    y_lo as int,
                    y as int,
                    x_lo as int,
                    x_hi as int,
                    old(self).cmd_spec(),
                ),
            decreases y_hi - y,
        {
            let ghost grid_at_row_start = self.grid();
            let ghost cmd_at_row_start = self.cmd_room_coord;
            let mut x = x_lo;
            while x < x_hi
                invariant
                    self.wf(),
                    self.width == old(self).width,
                    self.height == old(self).height,
                    self.rounds == old(self).rounds,
                    w == self.spec_width() as int,
                    h == self.spec_height() as int,
                    rick_coord.x < self.width,
                    rick_coord.y < self.height,
                    data@.len() == h,
                    rows == data@.map_values(|s: String| s@),
                    self.rick_current_coord == Some(rick_coord),
                    self.rick_start_coord == start_after(old(self).start_spec(), rick_coord),
                    g0.len() == h,
                    forall|yy: int| 0 <= yy < h ==> (#[trigger] g0[yy]).len() == w,
                    rows.len() == h,
                    forall|yy: int| 0 <= yy < h ==> (#[trigger] rows[yy]).len() == w,
                    x_lo == centered_lo(rick_coord.x as int),
                    x_hi == centered_hi(rick_coord.x as int, w),
                    x_lo <= x <= x_hi,
                    x_hi <= self.width,
                    y_lo <= y < y_hi,
                    y_hi <= self.height,
                    forall|yy: int, xx: int|
                        0 <= yy < h && 0 <= xx < w ==> #[trigger] self.grid()[yy][xx] == (if (y_lo
                            <= yy < y && x_lo <= xx < x_hi) || (yy == y && x_lo <= xx < x) {
                            cell_step(g0[yy][xx], rows[yy][xx])
                        } else {
                            g0[yy][xx]
                        }),
                    self.cmd_room_coord == cmd_scan_row(
                        g0,
                        rows[y as int],
                        y as int,
                        x_lo as int,
                        x as int,
                        cmd_scan_rows(
                            g0,
                            rows,
                            y_lo as int,
                            y as int,
                            x_lo as int,
                            x_hi as int,
                            old(self).cmd_spec(),
                        ),
                    ),
                decreases x_hi - x,
            {
                let ghost gpre = self.grid();
                let ghost vpre = self.view@;
                let mut row: Vec<Content> = Vec::new();
                self.view.set_and_swap(y, &mut row);
                proof {
                    assert(row@ == gpre[y as int]);
                    assert(gpre[y as int][x as int] == g0[y as int][x as int]);
                }
                let content = row[x];
                if content == Content::Unknown {
                    let ch = data[y].as_str().get_char(x);
                    proof {
                        assert(rows[y as int] == data@[y as int]@);
                        assert(rows[y as int][x as int] == ch);
                    }
                    if ch == 'C' {
                        row.set(x, Content::Empty);
                        self.cmd_room_coord = Some(Vect2 { x, y });
                    } else if ch == '#' {
                        row.set(x, Content::Wall);
                    } else if ch == '.' || ch == 'T' {
                        row.set(x, Content::Empty);
                    }
                }
                self.view.set_and_swap(y, &mut row);
                proof {
                    assert(self.view@ =~= vpre.update(
                        y as int,
                        self.view@[y as int],
                    ));
                    assert(self.view@[y as int]@ =~= gpre[y as int].update(
                        x as int,
                        cell_step(g0[y as int][x as int], rows[y as int][x as int]),
                    ));
                    assert forall|yy: int, xx: int| 0 <= yy < h && 0 <= xx < w implies
                        #[trigger] self.grid()[yy][xx] == (if yy == y && xx == x {
                            cell_step(g0[yy][xx], rows[yy][xx])
                        } else {
                            gpre[yy][xx]
                        }) by {
                        assert(self.grid()[yy] == self.view@[yy]@);
                        assert(gpre[yy] == vpre[yy]@);
                    }
                }
                x += 1;
            }
            y += 1;
        }
        proof {
            assert(self.grid() =~~= grid_after(g0, rick_coord, rows, w, h));
        }
    }
}

/// The dimensions a well-formed board guarantees, for callers that cannot
/// see the board's representation.
pub proof fn lemma_wf_bounds(b: &Board)
    requires
        b.wf(),
    ensures
        b.spec_width() <= MAX_DIM,
        b.spec_height() <= MAX_DIM,
        b.grid().len() == b.spec_height(),
        forall|y: int|
            0 <= y < b.spec_height() ==> (#[trigger] b.grid()[y]).len() == b.spec_width(),
{
}

/// Filtering keeps exactly the in-board members of a sequence.
pub proof fn lemma_in_board_filter_contains(s: Seq<UCoord2>, w: int, h: int, x: UCoord2)
    ensures
        in_board_filter(s, w, h).contains(x) <==> (s.contains(x) && x.x < w && x.y < h),
    decreases s.len(),
{
    broadcast use vstd::seq_lib::lemma_seq_concat_contains_all_elements;

    if s.len() == 0 {
    } else {
        lemma_in_board_filter_contains(s.drop_first(), w, h, x);
        assert(s.contains(x) <==> (s[0] == x || s.drop_first().contains(x))) by {
            if s.contains(x) {
                let i = choose|i: int| 0 <= i < s.len() && s[i] == x;
                if i > 0 {
                    assert(s.drop_first()[i - 1] == x);
                }
            }
            if s.drop_first().contains(x) {
                let i = choose|i: int| 0 <= i < s.drop_first().len() && s.drop_first()[i] == x;
                assert(s[i + 1] == x);
            }
        }
        if s[0].x < w && s[0].y < h {
            assert(seq![s[0]][0] == s[0]);
            assert(seq![s[0]].contains(s[0]));
        }
    }
}

/// The in-board neighbour list holds exactly the in-board cells adjacent to
/// its origin: what `neighbours_in_board_iter` returns is characterized by
/// adjacency alone, whatever the starting direction.
pub proof fn lemma_neighbour_list_members(c: UCoord2, d0: Direction, w: int, h: int, b: UCoord2)
    ensures
        in_board_filter(neighbours_from(c, d0, 4), w, h).contains(b) <==> (adjacent(c, b) && b.x
            < w && b.y < h),
{
    lemma_in_board_filter_contains(neighbours_from(c, d0, 4), w, h, b);
    if adjacent(c, b) && b.x < w && b.y < h {
        crate::direction::lemma_adjacent_is_neighbour(c, b);
        let d = choose|d: Direction|
            crate::direction::has_neighbour(c, d) && crate::direction::neighbour_spec(c, d) == b;
        crate::direction::lemma_neighbours_from_complete(c, d0, d);
    }
    if in_board_filter(neighbours_from(c, d0, 4), w, h).contains(b) {
        crate::direction::lemma_neighbours_from_members(c, d0);
    }
}

/// A row scan that meets no goal candidate leaves the accumulator as it is.
proof fn lemma_scan_row_stable(
    g: Seq<Seq<Content>>,
    row: Seq<char>,
    y: int,
    x_lo: int,
    x: int,
    acc: Option<UCoord2>,
)
    requires
        forall|xx: int| x_lo <= xx < x ==> (#[trigger] g[y][xx]) != Content::Unknown || row[xx]
            != 'C',
    ensures
        cmd_scan_row(g, row, y, x_lo, x, acc) == acc,
    decreases x - x_lo,
{
    if x > x_lo {
        lemma_scan_row_stable(g, row, y, x_lo, x - 1, acc);
    }
}

/// A window scan that meets no goal candidate leaves the accumulator as it is.
proof fn lemma_scan_rows_stable(
    g: Seq<Seq<Content>>,
    rows: Seq<Seq<char>>,
    y_lo: int,
    y: int,
    x_lo: int,
    x_hi: int,
    acc: Option<UCoord2>,
)
    requires
        forall|yy: int, xx: int|
            y_lo <= yy < y && x_lo <= xx < x_hi ==> (#[trigger] g[yy][xx]) != Content::Unknown
                || rows[yy][xx] != 'C',
    ensures
        cmd_scan_rows(g, rows, y_lo, y, x_lo, x_hi, acc) == acc,
    decreases y - y_lo,
{
    if y > y_lo {
        lemma_scan_rows_stable(g, rows, y_lo, y - 1, x_lo, x_hi, acc);
        lemma_scan_row_stable(g, rows[y - 1], y - 1, x_lo, x_hi, acc);
    }
}

/// Merging the same observation twice gives the same map as merging it once:
/// the grid, the remembered goal room and the remembered start all stay as
/// the first merge left them.
pub proof fn lemma_update_idempotent(
    g: Seq<Seq<Content>>,
    cmd0: Option<UCoord2>,
    start0: Option<UCoord2>,
    rick: UCoord2,
    rows: Seq<Seq<char>>,
    w: int,
    h: int,
)
    requires
        g.len() == h,
        forall|y: int| 0 <= y < h ==> (#[trigger] g[y]).len() == w,
        rick.x < w,
        rick.y < h,
    ensures
        grid_after(grid_after(g, rick, rows, w, h), rick, rows, w, h) == grid_after(
            g,
            rick,
            rows,
            w,
            h,
        ),
        cmd_after(
            grid_after(g, rick, rows, w, h),
            cmd_after(g, cmd0, rick, rows, w, h),
            rick,
            rows,
            w,
            h,
        ) == cmd_after(g, cmd0, rick, rows, w, h),
        start_after(start_after(start0, rick), rick) == start_after(start0, rick),
{
    let g1 = grid_after(g, rick, rows, w, h);
    assert(grid_after(g1, rick, rows, w, h) =~~= g1);
    let y_lo = centered_lo(rick.y as int);
    let y_hi = centered_hi(rick.y as int, h);
    let x_lo = centered_lo(rick.x as int);
    let x_hi = centered_hi(rick.x as int, w);
    assert forall|yy: int, xx: int|
        y_lo <= yy < y_hi && x_lo <= xx < x_hi implies (#[trigger] g1[yy][xx])
        != Content::Unknown || rows[yy][xx] != 'C' by {
        assert(0 <= yy < h && 0 <= xx < w);
        assert(in_window(rick, xx, yy, w, h));
        assert(g1[yy][xx] == cell_step(g[yy][xx], rows[yy][xx]));
    }
    lemma_scan_rows_stable(g1, rows, y_lo, y_hi, x_lo, x_hi, cmd_after(g, cmd0, rick, rows, w, h));
}

/// The display symbol of cell `(x, y)`: the agent's cell shows the agent,
/// the observed goal room its marker, and every other cell its knowledge.
pub open spec fn render_cell(b: Board, x: int, y: int) -> char {
    if (match b.current_spec() {
        Some(c) => c.x == x && c.y == y,
        None => false,
    }) {
        'K'
    } else if (match b.cmd_spec() {
        Some(c) => c.x == x && c.y == y,
        None => false,
    }) {
        'C'
    } else {
        match b.grid()[y][x] {
            Content::Unknown => '?',
            Content::Empty => '.',
            Content::Wall => '#',
        }
    }
}

/// The first `x` rendered cells of row `y`.
pub open spec fn render_row(b: Board, y: int, x: int) -> Seq<char>
    decreases x,
{
    if x <= 0 {
        Seq::empty()
    } else {
        render_row(b, y, x - 1).push(render_cell(b, x - 1, y))
    }
}

/// The first `y` rendered rows, each closed by a line feed.
pub open spec fn render_rows(b: Board, y: int) -> Seq<char>
    decreases y,
{
    if y <= 0 {
        Seq::empty()
    } else {
        render_rows(b, y - 1) + render_row(b, y - 1, b.spec_width() as int).push('\n')
    }
}

/// The members of `s` that lie on a `w` by `h` grid, in their order in `s`.
pub open spec fn in_board_filter(s: Seq<UCoord2>, w: int, h: int) -> Seq<UCoord2>
    decreases s.len(),
{
    if s.len() == 0 {
        Seq::empty()
    } else {
        let rest = in_board_filter(s.drop_first(), w, h);
        if s[0].x < w && s[0].y < h {
            seq![s[0]] + rest
        } else {
            rest
        }
    }
}

} // verus!
