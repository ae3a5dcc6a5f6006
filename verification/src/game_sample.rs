use vstd::prelude::*;
use vstd::pervasive::VecAdditionalExecFns;

use crate::direction::{neighbour_spec, Direction};
use crate::range_helper::{centered_hi, centered_lo, centered_range};
use crate::vect2_t::{UCoord2, Vect2};

verus! {

/// Whether the characters of `s` are exactly those of `pat`.
fn str_is(s: &str, pat: &str) -> (r: bool)
    ensures
        r == (s@ == pat@),
{
    let n = s.unicode_len();
    let m = pat.unicode_len();
    if n != m {
        proof {
            if s@ == pat@ {
                assert(s@.len() == pat@.len());
            }
        }
        return false;
    }
    let mut i: usize = 0;
    while i < n
        invariant
            i <= n,
            n == s@.len(),
            n == pat@.len(),
            forall|j: int| 0 <= j < i ==> s@[j] == pat@[j],
        decreases n - i,
    {
        if s.get_char(i) != pat.get_char(i) {
            return false;
        }
        i += 1;
    }
    proof {
        assert(s@ =~= pat@);
    }
    true
}

/// The view symbol of a cell not revealed yet: `?`.
pub const UNREVEALED: u8 = 63;

/// The view symbol of the agent's own cell: `K`.
pub const AGENT_SYMBOL: u8 = 75;

/// A recorded maze that feeds the agent the same bounded observation
/// windows live input would: it keeps the full map, the part revealed so
/// far, and the agent's simulated position.
pub struct GameSample {
    orig_board_rows_data: Vec<Vec<u8>>,
    view: Vec<Vec<u8>>,
    width: usize,
    height: usize,
    start: UCoord2,
    rounds: i32,
    current: UCoord2,
}

impl GameSample {
    pub closed spec fn rows_spec(&self) -> Seq<Seq<u8>> {
        self.orig_board_rows_data@.map_values(|rv: Vec<u8>| rv@)
    }

    pub closed spec fn view_spec(&self) -> Seq<Seq<u8>> {
        self.view@.map_values(|rv: Vec<u8>| rv@)
    }

    pub closed spec fn spec_width(&self) -> usize {
        self.width
    }

    pub closed spec fn spec_height(&self) -> usize {
        self.height
    }

    pub closed spec fn spec_rounds(&self) -> i32 {
        self.rounds
    }

    pub closed spec fn start_spec(&self) -> UCoord2 {
        self.start
    }

    pub closed spec fn current_spec(&self) -> UCoord2 {
        self.current
    }

    /// The recorded map and the revealed view are full rectangles of the
    /// same dimensions, and the agent stands on them.
    pub closed spec fn wf(&self) -> bool {
        &&& self.orig_board_rows_data@.len() == self.height
        &&& forall|y: int|
            0 <= y < self.height ==> (#[trigger] self.orig_board_rows_data@[y])@.len()
                == self.width
        &&& self.view@.len() == self.height
        &&& forall|y: int| 0 <= y < self.height ==> (#[trigger] self.view@[y])@.len() == self.width
        &&& self.height > 0
        &&& self.width > 0
        &&& self.current.x < self.width
        &&& self.current.y < self.height
        &&& self.start.x < self.width
        &&& self.start.y < self.height
    }

    /// Builds a sample from an already parsed header and map: the agent
    /// starts at `start`, and nothing of the map is revealed yet.
    pub fn from_rows(start: UCoord2, rounds: i32, rows: Vec<Vec<u8>>) -> (r: GameSample)
        requires
            rows@.len() > 0,
            rows@[0]@.len() > 0,
            forall|y: int| 0 <= y < rows@.len() ==> (#[trigger] rows@[y])@.len() == rows@[0]@.len(),
            start.y < rows@.len(),
            start.x < rows@[0]@.len(),
        ensures
            r.wf(),
            r.rows_spec() == rows@.map_values(|rv: Vec<u8>| rv@),
            r.spec_height() == rows@.len(),
            r.spec_width() == rows@[0]@.len(),
            r.spec_rounds() == rounds,
            r.start_spec() == start,
            r.current_spec() == start,
            forall|y: int, x: int|
                0 <= y < r.spec_height() && 0 <= x < r.spec_width() ==> r.view_spec()[y][x] == UNREVEALED,
    {
        let height = rows.len();
        let width = rows[0].len();
        let mut view: Vec<Vec<u8>> = Vec::new();
        while view.len() < height
            invariant
                view@.len() <= height,
                forall|y: int|
                    0 <= y < view@.len() ==> (#[trigger] view@[y])@ =~= Seq::new(
                        width as nat,
                        |x: int| UNREVEALED,
                    ),
            decreases height - view.len(),
        {
            let mut row: Vec<u8> = Vec::new();
            while row.len() < width
                invariant
                    row@.len() <= width,
                    forall|x: int| 0 <= x < row@.len() ==> row@[x] == UNREVEALED,
                decreases width - row.len(),
            {
                row.push(UNREVEALED);
            }
            proof {
                assert(row@ =~= Seq::new(width as nat, |x: int| UNREVEALED));
            }
            view.push(row);
        }
        GameSample { orig_board_rows_data: rows, view, width, height, start, rounds, current: start }
    }

    pub fn width(&self) -> (r: usize)
        ensures
            r == self.spec_width(),
    {
        self.width
    }

    pub fn height(&self) -> (r: usize)
        ensures
            r == self.spec_height(),
    {
        self.height
    }

    pub fn rounds(&self) -> (r: i32)
        ensures
            r == self.spec_rounds(),
    {
        self.rounds
    }

    pub fn current(&self) -> (r: UCoord2)
        ensures
            r == self.current_spec(),
    {
        self.current
    }

    pub fn start(&self) -> (r: UCoord2)
        ensures
            r == self.start_spec(),
    {
        self.start
    }

    /// One revealed row of the view, as the per-turn protocol emits it.
    pub fn view_row(&self, y: usize) -> (r: &Vec<u8>)
        requires
            self.wf(),
            y < self.spec_height(),
        ensures
            r@ == self.view_spec()[y as int],
    {
        &self.view[y]
    }

    /// One row of the recorded map.
    pub fn orig_row(&self, y: usize) -> (r: &Vec<u8>)
        requires
            self.wf(),
            y < self.spec_height(),
        ensures
            r@ == self.rows_spec()[y as int],
    {
        &self.orig_board_rows_data[y]
    }

    /// Reveals the observation window around the agent's position: inside
    /// the window the view takes the recorded map's symbols, the agent's
    /// own cell shows the agent, and everything else keeps what earlier
    /// turns revealed.
    pub fn update_view(&mut self)
        requires
            old(self).wf(),
        ensures
            final(self).wf(),
            final(self).spec_width() == old(self).spec_width(),
            final(self).spec_height() == old(self).spec_height(),
            final(self).spec_rounds() == old(self).spec_rounds(),
            final(self).start_spec() == old(self).start_spec(),
            final(self).current_spec() == old(self).current_spec(),
            final(self).rows_spec() == old(self).rows_spec(),
            forall|y: int, x: int|
                0 <= y < old(self).spec_height() && 0 <= x < old(self).spec_width()
                    ==> final(self).view_spec()[y][x] == (if x == old(self).current_spec().x
                    && y == old(self).current_spec().y {
                    AGENT_SYMBOL
                } else if crate::board::in_window(
                    old(self).current_spec(),
                    x,
                    y,
                    old(self).spec_width() as int,
                    old(self).spec_height() as int,
                ) {
                    old(self).rows_spec()[y][x]
                } else {
                    old(self).view_spec()[y][x]
                }),
    {
        let ghost v0 = self.view_spec();
        let ghost rows = self.rows_spec();
        let ghost w = self.spec_width() as int;
        let ghost h = self.spec_height() as int;
        let cur = self.current;
        let (y_lo, y_hi) = centered_range(cur.y, self.height);
        let (x_lo, x_hi) = centered_range(cur.x, self.width);
        let mut y = y_lo;
        while y < y_hi
            invariant
                self.wf(),
                self.width == old(self).width,
                self.height == old(self).height,
                self.rounds == old(self).rounds,
                self.start == old(self).start,
                self.current == old(self).current,
                cur == old(self).current,
                self.rows_spec() == rows,
                w == self.spec_width() as int,
                h == self.spec_height() as int,
                rows.len() == h,
                forall|yy: int| 0 <= yy < h ==> (#[trigger] rows[yy]).len() == w,
                v0.len() == h,
                forall|yy: int| 0 <= yy < h ==> (#[trigger] v0[yy]).len() == w,
                y_lo == centered_lo(cur.y as int),
                y_hi == centered_hi(cur.y as int, h),
                x_lo == centered_lo(cur.x as int),
                x_hi == centered_hi(cur.x as int, w),
                y_lo <= y <= y_hi,
                y_hi <= self.height,
                x_hi <= self.width,
                forall|yy: int, xx: int|
                    0 <= yy < h && 0 <= xx < w ==> #[trigger] self.view_spec()[yy][xx] == (if y_lo
                        <= yy < y && x_lo <= xx < x_hi {
                        rows[yy][xx]
                    } else {
                        v0[yy][xx]
                    }),
            decreases y_hi - y,
        {
            let ghost vpre_grid = self.view_spec();
            let ghost vpre = self.view@;
            let mut row: Vec<u8> = Vec::new();
            self.view.set_and_swap(y, &mut row);
            proof {
                assert(row@ == vpre_grid[y as int]);
            }
            let mut x = x_lo;
            while x < x_hi
                invariant
                    x_lo <= x <= x_hi,
                    x_hi <= self.width,
                    y_lo <= y < y_hi,
                    y_hi <= self.height,
                    self.width == old(self).width,
                    self.height == old(self).height,
                    w == self.width as int,
                    h == self.height as int,
                    rows.len() == h,
                    forall|yy: int| 0 <= yy < h ==> (#[trigger] rows[yy]).len() == w,
                    self.rows_spec() == rows,
                    self.orig_board_rows_data@.len() == h,
                    forall|yy: int|
                        0 <= yy < h ==> (#[trigger] self.orig_board_rows_data@[yy])@.len() == w,
                    row@.len() == w,
                    forall|xx: int|
                        0 <= xx < w ==> #[trigger] row@[xx] == (if x_lo <= xx < x {
                            rows[y as int][xx]
                        } else {
                            vpre_grid[y as int][xx]
                        }),
                decreases x_hi - x,
            {
                let orig_row = &self.orig_board_rows_data[y];
                let sym = orig_row[x];
                proof {
                    assert(rows[y as int] == self.orig_board_rows_data@[y as int]@);
                }
                row.set(x, sym);
                x += 1;
            }
            self.view.set_and_swap(y, &mut row);
            proof {
                assert(self.view@ =~= vpre.update(y as int, self.view@[y as int]));
                assert forall|yy: int, xx: int| 0 <= yy < h && 0 <= xx < w implies
                    #[trigger] self.view_spec()[yy][xx] == (if yy == y && x_lo <= xx < x_hi {
                        rows[yy][xx]
                    } else {
                        vpre_grid[yy][xx]
                    }) by {
                    assert(self.view_spec()[yy] == self.view@[yy]@);
                    assert(vpre_grid[yy] == vpre[yy]@);
                }
            }
            y += 1;
        }
        // the agent's own cell always shows the agent
        let ghost vk = self.view@;
        let ghost vk_grid = self.view_spec();
        let mut row: Vec<u8> = Vec::new();
        self.view.set_and_swap(cur.y, &mut row);
        row.set(cur.x, AGENT_SYMBOL);
        self.view.set_and_swap(cur.y, &mut row);
        proof {
            assert(self.view@ =~= vk.update(cur.y as int, self.view@[cur.y as int]));
            assert(self.view@[cur.y as int]@ =~= vk_grid[cur.y as int].update(
                cur.x as int,
                AGENT_SYMBOL,
            ));
            assert forall|yy: int, xx: int| 0 <= yy < h && 0 <= xx < w implies
                #[trigger] self.view_spec()[yy][xx] == (if yy == cur.y && xx == cur.x {
                    AGENT_SYMBOL
                } else {
                    vk_grid[yy][xx]
                }) by {
                assert(self.view_spec()[yy] == self.view@[yy]@);
                assert(vk_grid[yy] == vk[yy]@);
            }
        }
    }

    /// Applies one emitted direction token: the agent's simulated position
    /// moves one cell that way. The move must stay on the map, as every
    /// legal game move does.
    pub fn set_action(&mut self, action: &str)
        requires
            old(self).wf(),
            action@ == "RIGHT"@ || action@ == "DOWN"@ || action@ == "LEFT"@ || action@ == "UP"@,
            action@ == "RIGHT"@ ==> old(self).current_spec().x + 1 < old(self).spec_width(),
            action@ == "DOWN"@ ==> old(self).current_spec().y + 1 < old(self).spec_height(),
            action@ == "LEFT"@ ==> old(self).current_spec().x > 0,
            action@ == "UP"@ ==> old(self).current_spec().y > 0,
        ensures
            final(self).wf(),
            final(self).spec_width() == old(self).spec_width(),
            final(self).spec_height() == old(self).spec_height(),
            final(self).spec_rounds() == old(self).spec_rounds(),
            final(self).start_spec() == old(self).start_spec(),
            final(self).rows_spec() == old(self).rows_spec(),
            final(self).view_spec() == old(self).view_spec(),
            action@ == "RIGHT"@ ==> final(self).current_spec() == neighbour_spec(
                old(self).current_spec(),
                Direction::Right,
            ),
            action@ == "DOWN"@ ==> final(self).current_spec() == neighbour_spec(
                old(self).current_spec(),
                Direction::Down,
            ),
            action@ == "LEFT"@ ==> final(self).current_spec() == neighbour_spec(
                old(self).current_spec(),
                Direction::Left,
            ),
            action@ == "UP"@ ==> final(self).current_spec() == neighbour_spec(
                old(self).current_spec(),
                Direction::Up,
            ),
    {
        proof {
            reveal_strlit("RIGHT");
            reveal_strlit("DOWN");
            reveal_strlit("LEFT");
            reveal_strlit("UP");
            assert("RIGHT"@.len() == 5);
            assert("DOWN"@.len() == 4);
            assert("LEFT"@.len() == 4);
            assert("UP"@.len() == 2);
            assert("DOWN"@ != "LEFT"@) by {
                assert("DOWN"@[0] != "LEFT"@[0]);
            }
        }
        if str_is(action, "RIGHT") {
            self.current = Vect2 { x: self.current.x + 1, y: self.current.y };
        } else if str_is(action, "DOWN") {
            self.current = Vect2 { x: self.current.x, y: self.current.y + 1 };
        } else if str_is(action, "LEFT") {
            self.current = Vect2 { x: self.current.x - 1, y: self.current.y };
        } else {
            proof {
                assert(action@ == "UP"@);
            }
            self.current = Vect2 { x: self.current.x, y: self.current.y - 1 };
        }
    }
}

/// The decimal digits of a nonnegative number, most significant first, as
/// ASCII bytes.
pub open spec fn dec_bytes(n: int) -> Seq<u8>
    decreases n,
{
    if n < 10 {
        seq![(48 + n) as u8]
    } else {
        dec_bytes(n / 10).push((48 + n % 10) as u8)
    }
}

/// Appends the decimal digits of `n` to `buf`.
fn append_usize_decimal(buf: &mut Vec<u8>, n: usize)
    ensures
        final(buf)@ == old(buf)@ + dec_bytes(n as int),
    decreases n,
{
    let ghost b0 = buf@;
    if n >= 10 {
        append_usize_decimal(buf, n / 10);
    }
    let d = n % 10;
    buf.push(48 + d as u8);
    proof {
        if n >= 10 {
            assert(buf@ =~= b0 + dec_bytes(n as int));
        } else {
            assert(buf@ =~= b0 + dec_bytes(n as int));
        }
    }
}

/// The ASCII space between the fields of a protocol line.
pub const FIELD_SEPARATOR: u8 = 32;

/// The ASCII line feed that ends every protocol line.
pub const LINE_FEED: u8 = 10;

/// Emits, line by line, exactly what live input would send for the recorded
/// maze: in init mode one header line `height width rounds`; per round the
/// agent's `row column` line followed by one revealed view row per grid row,
/// then end of input.
pub struct GameSampleStdin<'a> {
    source: &'a GameSample,
    for_init: bool,
    line_counter: usize,
}

impl<'a> GameSampleStdin<'a> {
    pub closed spec fn source_spec(&self) -> GameSample {
        *self.source
    }

    pub closed spec fn for_init_spec(&self) -> bool {
        self.for_init
    }

    pub closed spec fn counter_spec(&self) -> usize {
        self.line_counter
    }

    fn new(source: &'a GameSample, for_init: bool) -> (r: Self)
        ensures
            r.source_spec() == *source,
            r.for_init_spec() == for_init,
            r.counter_spec() == 0,
    {
        Self { source, for_init, line_counter: 0 }
    }

    /// The next protocol line, written into `buf`: a header or position
    /// line is appended, a view row replaces the buffer. Returns the bytes
    /// the buffer holds, and zero at end of input.
    pub fn read_line(&mut self, buf: &mut Vec<u8>) -> (r: usize)
        requires
            old(self).source_spec().wf(),
            old(self).for_init_spec() ==> old(self).source_spec().spec_rounds() >= 0,
            old(self).counter_spec() < usize::MAX,
        ensures
            final(self).source_spec() == old(self).source_spec(),
            final(self).for_init_spec() == old(self).for_init_spec(),
            old(self).for_init_spec() && old(self).counter_spec() == 0 ==> final(buf)@ == old(buf)@ + dec_bytes(old(self).source_spec().spec_height() as int) + seq![FIELD_SEPARATOR]
                + dec_bytes(old(self).source_spec().spec_width() as int) + seq![FIELD_SEPARATOR]
                + dec_bytes(old(self).source_spec().spec_rounds() as int) + seq![LINE_FEED] && r
                == final(buf)@.len() && final(self).counter_spec() == 1,
            old(self).for_init_spec() && old(self).counter_spec() >= 1 ==> r == 0 && final(buf)@
                == old(buf)@,
            !old(self).for_init_spec() && old(self).counter_spec() == 0 ==> final(buf)@ == old(buf)@ + dec_bytes(old(self).source_spec().current_spec().y as int) + seq![FIELD_SEPARATOR]
                + dec_bytes(old(self).source_spec().current_spec().x as int) + seq![LINE_FEED] && r
                == final(buf)@.len() && final(self).counter_spec() == 1,
            !old(self).for_init_spec() && 1 <= old(self).counter_spec() <= old(self).source_spec().spec_height() ==> final(buf)@ == old(self).source_spec().view_spec()[
                old(self).counter_spec() - 1
            ] + seq![LINE_FEED] && r == final(buf)@.len() && final(self).counter_spec() == old(self).counter_spec() + 1,
            !old(self).for_init_spec() && old(self).counter_spec() > old(self).source_spec().spec_height() ==> r == 0 && final(buf)@ == old(buf)@,
    {
        if self.for_init {
            self.line_counter += 1;
            if self.line_counter == 1 {
                append_usize_decimal(buf, self.source.height());
                buf.push(FIELD_SEPARATOR);
                append_usize_decimal(buf, self.source.width());
                buf.push(FIELD_SEPARATOR);
                append_usize_decimal(buf, self.source.rounds() as usize);
                buf.push(LINE_FEED);
                return buf.len();
            } else {
                return 0;
            }
        }
        if self.line_counter > self.source.height() {
            return 0;
        }
        self.line_counter += 1;
        if self.line_counter == 1 {
            let cur = self.source.current();
            append_usize_decimal(buf, cur.y);
            buf.push(FIELD_SEPARATOR);
            append_usize_decimal(buf, cur.x);
            buf.push(LINE_FEED);
            buf.len()
        } else {
            let row = self.source.view_row(self.line_counter - 2);
            buf.clear();
            buf.extend_from_slice(row.as_slice());
            buf.push(LINE_FEED);
            proof {
                assert(buf@ =~= self.source.view_spec()[self.line_counter - 2] + seq![LINE_FEED]);
            }
            buf.len()
        }
    }
}

impl GameSample {
    /// A reader that serves the initialization header.
    pub fn init_data_reader(&self) -> (r: GameSampleStdin<'_>)
        ensures
            r.source_spec() == *self,
            r.for_init_spec(),
            r.counter_spec() == 0,
    {
        GameSampleStdin::new(self, true)
    }

    /// A reader that serves one round's lines over the view exactly as it
    /// stands. The per-turn protocol shows the window around the agent, so
    /// a round's caller must call `update_view` first and only then take
    /// the reader; the reader itself cannot reveal, since it only borrows
    /// the sample it reads from.
    pub fn round_data_reader(&self) -> (r: GameSampleStdin<'_>)
        ensures
            r.source_spec() == *self,
            !r.for_init_spec(),
            r.counter_spec() == 0,
    {
        GameSampleStdin::new(self, false)
    }
}

} // verus!

