pub mod board;
pub mod cell;

use vstd::prelude::*;
use vstd::string::StrSliceExecFns;
use vstd::utf8::encode_utf8;

verus! {

/// The byte that marks a live cell in a board file: `#`.
pub const FILE_LIVE_CHAR: u8 = 35;

/// The byte that marks a dead cell in a board file: `_`.
pub const FILE_DEAD_CHAR: u8 = 95;

/// Border options
#[derive(Debug, Clone, PartialEq, Eq, Structural)]
pub enum BorderOpt {
    /// Consider the border as "alive"
    Solid,
    /// Consider the border as "dead"
    Empty,
    /// Consider the border as the opposite side of the board
    Loop,
}

/// A simple cell
#[derive(Debug, Clone, Copy, PartialEq, Eq, Structural)]
pub enum Cell {
    /// The cell is alive (true)
    Alive,
    /// The cell is dead (false)
    Dead,
}

/// The two characters that stand for one cell in a rendered board.
pub open spec fn cell_chars(c: Cell) -> Seq<char> {
    match c {
        Cell::Alive => "▓▓"@,
        Cell::Dead => "░░"@,
    }
}

impl Cell {
    /// The textual form of this cell: a dark block when alive, a light one
    /// when dead.
    pub fn render(&self) -> (s: String)
        ensures
            s@ == cell_chars(*self),
    {
        match self {
            Cell::Alive => "▓▓".to_owned(),
            Cell::Dead => "░░".to_owned(),
        }
    }
}

/// The weight a site of a square grid of side `n` contributes to a neighbor
/// count: a live cell weighs 1, a dead one 0, and a site beyond the edge
/// weighs whatever the border option says (1 for a solid border, else 0).
pub open spec fn site_weight(g: Seq<Seq<Cell>>, border: BorderOpt, n: int, x: int, y: int) -> nat {
    if 0 <= x < n && 0 <= y < n {
        if g[x][y] == Cell::Alive {
            1
        } else {
            0
        }
    } else {
        if border == BorderOpt::Solid {
            1
        } else {
            0
        }
    }
}

/// The weight of the eight sites around `(x, y)`.
pub open spec fn neighbor_weight(g: Seq<Seq<Cell>>, border: BorderOpt, n: int, x: int, y: int) -> nat {
    site_weight(g, border, n, x - 1, y - 1) + site_weight(g, border, n, x - 1, y) + site_weight(
        g,
        border,
        n,
        x - 1,
        y + 1,
    ) + site_weight(g, border, n, x, y - 1) + site_weight(g, border, n, x, y + 1) + site_weight(
        g,
        border,
        n,
        x + 1,
        y - 1,
    ) + site_weight(g, border, n, x + 1, y) + site_weight(g, border, n, x + 1, y + 1)
}

/// Whether the cell at `(x, y)` is live in the next generation: exactly
/// three live neighbors give life, exactly two preserve it, anything else
/// kills.
pub open spec fn should_live(g: Seq<Seq<Cell>>, border: BorderOpt, n: int, x: int, y: int) -> bool {
    neighbor_weight(g, border, n, x, y) == 3 || (neighbor_weight(g, border, n, x, y) == 2
        && g[x][y] == Cell::Alive)
}

/// The state the cell at `(x, y)` takes in the next generation.
pub open spec fn target_cell(g: Seq<Seq<Cell>>, border: BorderOpt, n: int, x: int, y: int) -> Cell {
    if should_live(g, border, n, x, y) {
        Cell::Alive
    } else {
        Cell::Dead
    }
}

/// The whole square grid, advanced by one generation.
pub open spec fn step_grid(g: Seq<Seq<Cell>>, border: BorderOpt, n: int) -> Seq<Seq<Cell>> {
    Seq::new(n as nat, |x: int| Seq::new(n as nat, |y: int| target_cell(g, border, n, x, y)))
}

/// The whole square grid, advanced by `k` generations.
pub open spec fn step_grid_n(g: Seq<Seq<Cell>>, border: BorderOpt, n: int, k: nat) -> Seq<Seq<
    Cell,
>>
    decreases k,
{
    if k == 0 {
        g
    } else {
        step_grid(step_grid_n(g, border, n, (k - 1) as nat), border, n)
    }
}

/// The text of the first `k` cells of one rendered row.
pub open spec fn render_row_upto(row: Seq<Cell>, k: int) -> Seq<char>
    decreases k,
{
    if k <= 0 {
        Seq::empty()
    } else {
        render_row_upto(row, k - 1) + cell_chars(row[k - 1])
    }
}

/// The text of the first `k` rendered rows of a grid of width `w`: each row
/// two characters per cell, closed by a line break.
pub open spec fn render_rows_upto(g: Seq<Seq<Cell>>, w: int, k: int) -> Seq<char>
    decreases k,
{
    if k <= 0 {
        Seq::empty()
    } else {
        render_rows_upto(g, w, k - 1) + render_row_upto(g[k - 1], w) + "\n"@
    }
}

/// The full text of a rendered grid.
pub open spec fn render_grid(g: Seq<Seq<Cell>>, w: int, h: int) -> Seq<char> {
    render_rows_upto(g, w, h)
}

/// The row of cells a line of text stands for: `#` is a live cell,
/// anything else a dead one.
pub open spec fn cells_of_bytes(bs: Seq<u8>) -> Seq<Cell> {
    Seq::new(
        bs.len(),
        |i: int|
            if bs[i] == FILE_LIVE_CHAR {
                Cell::Alive
            } else {
                Cell::Dead
            },
    )
}

/// The border option a line of text names, if any.
pub open spec fn border_opt_of(s: Seq<char>) -> Option<BorderOpt> {
    if s == "solid"@ {
        Some(BorderOpt::Solid)
    } else if s == "empty"@ {
        Some(BorderOpt::Empty)
    } else {
        None
    }
}

/// The border option a board file's first line chooses; an unrecognized
/// one falls back to an empty border.
pub open spec fn border_or_default(s: Seq<char>) -> BorderOpt {
    match border_opt_of(s) {
        Some(b) => b,
        None => BorderOpt::Empty,
    }
}

/// A pending update is sound when it lies on the board and records exactly
/// the change the rule asks for at its position.
spec fn update_ok(u: (usize, usize, Cell), g: Seq<Seq<Cell>>, border: BorderOpt, n: int) -> bool {
    &&& u.0 < n
    &&& u.1 < n
    &&& u.2 == target_cell(g, border, n, u.0 as int, u.1 as int)
    &&& u.2 != g[u.0 as int][u.1 as int]
}

/// Whether the pending updates take care of position `(px, py)`: either the
/// rule keeps the cell as it is, or some update rewrites it.
spec fn covered(
    updates: Seq<(usize, usize, Cell)>,
    g: Seq<Seq<Cell>>,
    border: BorderOpt,
    n: int,
    px: int,
    py: int,
) -> bool {
    target_cell(g, border, n, px, py) != g[px][py] ==> exists|j: int|
        0 <= j < updates.len() && updates[j].0 == px && updates[j].1 == py
}

/// Whether one of the first `k` updates rewrites position `(px, py)`.
spec fn applied(updates: Seq<(usize, usize, Cell)>, k: int, px: int, py: int) -> bool {
    exists|j: int| 0 <= j < k && updates[j].0 == px && updates[j].1 == py
}

/// Covering a position survives appending another update.
proof fn lemma_covered_push(
    ups: Seq<(usize, usize, Cell)>,
    u: (usize, usize, Cell),
    g: Seq<Seq<Cell>>,
    border: BorderOpt,
    n: int,
    px: int,
    py: int,
)
    requires
        covered(ups, g, border, n, px, py),
    ensures
        covered(ups.push(u), g, border, n, px, py),
{
    if target_cell(g, border, n, px, py) != g[px][py] {
        let j = choose|j: int| 0 <= j < ups.len() && ups[j].0 == px && ups[j].1 == py;
        assert(ups.push(u)[j].0 == px && ups.push(u)[j].1 == py);
    }
}

/// A Game of Life Board
#[derive(Debug, Clone, PartialEq)]
pub struct Board<const WIDTH: usize, const HEIGHT: usize> {
    /// 2-dimensional array of Cells
    pub cells: [[Cell; WIDTH]; HEIGHT],
    /// The border behavior
    pub border: BorderOpt,
}

impl<const WIDTH: usize, const HEIGHT: usize> Board<WIDTH, HEIGHT> {
    /// The rows of the board as sequences of cells.
    pub open spec fn grid(&self) -> Seq<Seq<Cell>> {
        Seq::new(HEIGHT as nat, |r: int| self.cells@[r]@)
    }

    /// Initialize a new board
    ///
    /// # Usage:
    ///
    /// `Board::<X, Y>::new(BorderOpt::Empty)`
    pub fn new(border: BorderOpt) -> (b: Self)
        ensures
            b.border == border,
            forall|r: int, c: int|
                0 <= r < HEIGHT && 0 <= c < WIDTH ==> #[trigger] b.grid()[r][c] == Cell::Dead,
    {
        Board { border, cells: [[Cell::Dead; WIDTH]; HEIGHT] }
    }

    /// Advance board state by one cycle
    ///
    /// Counting neighbors reads the two axes interchangeably, so advancing
    /// is offered for square boards only; the side must also fit in an
    /// `i32`, which border tests cast coordinates to.
    pub fn advance_cycle(&mut self)
        requires
            WIDTH == HEIGHT,
            WIDTH <= 0x7fff_ffff,
        ensures
            final(self).border == old(self).border,
            final(self).grid() == step_grid(old(self).grid(), old(self).border, WIDTH as int),
    {
        let ghost g0 = self.grid();
        let ghost b0 = self.border;
        let ghost n = WIDTH as int;
        let mut updates: Vec<(usize, usize, Cell)> = Vec::new();

        let mut x: usize = 0;
        while x < WIDTH
            invariant
                WIDTH == HEIGHT,
                WIDTH <= 0x7fff_ffff,
                *self == *old(self),
                g0 == self.grid(),
                b0 == self.border,
                n == WIDTH as int,
                x <= WIDTH,
                forall|j: int| 0 <= j < updates@.len() ==> update_ok(#[trigger] updates@[j], g0, b0, n),
                forall|px: int, py: int|
                    0 <= px < x && 0 <= py < n ==> covered(updates@, g0, b0, n, px, py),
            decreases WIDTH - x,
        {
            let mut y: usize = 0;
            while y < HEIGHT
                invariant
                    WIDTH == HEIGHT,
                    WIDTH <= 0x7fff_ffff,
                    *self == *old(self),
                    g0 == self.grid(),
                    b0 == self.border,
                    n == WIDTH as int,
                    x < WIDTH,
                    y <= HEIGHT,
                    forall|j: int|
                        0 <= j < updates@.len() ==> update_ok(#[trigger] updates@[j], g0, b0, n),
                    forall|px: int, py: int|
                        0 <= px < x && 0 <= py < n ==> covered(updates@, g0, b0, n, px, py),
                    forall|py: int| 0 <= py < y ==> covered(updates@, g0, b0, n, x as int, py),
                decreases HEIGHT - y,
            {
                let ghost ups0 = updates@;
                let live = self.cell_should_live(x, y);
                let cur = self.get(x, y);
                if live && cur == Cell::Dead {
                    updates.push((x, y, Cell::Alive));
                    proof {
                        assert forall|px: int, py: int|
                            (0 <= px < x as int && 0 <= py < n) || (px == x as int && 0 <= py
                                < y as int) implies covered(updates@, g0, b0, n, px, py) by {
                            assert(covered(ups0, g0, b0, n, px, py));
                            lemma_covered_push(ups0, (x, y, Cell::Alive), g0, b0, n, px, py);
                        }
                        assert(updates@[ups0.len() as int].0 == x && updates@[ups0.len() as int].1
                            == y);
                        assert(covered(updates@, g0, b0, n, x as int, y as int));
                    }
                } else if !live && cur == Cell::Alive {
                    updates.push((x, y, Cell::Dead));
                    proof {
                        assert forall|px: int, py: int|
                            (0 <= px < x as int && 0 <= py < n) || (px == x as int && 0 <= py
                                < y as int) implies covered(updates@, g0, b0, n, px, py) by {
                            assert(covered(ups0, g0, b0, n, px, py));
                            lemma_covered_push(ups0, (x, y, Cell::Dead), g0, b0, n, px, py);
                        }
                        assert(updates@[ups0.len() as int].0 == x && updates@[ups0.len() as int].1
                            == y);
                        assert(covered(updates@, g0, b0, n, x as int, y as int));
                    }
                } else {
                    proof {
                        assert(target_cell(g0, b0, n, x as int, y as int) == g0[x as int][y as int]);
                        assert(covered(updates@, g0, b0, n, x as int, y as int));
                    }
                }
                y = y + 1;
            }
            x = x + 1;
        }

        let mut k: usize = 0;
        while k < updates.len()
            invariant
                WIDTH == HEIGHT,
                self.border == b0,
                n == WIDTH as int,
                k <= updates@.len(),
                forall|j: int| 0 <= j < updates@.len() ==> update_ok(#[trigger] updates@[j], g0, b0, n),
                forall|px: int, py: int|
                    0 <= px < n && 0 <= py < n ==> covered(updates@, g0, b0, n, px, py),
                forall|px: int, py: int|
                    0 <= px < n && 0 <= py < n ==> #[trigger] self.grid()[px][py] == (if applied(
                        updates@,
                        k as int,
                        px,
                        py,
                    ) {
                        target_cell(g0, b0, n, px, py)
                    } else {
                        g0[px][py]
                    }),
            decreases updates@.len() - k,
        {
            let u = updates[k];
            let ghost preg = self.grid();
            proof {
                assert forall|px: int, py: int|
                    0 <= px < n && 0 <= py < n implies #[trigger] preg[px][py] == (if applied(
                    updates@,
                    k as int,
                    px,
                    py,
                ) {
                    target_cell(g0, b0, n, px, py)
                } else {
                    g0[px][py]
                }) by {
                    assert(self.grid()[px][py] == preg[px][py]);
                }
            }
            self.set(u.0, u.1, u.2);
            proof {
                assert forall|px: int, py: int|
                    0 <= px < n && 0 <= py < n implies #[trigger] self.grid()[px][py] == (
                if applied(updates@, k as int + 1, px, py) {
                    target_cell(g0, b0, n, px, py)
                } else {
                    g0[px][py]
                }) by {
                    let ux = u.0 as int;
                    let uy = u.1 as int;
                    assert(update_ok(updates@[k as int], g0, b0, n));
                    if px == ux && py == uy {
                        assert(updates@[k as int].0 == px && updates@[k as int].1 == py);
                        assert(applied(updates@, k as int + 1, px, py));
                        assert(self.grid()[px][py] == u.2);
                    } else {
                        if px == ux {
                            assert(self.grid()[px][py] == preg[ux].update(uy, u.2)[py]);
                        }
                        assert(self.grid()[px][py] == preg[px][py]);
                        assert(applied(updates@, k as int + 1, px, py) == applied(
                            updates@,
                            k as int,
                            px,
                            py,
                        )) by {
                            if applied(updates@, k as int, px, py) {
                                assert(applied(updates@, k as int + 1, px, py));
                            }
                            if applied(updates@, k as int + 1, px, py) {
                                let j = choose|j: int|
                                    0 <= j < k as int + 1 && updates@[j].0 == px && updates@[j].1
                                        == py;
                                assert(0 <= j < k as int);
                            }
                        }
                    }
                }
            }
            k = k + 1;
        }

        proof {
            assert forall|px: int, py: int|
                0 <= px < n && 0 <= py < n implies #[trigger] self.grid()[px][py] == target_cell(
                g0,
                b0,
                n,
                px,
                py,
            ) by {
                assert(covered(updates@, g0, b0, n, px, py));
                if target_cell(g0, b0, n, px, py) != g0[px][py] {
                    let j = choose|j: int|
                        0 <= j < updates@.len() && updates@[j].0 == px && updates@[j].1 == py;
                    assert(0 <= j < k as int && updates@[j].0 == px && updates@[j].1 == py);
                    assert(applied(updates@, k as int, px, py));
                }
            }
            assert(self.grid() =~~= step_grid(g0, b0, n));
        }
    }

    /// Advance board state by n cycles
    pub fn advance_n_cycles(&mut self, n: usize)
        requires
            WIDTH == HEIGHT,
            WIDTH <= 0x7fff_ffff,
        ensures
            final(self).border == old(self).border,
            final(self).grid() == step_grid_n(
                old(self).grid(),
                old(self).border,
                WIDTH as int,
                n as nat,
            ),
    {
        let mut i: usize = 0;
        while i < n
            invariant
                WIDTH == HEIGHT,
                WIDTH <= 0x7fff_ffff,
                i <= n,
                self.border == old(self).border,
                self.grid() == step_grid_n(
                    old(self).grid(),
                    old(self).border,
                    WIDTH as int,
                    i as nat,
                ),
            decreases n - i,
        {
            self.advance_cycle();
            i = i + 1;
        }
    }

    /// Set cell at `x` and `y` to state `c`
    pub fn set(&mut self, x: usize, y: usize, c: Cell)
        requires
            x < HEIGHT,
            y < WIDTH,
        ensures
            final(self).border == old(self).border,
            final(self).grid() == old(self).grid().update(
                x as int,
                old(self).grid()[x as int].update(y as int, c),
            ),
    {
        let mut row: [Cell; WIDTH] = self.cells[x];
        row[y] = c;
        self.cells[x] = row;
        proof {
            assert(final(self).grid() =~~= old(self).grid().update(
                x as int,
                old(self).grid()[x as int].update(y as int, c),
            ));
        }
    }

    /// Get cell at `x` and `y`
    pub fn get(&self, x: usize, y: usize) -> (c: Cell)
        requires
            x < HEIGHT,
            y < WIDTH,
        ensures
            c == self.grid()[x as int][y as int],
    {
        self.cells[x][y]
    }

    /// The textual form of the board: one line of two-character cells per
    /// row.
    pub fn render(&self) -> (out: String)
        ensures
            out@ == render_grid(self.grid(), WIDTH as int, HEIGHT as int),
    {
        let ghost g = self.grid();
        let ghost w = WIDTH as int;
        let mut out = String::new();
        let mut r: usize = 0;
        while r < HEIGHT
            invariant
                r <= HEIGHT,
                g == self.grid(),
                w == WIDTH as int,
                out@ == render_rows_upto(g, w, r as int),
            decreases HEIGHT - r,
        {
            let ghost rows_done = out@;
            let mut c: usize = 0;
            proof {
                assert(out@ =~= rows_done + render_row_upto(g[r as int], 0));
            }
            while c < WIDTH
                invariant
                    r < HEIGHT,
                    c <= WIDTH,
                    g == self.grid(),
                    w == WIDTH as int,
                    out@ == rows_done + render_row_upto(g[r as int], c as int),
                decreases WIDTH - c,
            {
                let cs = self.get(r, c).render();
                out.append(cs.as_str());
                proof {
                    assert(render_row_upto(g[r as int], c as int + 1) == render_row_upto(
                        g[r as int],
                        c as int,
                    ) + cell_chars(g[r as int][c as int]));
                    assert(out@ =~= rows_done + render_row_upto(g[r as int], c as int + 1));
                }
                c = c + 1;
            }
            out.append("\n");
            proof {
                assert(render_rows_upto(g, w, r as int + 1) == render_rows_upto(g, w, r as int)
                    + render_row_upto(g[r as int], w) + "\n"@);
                assert(out@ =~= render_rows_upto(g, w, r as int + 1));
            }
            r = r + 1;
        }
        out
    }
}

impl<const WIDTH: usize, const HEIGHT: usize> Board<WIDTH, HEIGHT> {
    /// Whether `(x, y)` lies beyond the edge of the board.
    fn is_border(&self, x: i32, y: i32) -> (r: bool)
        requires
            WIDTH <= 0x7fff_ffff,
            HEIGHT <= 0x7fff_ffff,
        ensures
            r == !(0 <= x < WIDTH && 0 <= y < HEIGHT),
    {
        (x < 0 || y < 0) || (x >= WIDTH as i32 || y >= HEIGHT as i32)
    }

    /// What the site at `(x, y)` adds to a neighbor count: its cell when it
    /// lies on the board, the border's weight when it lies beyond the edge.
    fn site_count(&self, x: i32, y: i32) -> (w: usize)
        requires
            WIDTH == HEIGHT,
            WIDTH <= 0x7fff_ffff,
        ensures
            w == site_weight(self.grid(), self.border, WIDTH as int, x as int, y as int),
            w <= 1,
    {
        if self.is_border(x, y) {
            match self.border {
                BorderOpt::Solid => 1,
                BorderOpt::Empty => 0,
                _ => 0,
            }
        } else {
            if self.get(x as usize, y as usize) == Cell::Alive {
                1
            } else {
                0
            }
        }
    }

    /// How many of the eight sites around `(x, y)` count as alive, the
    /// border counting per the board's border option.
    pub fn get_live_neighbor_count(&self, x: usize, y: usize) -> (n: usize)
        requires
            WIDTH == HEIGHT,
            WIDTH <= 0x7fff_ffff,
            x < HEIGHT,
            y < WIDTH,
        ensures
            n == neighbor_weight(self.grid(), self.border, WIDTH as int, x as int, y as int),
    {
        let cell = self.get(x, y);
        let xi = x as i32;
        let yi = y as i32;

        let mut n: usize = 0;
        n = n + self.site_count(xi - 1, yi - 1);
        n = n + self.site_count(xi - 1, yi);
        n = n + self.site_count(xi - 1, yi + 1);
        n = n + self.site_count(xi, yi - 1);
        n = n + self.site_count(xi, yi);
        n = n + self.site_count(xi, yi + 1);
        n = n + self.site_count(xi + 1, yi - 1);
        n = n + self.site_count(xi + 1, yi);
        n = n + self.site_count(xi + 1, yi + 1);

        if cell == Cell::Alive {
            n - 1
        } else {
            n
        }
    }

    /// Whether the cell at `(x, y)` lives in the next generation.
    pub fn cell_should_live(&self, x: usize, y: usize) -> (r: bool)
        requires
            WIDTH == HEIGHT,
            WIDTH <= 0x7fff_ffff,
            x < HEIGHT,
            y < WIDTH,
        ensures
            r == should_live(self.grid(), self.border, WIDTH as int, x as int, y as int),
    {
        let cell = self.get(x, y);

        match self.get_live_neighbor_count(x, y) {
            3 => true,
            2 => cell == Cell::Alive,
            _ => false,
        }
    }

    /// The row of cells a line of a board file stands for; a line shorter
    /// than the board leaves the rest of the row dead.
    pub fn parse_str_as_cells(string: &str) -> (r: [Cell; WIDTH])
        requires
            encode_utf8(string@).len() <= WIDTH,
        ensures
            forall|i: int|
                0 <= i < encode_utf8(string@).len() ==> r@[i] == cells_of_bytes(
                    encode_utf8(string@),
                )[i],
            forall|i: int| encode_utf8(string@).len() <= i < WIDTH ==> r@[i] == Cell::Dead,
    {
        let bytes = string.as_bytes_vec();
        let mut cell_row: [Cell; WIDTH] = [Cell::Dead; WIDTH];
        let mut i: usize = 0;
        while i < bytes.len()
            invariant
                bytes@ == encode_utf8(string@),
                bytes@.len() <= WIDTH,
                i <= bytes@.len(),
                forall|j: int| 0 <= j < i ==> cell_row@[j] == cells_of_bytes(bytes@)[j],
                forall|j: int| i <= j < WIDTH ==> cell_row@[j] == Cell::Dead,
            decreases bytes@.len() - i,
        {
            let b = bytes[i];
            if b == FILE_LIVE_CHAR {
                cell_row[i] = Cell::Alive;
            } else if b == FILE_DEAD_CHAR {
                cell_row[i] = Cell::Dead;
            } else {
                cell_row[i] = Cell::Dead;
            }
            i = i + 1;
        }
        cell_row
    }

    /// The border option a line of a board file names, if any.
    pub fn parse_str_as_border_opt(string: &str) -> (r: Option<BorderOpt>)
        ensures
            r == border_opt_of(string@),
    {
        if crate::board::str_eq(string, "solid") {
            Some(BorderOpt::Solid)
        } else if crate::board::str_eq(string, "empty") {
            Some(BorderOpt::Empty)
        } else {
            None
        }
    }

    /// Build a board from the lines of a board file.
    ///
    /// The first line picks the border option (`solid` or `empty`; anything
    /// else falls back to `empty`). Every following line is one row of
    /// cells, each exactly as wide as the board, and there may be at most
    /// as many of them as the board has rows; otherwise, or on an empty
    /// file, no board comes back. Rows the file does not give stay dead.
    pub fn from_lines(lines: &Vec<String>) -> (r: Option<Self>)
        ensures
            r is Some <==> (lines@.len() > 0 && lines@.len() - 1 <= HEIGHT && (forall|i: int|
                1 <= i < lines@.len() ==> encode_utf8(#[trigger] lines@[i]@).len() == WIDTH)),
            r is Some ==> r.unwrap().border == border_or_default(lines@[0]@),
            r is Some ==> forall|rr: int, cc: int|
                0 <= rr < lines@.len() - 1 && 0 <= cc < WIDTH
                    ==> #[trigger] r.unwrap().grid()[rr][cc] == cells_of_bytes(
                    encode_utf8(lines@[rr + 1]@),
                )[cc],
            r is Some ==> forall|rr: int, cc: int|
                lines@.len() - 1 <= rr < HEIGHT && 0 <= cc < WIDTH
                    ==> #[trigger] r.unwrap().grid()[rr][cc] == Cell::Dead,
    {
        if lines.len() == 0 {
            return None;
        }
        if lines.len() - 1 > HEIGHT {
            return None;
        }
        let border = match Self::parse_str_as_border_opt(lines[0].as_str()) {
            Some(b) => b,
            None => BorderOpt::Empty,
        };
        let mut cells: [[Cell; WIDTH]; HEIGHT] = [[Cell::Dead; WIDTH]; HEIGHT];
        let mut i: usize = 1;
        while i < lines.len()
            invariant
                1 <= i <= lines@.len(),
                lines@.len() - 1 <= HEIGHT,
                forall|k: int|
                    1 <= k < i ==> encode_utf8(#[trigger] lines@[k]@).len() == WIDTH,
                forall|rr: int, cc: int|
                    0 <= rr < i - 1 && 0 <= cc < WIDTH ==> #[trigger] (cells@[rr]@)[cc]
                        == cells_of_bytes(encode_utf8(lines@[rr + 1]@))[cc],
                forall|rr: int, cc: int|
                    i - 1 <= rr < HEIGHT && 0 <= cc < WIDTH ==> #[trigger] (cells@[rr]@)[cc]
                        == Cell::Dead,
            decreases lines@.len() - i,
        {
            let l = lines[i].as_str();
            let bv = l.as_bytes_vec();
            if bv.len() != WIDTH {
                proof {
                    assert(encode_utf8(lines@[i as int]@).len() != WIDTH);
                }
                return None;
            }
            let row = Self::parse_str_as_cells(l);
            cells[i - 1] = row;
            i = i + 1;
        }
        let board = Board { cells, border };
        proof {
            assert forall|rr: int, cc: int|
                0 <= rr < lines@.len() - 1 && 0 <= cc < WIDTH implies #[trigger] board.grid(
            )[rr][cc] == cells_of_bytes(encode_utf8(lines@[rr + 1]@))[cc] by {
                assert(board.grid()[rr] == cells@[rr]@);
            }
            assert forall|rr: int, cc: int|
                lines@.len() - 1 <= rr < HEIGHT && 0 <= cc < WIDTH implies #[trigger] board.grid(
            )[rr][cc] == Cell::Dead by {
                assert(board.grid()[rr] == cells@[rr]@);
            }
        }
        Some(board)
    }
}

impl<const WIDTH: usize, const HEIGHT: usize> Default for Board<WIDTH, HEIGHT> {
    /// An empty board with an empty border.
    fn default() -> (b: Self)
        ensures
            b.border == BorderOpt::Empty,
            forall|r: int, c: int|
                0 <= r < HEIGHT && 0 <= c < WIDTH ==> #[trigger] b.grid()[r][c] == Cell::Dead,
    {
        Board::<WIDTH, HEIGHT>::new(BorderOpt::Empty)
    }
}

} // verus!
