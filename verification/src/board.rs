use vstd::prelude::*;

use crate::cell::Cell;
use crate::cell::cell_chars;
use vstd::string::StrSliceExecFns;
use vstd::utf8::encode_utf8;

verus! {

/// The byte that marks a live cell in a board file: `#`.
pub const FILE_LIVE_CHAR: u8 = 35;

/// The byte that marks a dead cell in a board file: `_`.
pub const FILE_DEAD_CHAR: u8 = 95;

/// Border options
#[derive(Debug, Clone, PartialEq, Eq, Structural)]
pub enum BorderOpt {
    /// Consider the border as "alive"
    Solid,
    /// Consider the border as "dead"
    Empty,
    /// Consider the border as the opposite side of the board
    Loop,
}

/// One unit of live-cell counting: a live cell weighs 1, a dead one 0.
pub open spec fn live_weight(c: Cell) -> nat {
    if c == Cell::Alive {
        1
    } else {
        0
    }
}

/// The cell stored at column `x`, row `y` of a row-major grid of width `w`.
pub open spec fn cell_at(s: Seq<Cell>, w: int, x: int, y: int) -> Cell {
    s[y * w + x]
}

/// The weight a grid site contributes to a neighbor count: live cells weigh
/// 1, and anything beyond the edge of the board weighs 0.
pub open spec fn site_weight(s: Seq<Cell>, w: int, h: int, x: int, y: int) -> nat {
    if 0 <= x < w && 0 <= y < h {
        live_weight(cell_at(s, w, x, y))
    } else {
        0
    }
}

/// The number of live cells among the (up to eight) neighbors of `(x, y)`
/// that lie on the board.
pub open spec fn neighbor_weight(s: Seq<Cell>, w: int, h: int, x: int, y: int) -> nat {
    site_weight(s, w, h, x - 1, y - 1) + site_weight(s, w, h, x, y - 1) + site_weight(
        s,
        w,
        h,
        x + 1,
        y - 1,
    ) + site_weight(s, w, h, x - 1, y) + site_weight(s, w, h, x + 1, y) + site_weight(
        s,
        w,
        h,
        x - 1,
        y + 1,
    ) + site_weight(s, w, h, x, y + 1) + site_weight(s, w, h, x + 1, y + 1)
}

/// The site at `(x, y)` as a sequence: a single cell when it lies on the
/// board, nothing when it lies beyond the edge.
pub open spec fn maybe_cell(s: Seq<Cell>, w: int, h: int, x: int, y: int) -> Seq<Cell> {
    if 0 <= x < w && 0 <= y < h {
        seq![cell_at(s, w, x, y)]
    } else {
        Seq::empty()
    }
}

/// The neighbors of `(x, y)` that lie on the board, in row-major order.
pub open spec fn neighbor_seq(s: Seq<Cell>, w: int, h: int, x: int, y: int) -> Seq<Cell> {
    maybe_cell(s, w, h, x - 1, y - 1) + maybe_cell(s, w, h, x, y - 1) + maybe_cell(
        s,
        w,
        h,
        x + 1,
        y - 1,
    ) + maybe_cell(s, w, h, x - 1, y) + maybe_cell(s, w, h, x + 1, y) + maybe_cell(
        s,
        w,
        h,
        x - 1,
        y + 1,
    ) + maybe_cell(s, w, h, x, y + 1) + maybe_cell(s, w, h, x + 1, y + 1)
}

/// The number of live cells in a sequence.
pub open spec fn count_live(cs: Seq<Cell>) -> nat
    decreases cs.len(),
{
    if cs.len() == 0 {
        0
    } else {
        count_live(cs.drop_last()) + live_weight(cs.last())
    }
}

/// Whether the cell at `(x, y)` is live in the next generation: exactly
/// three live neighbors give life, exactly two preserve it, anything else
/// kills.
pub open spec fn should_live_at(s: Seq<Cell>, w: int, h: int, x: int, y: int) -> bool {
    neighbor_weight(s, w, h, x, y) == 3 || (neighbor_weight(s, w, h, x, y) == 2 && cell_at(
        s,
        w,
        x,
        y,
    ) == Cell::Alive)
}

/// The text of the first `k` cells of a rendered flat board of width `w`:
/// two characters per cell, and a line break after each full row.
pub open spec fn render_upto(s: Seq<Cell>, w: int, k: int) -> Seq<char>
    decreases k,
{
    if k <= 0 {
        Seq::empty()
    } else {
        let part = render_upto(s, w, k - 1) + cell_chars(s[k - 1]);
        if k % w == 0 {
            part + "\n"@
        } else {
            part
        }
    }
}

/// The full text of a rendered flat board of width `w`.
pub open spec fn render_flat(s: Seq<Cell>, w: int) -> Seq<char> {
    render_upto(s, w, s.len() as int)
}

/// The row of cells a line of text stands for: `#` is a live cell,
/// anything else a dead one.
pub open spec fn cells_of_bytes(bs: Seq<u8>) -> Seq<Cell> {
    Seq::new(
        bs.len(),
        |i: int|
            if bs[i] == FILE_LIVE_CHAR {
                Cell::Alive
            } else {
                Cell::Dead
            },
    )
}

/// The border option a line of text names, if any.
pub open spec fn border_opt_of(s: Seq<char>) -> Option<BorderOpt> {
    if s == "solid"@ {
        Some(BorderOpt::Solid)
    } else if s == "empty"@ {
        Some(BorderOpt::Empty)
    } else {
        None
    }
}

/// The border option a board file's first line chooses; an unrecognized
/// one falls back to an empty border.
pub open spec fn border_or_default(s: Seq<char>) -> BorderOpt {
    match border_opt_of(s) {
        Some(b) => b,
        None => BorderOpt::Empty,
    }
}

/// The byte length of the first data line of a board file, which fixes the
/// width of the board; a file of bare header has width zero.
pub open spec fn line_width(lines: Seq<String>) -> int {
    if lines.len() > 1 {
        encode_utf8(lines[1]@).len() as int
    } else {
        0
    }
}

/// Whether every data line of a board file has the same byte length.
pub open spec fn lines_uniform(lines: Seq<String>) -> bool {
    forall|i: int| 1 <= i < lines.len() ==> encode_utf8(#[trigger] lines[i]@).len() == line_width(lines)
}

/// The state the cell at `(x, y)` takes in the next generation.
pub open spec fn target_cell(s: Seq<Cell>, w: int, h: int, x: int, y: int) -> Cell {
    if should_live_at(s, w, h, x, y) {
        Cell::Alive
    } else {
        Cell::Dead
    }
}

/// The whole board, advanced by one generation.
pub open spec fn step(s: Seq<Cell>, w: int, h: int) -> Seq<Cell> {
    Seq::new(s.len(), |i: int| target_cell(s, w, h, i % w, i / w))
}

/// The whole board, advanced by `k` generations.
pub open spec fn step_n(s: Seq<Cell>, w: int, h: int, k: nat) -> Seq<Cell>
    decreases k,
{
    if k == 0 {
        s
    } else {
        step(step_n(s, w, h, (k - 1) as nat), w, h)
    }
}

/// A pending update is sound when it lies on the board and records exactly
/// the change the rule asks for at its position.
spec fn update_ok(u: (usize, usize, Cell), s: Seq<Cell>, w: int, h: int) -> bool {
    &&& u.0 < w
    &&& u.1 < h
    &&& u.2 == target_cell(s, w, h, u.0 as int, u.1 as int)
    &&& u.2 != cell_at(s, w, u.0 as int, u.1 as int)
}

/// Whether the pending updates take care of position `(px, py)`: either the
/// rule keeps the cell as it is, or some update rewrites it.
spec fn covered(updates: Seq<(usize, usize, Cell)>, s: Seq<Cell>, w: int, h: int, px: int, py: int) -> bool {
    target_cell(s, w, h, px, py) != cell_at(s, w, px, py) ==> exists|j: int|
        0 <= j < updates.len() && updates[j].0 == px && updates[j].1 == py
}

/// Whether one of the first `k` updates rewrites position `(px, py)`.
spec fn applied(updates: Seq<(usize, usize, Cell)>, k: int, px: int, py: int) -> bool {
    exists|j: int| 0 <= j < k && updates[j].0 == px && updates[j].1 == py
}

/// A position on the board indexes the flat array within bounds.
proof fn lemma_idx_bound(w: int, h: int, x: int, y: int)
    requires
        0 <= x < w,
        0 <= y < h,
    ensures
        0 <= y * w + x < w * h,
{
    assert(y * w + x < w * h) by (nonlinear_arith)
        requires
            0 <= x < w,
            0 <= y < h,
    ;
}

/// Covering a position survives appending another update.
proof fn lemma_covered_push(
    ups: Seq<(usize, usize, Cell)>,
    u: (usize, usize, Cell),
    s: Seq<Cell>,
    w: int,
    h: int,
    px: int,
    py: int,
)
    requires
        covered(ups, s, w, h, px, py),
    ensures
        covered(ups.push(u), s, w, h, px, py),
{
    if target_cell(s, w, h, px, py) != cell_at(s, w, px, py) {
        let j = choose|j: int| 0 <= j < ups.len() && ups[j].0 == px && ups[j].1 == py;
        assert(ups.push(u)[j].0 == px && ups.push(u)[j].1 == py);
    }
}

/// Row-major positions index the flat array injectively.
proof fn lemma_idx_injective(w: int, x1: int, y1: int, x2: int, y2: int)
    requires
        0 <= x1 < w,
        0 <= x2 < w,
        0 <= y1,
        0 <= y2,
        y1 * w + x1 == y2 * w + x2,
    ensures
        x1 == x2,
        y1 == y2,
{
    vstd::arithmetic::div_mod::lemma_fundamental_div_mod_converse_div(y1 * w + x1, w, y1, x1);
    vstd::arithmetic::div_mod::lemma_fundamental_div_mod_converse_mod(y1 * w + x1, w, y1, x1);
    vstd::arithmetic::div_mod::lemma_fundamental_div_mod_converse_div(y2 * w + x2, w, y2, x2);
    vstd::arithmetic::div_mod::lemma_fundamental_div_mod_converse_mod(y2 * w + x2, w, y2, x2);
}

/// A row-major index below `w * h` decomposes into an on-board position.
proof fn lemma_idx_decompose(w: int, h: int, i: int)
    requires
        0 < w,
        0 <= i < w * h,
    ensures
        0 <= i % w < w,
        0 <= i / w < h,
        i == (i / w) * w + (i % w),
{
    vstd::arithmetic::div_mod::lemma_fundamental_div_mod(i, w);
    vstd::arithmetic::div_mod::lemma_mod_division_less_than_divisor(i, w);
    vstd::arithmetic::div_mod::lemma_div_pos_is_pos(i, w);
    assert((i / w) * w + (i % w) == w * (i / w) + (i % w)) by (nonlinear_arith);
    assert(i / w < h) by (nonlinear_arith)
        requires
            0 < w,
            i < w * h,
            i == w * (i / w) + (i % w),
            0 <= i % w < w,
    ;
}

/// Live cells in a concatenation are the live cells of both parts.
proof fn lemma_count_live_concat(a: Seq<Cell>, b: Seq<Cell>)
    ensures
        count_live(a + b) == count_live(a) + count_live(b),
    decreases b.len(),
{
    if b.len() == 0 {
        assert(a + b =~= a);
    } else {
        lemma_count_live_concat(a, b.drop_last());
        assert((a + b).drop_last() =~= a + b.drop_last());
        assert((a + b).last() == b.last());
        assert(count_live(b) == count_live(b.drop_last()) + live_weight(b.last()));
    }
}

/// A site seen as a sequence holds as many live cells as its weight says.
proof fn lemma_count_live_site(s: Seq<Cell>, w: int, h: int, x: int, y: int)
    ensures
        count_live(maybe_cell(s, w, h, x, y)) == site_weight(s, w, h, x, y),
{
    if 0 <= x < w && 0 <= y < h {
        let c = cell_at(s, w, x, y);
        assert(seq![c].drop_last() =~= Seq::<Cell>::empty());
        assert(seq![c].last() == c);
        assert(count_live(Seq::<Cell>::empty()) == 0);
        assert(count_live(seq![c]) == live_weight(c));
    }
}

/// The live cells among the on-board neighbors of `(x, y)` are exactly the
/// neighbor weight of that position.
proof fn lemma_count_live_neighbor_seq(s: Seq<Cell>, w: int, h: int, x: int, y: int)
    ensures
        count_live(neighbor_seq(s, w, h, x, y)) == neighbor_weight(s, w, h, x, y),
{
    let m1 = maybe_cell(s, w, h, x - 1, y - 1);
    let m2 = maybe_cell(s, w, h, x, y - 1);
    let m3 = maybe_cell(s, w, h, x + 1, y - 1);
    let m4 = maybe_cell(s, w, h, x - 1, y);
    let m5 = maybe_cell(s, w, h, x + 1, y);
    let m6 = maybe_cell(s, w, h, x - 1, y + 1);
    let m7 = maybe_cell(s, w, h, x, y + 1);
    let m8 = maybe_cell(s, w, h, x + 1, y + 1);
    lemma_count_live_site(s, w, h, x - 1, y - 1);
    lemma_count_live_site(s, w, h, x, y - 1);
    lemma_count_live_site(s, w, h, x + 1, y - 1);
    lemma_count_live_site(s, w, h, x - 1, y);
    lemma_count_live_site(s, w, h, x + 1, y);
    lemma_count_live_site(s, w, h, x - 1, y + 1);
    lemma_count_live_site(s, w, h, x, y + 1);
    lemma_count_live_site(s, w, h, x + 1, y + 1);
    lemma_count_live_concat(m1, m2);
    lemma_count_live_concat(m1 + m2, m3);
    lemma_count_live_concat(m1 + m2 + m3, m4);
    lemma_count_live_concat(m1 + m2 + m3 + m4, m5);
    lemma_count_live_concat(m1 + m2 + m3 + m4 + m5, m6);
    lemma_count_live_concat(m1 + m2 + m3 + m4 + m5 + m6, m7);
    lemma_count_live_concat(m1 + m2 + m3 + m4 + m5 + m6 + m7, m8);
}

/// In the interior, all eight neighbors lie on the board.
proof fn lemma_neighbor_seq_all(s: Seq<Cell>, w: int, h: int, x: int, y: int)
    requires
        1 <= x,
        x + 1 < w,
        1 <= y,
        y + 1 < h,
    ensures
        neighbor_seq(s, w, h, x, y) == seq![
            cell_at(s, w, x - 1, y - 1),
            cell_at(s, w, x, y - 1),
            cell_at(s, w, x + 1, y - 1),
            cell_at(s, w, x - 1, y),
            cell_at(s, w, x + 1, y),
            cell_at(s, w, x - 1, y + 1),
            cell_at(s, w, x, y + 1),
            cell_at(s, w, x + 1, y + 1),
        ],
{
    assert(neighbor_seq(s, w, h, x, y) =~= seq![
        cell_at(s, w, x - 1, y - 1),
        cell_at(s, w, x, y - 1),
        cell_at(s, w, x + 1, y - 1),
        cell_at(s, w, x - 1, y),
        cell_at(s, w, x + 1, y),
        cell_at(s, w, x - 1, y + 1),
        cell_at(s, w, x, y + 1),
        cell_at(s, w, x + 1, y + 1),
    ]);
}

/// On the last row away from the corners, the neighbors are the row above
/// and the two cells at the sides.
proof fn lemma_neighbor_seq_upper(s: Seq<Cell>, w: int, h: int, x: int, y: int)
    requires
        1 <= x,
        x + 1 < w,
        1 <= y,
        y == h - 1,
    ensures
        neighbor_seq(s, w, h, x, y) == seq![
            cell_at(s, w, x - 1, y - 1),
            cell_at(s, w, x, y - 1),
            cell_at(s, w, x + 1, y - 1),
            cell_at(s, w, x - 1, y),
            cell_at(s, w, x + 1, y),
        ],
{
    assert(neighbor_seq(s, w, h, x, y) =~= seq![
        cell_at(s, w, x - 1, y - 1),
        cell_at(s, w, x, y - 1),
        cell_at(s, w, x + 1, y - 1),
        cell_at(s, w, x - 1, y),
        cell_at(s, w, x + 1, y),
    ]);
}

/// On the first row away from the corners, the neighbors are the two cells
/// at the sides and the row below.
proof fn lemma_neighbor_seq_lower(s: Seq<Cell>, w: int, h: int, x: int, y: int)
    requires
        1 <= x,
        x + 1 < w,
        y == 0,
        h >= 2,
    ensures
        neighbor_seq(s, w, h, x, y) == seq![
            cell_at(s, w, x - 1, y),
            cell_at(s, w, x + 1, y),
            cell_at(s, w, x - 1, y + 1),
            cell_at(s, w, x, y + 1),
            cell_at(s, w, x + 1, y + 1),
        ],
{
    assert(neighbor_seq(s, w, h, x, y) =~= seq![
        cell_at(s, w, x - 1, y),
        cell_at(s, w, x + 1, y),
        cell_at(s, w, x - 1, y + 1),
        cell_at(s, w, x, y + 1),
        cell_at(s, w, x + 1, y + 1),
    ]);
}

/// On the first column away from the corners, the neighbors all lie in the
/// first two columns.
proof fn lemma_neighbor_seq_right(s: Seq<Cell>, w: int, h: int, x: int, y: int)
    requires
        x == 0,
        w >= 2,
        1 <= y,
        y + 1 < h,
    ensures
        neighbor_seq(s, w, h, x, y) == seq![
            cell_at(s, w, x, y - 1),
            cell_at(s, w, x + 1, y - 1),
            cell_at(s, w, x + 1, y),
            cell_at(s, w, x, y + 1),
            cell_at(s, w, x + 1, y + 1),
        ],
{
    assert(neighbor_seq(s, w, h, x, y) =~= seq![
        cell_at(s, w, x, y - 1),
        cell_at(s, w, x + 1, y - 1),
        cell_at(s, w, x + 1, y),
        cell_at(s, w, x, y + 1),
        cell_at(s, w, x + 1, y + 1),
    ]);
}

/// On the last column away from the corners, the neighbors all lie in the
/// last two columns.
proof fn lemma_neighbor_seq_left(s: Seq<Cell>, w: int, h: int, x: int, y: int)
    requires
        x == w - 1,
        w >= 2,
        1 <= y,
        y + 1 < h,
    ensures
        neighbor_seq(s, w, h, x, y) == seq![
            cell_at(s, w, x - 1, y - 1),
            cell_at(s, w, x, y - 1),
            cell_at(s, w, x - 1, y),
            cell_at(s, w, x - 1, y + 1),
            cell_at(s, w, x, y + 1),
        ],
{
    assert(neighbor_seq(s, w, h, x, y) =~= seq![
        cell_at(s, w, x - 1, y - 1),
        cell_at(s, w, x, y - 1),
        cell_at(s, w, x - 1, y),
        cell_at(s, w, x - 1, y + 1),
        cell_at(s, w, x, y + 1),
    ]);
}

/// In the corner of the first row and first column, three neighbors remain.
proof fn lemma_neighbor_seq_lower_right(s: Seq<Cell>, w: int, h: int, x: int, y: int)
    requires
        x == 0,
        y == 0,
        w >= 2,
        h >= 2,
    ensures
        neighbor_seq(s, w, h, x, y) == seq![
            cell_at(s, w, x + 1, y),
            cell_at(s, w, x, y + 1),
            cell_at(s, w, x + 1, y + 1),
        ],
{
    assert(neighbor_seq(s, w, h, x, y) =~= seq![
        cell_at(s, w, x + 1, y),
        cell_at(s, w, x, y + 1),
        cell_at(s, w, x + 1, y + 1),
    ]);
}

/// In the corner of the last row and first column, three neighbors remain.
proof fn lemma_neighbor_seq_upper_right(s: Seq<Cell>, w: int, h: int, x: int, y: int)
    requires
        x == 0,
        y == h - 1,
        w >= 2,
        h >= 2,
    ensures
        neighbor_seq(s, w, h, x, y) == seq![
            cell_at(s, w, x, y - 1),
            cell_at(s, w, x + 1, y - 1),
            cell_at(s, w, x + 1, y),
        ],
{
    assert(neighbor_seq(s, w, h, x, y) =~= seq![
        cell_at(s, w, x, y - 1),
        cell_at(s, w, x + 1, y - 1),
        cell_at(s, w, x + 1, y),
    ]);
}

/// In the corner of the first row and last column, three neighbors remain.
proof fn lemma_neighbor_seq_lower_left(s: Seq<Cell>, w: int, h: int, x: int, y: int)
    requires
        x == w - 1,
        y == 0,
        w >= 2,
        h >= 2,
    ensures
        neighbor_seq(s, w, h, x, y) == seq![
            cell_at(s, w, x - 1, y),
            cell_at(s, w, x - 1, y + 1),
            cell_at(s, w, x, y + 1),
        ],
{
    assert(neighbor_seq(s, w, h, x, y) =~= seq![
        cell_at(s, w, x - 1, y),
        cell_at(s, w, x - 1, y + 1),
        cell_at(s, w, x, y + 1),
    ]);
}

/// In the corner of the last row and last column, three neighbors remain.
proof fn lemma_neighbor_seq_upper_left(s: Seq<Cell>, w: int, h: int, x: int, y: int)
    requires
        x == w - 1,
        y == h - 1,
        w >= 2,
        h >= 2,
    ensures
        neighbor_seq(s, w, h, x, y) == seq![
            cell_at(s, w, x - 1, y - 1),
            cell_at(s, w, x, y - 1),
            cell_at(s, w, x - 1, y),
        ],
{
    assert(neighbor_seq(s, w, h, x, y) =~= seq![
        cell_at(s, w, x - 1, y - 1),
        cell_at(s, w, x, y - 1),
        cell_at(s, w, x - 1, y),
    ]);
}

/// A Game of Life Board
#[derive(Debug, Clone, PartialEq)]
pub struct Board {
    /// The width of the board
    pub width: usize,
    /// The height of the board
    pub height: usize,
    /// The border behavior
    pub border: BorderOpt,
    /// Flat, row-major array of Cells
    pub cells: Vec<Cell>,
}

impl Board {
    /// The cell array holds exactly one cell per position of the grid.
    pub open spec fn wf(&self) -> bool {
        self.cells@.len() == self.width * self.height
    }

    /// The cell at column `x`, row `y`.
    pub open spec fn at(&self, x: int, y: int) -> Cell {
        cell_at(self.cells@, self.width as int, x, y)
    }

    /// Initialize a new board
    pub fn new(width: usize, height: usize, border: BorderOpt) -> (b: Board)
        requires
            width * height <= usize::MAX,
        ensures
            b.wf(),
            b.width == width,
            b.height == height,
            b.border == border,
            forall|i: int| 0 <= i < b.cells@.len() ==> b.cells@[i] == Cell::Dead,
    {
        let n: usize = width * height;
        let mut cells: Vec<Cell> = Vec::new();
        let mut i: usize = 0;
        while i < n
            invariant
                i <= n,
                cells@.len() == i,
                forall|j: int| 0 <= j < i ==> cells@[j] == Cell::Dead,
            decreases n - i,
        {
            cells.push(Cell::Dead);
            i = i + 1;
        }
        Board { width, height, border, cells }
    }

    /// Build a board from the lines of a board file.
    ///
    /// The first line picks the border option (`solid` or `empty`; anything
    /// else falls back to `empty`). Every following line is one row of
    /// cells, and all rows must be equally wide; otherwise, or on an empty
    /// file, no board comes back.
    pub fn from_lines(lines: &Vec<String>) -> (r: Option<Board>)
        ensures
            r is Some <==> (lines@.len() > 0 && lines_uniform(lines@)),
            r is Some ==> r.unwrap().wf(),
            r is Some ==> r.unwrap().border == border_or_default(lines@[0]@),
            r is Some ==> r.unwrap().width == line_width(lines@),
            r is Some ==> r.unwrap().height == lines@.len() - 1,
            r is Some ==> forall|yy: int, xx: int|
                0 <= yy < lines@.len() - 1 && 0 <= xx < line_width(lines@)
                    ==> #[trigger] r.unwrap().at(xx, yy) == cells_of_bytes(
                    encode_utf8(lines@[yy + 1]@),
                )[xx],
    {
        if lines.len() == 0 {
            return None;
        }
        let border = match Self::parse_str_as_border_opt(lines[0].as_str()) {
            Some(b) => b,
            None => BorderOpt::Empty,
        };
        let mut cells: Vec<Cell> = Vec::new();
        let mut width: usize = 0;
        let mut i: usize = 1;
        while i < lines.len()
            invariant
                1 <= i <= lines@.len(),
                i > 1 ==> width == line_width(lines@),
                i == 1 ==> width == 0,
                forall|k: int|
                    1 <= k < i ==> encode_utf8(#[trigger] lines@[k]@).len() == line_width(lines@),
                cells@.len() == width * (i - 1),
                forall|yy: int, xx: int|
                    0 <= yy < i - 1 && 0 <= xx < width ==> #[trigger] cells@[yy * width + xx]
                        == cells_of_bytes(encode_utf8(lines@[yy + 1]@))[xx],
            decreases lines@.len() - i,
        {
            let l = lines[i].as_str();
            let mut row = Self::parse_str_as_cells(l);
            if i == 1 {
                width = row.len();
            }
            if row.len() != width {
                proof {
                    assert(encode_utf8(lines@[i as int]@).len() != line_width(lines@));
                }
                return None;
            }
            let ghost cells0 = cells@;
            cells.append(&mut row);
            proof {
                assert(width * (i as int - 1) + width == width * (i as int)) by (nonlinear_arith);
                assert forall|yy: int, xx: int|
                    0 <= yy < i as int && 0 <= xx < width implies #[trigger] cells@[yy * width
                    + xx] == cells_of_bytes(encode_utf8(lines@[yy + 1]@))[xx] by {
                    lemma_idx_bound(width as int, i as int, xx, yy);
                    if yy < i as int - 1 {
                        lemma_idx_bound(width as int, i as int - 1, xx, yy);
                        assert(cells@[yy * width + xx] == cells0[yy * width + xx]);
                    } else {
                        assert(yy * width + xx == cells0.len() + xx) by (nonlinear_arith)
                            requires
                                yy == i as int - 1,
                                cells0.len() == width * (i as int - 1),
                        ;
                    }
                }
            }
            i = i + 1;
        }
        let board = Board { width, height: lines.len() - 1, border, cells };
        proof {
            assert(lines_uniform(lines@));
        }
        Some(board)
    }

    /// Advance board state by one cycle
    ///
    /// A board with cells must be at least two cells wide and high: on
    /// anything narrower some cell has no full edge of its own to take its
    /// neighbors from.
    pub fn advance_cycle(&mut self)
        requires
            old(self).wf(),
            old(self).width == 0 || old(self).height == 0 || (old(self).width >= 2
                && old(self).height >= 2),
        ensures
            final(self).wf(),
            final(self).width == old(self).width,
            final(self).height == old(self).height,
            final(self).border == old(self).border,
            final(self).cells@ == step(
                old(self).cells@,
                old(self).width as int,
                old(self).height as int,
            ),
    {
        let ghost s0 = self.cells@;
        let ghost w = self.width as int;
        let ghost h = self.height as int;
        let mut updates: Vec<(usize, usize, Cell)> = Vec::new();

        let mut x: usize = 0;
        while x < self.width
            invariant
                *self == *old(self),
                self.wf(),
                self.width == 0 || self.height == 0 || (self.width >= 2 && self.height >= 2),
                s0 == self.cells@,
                w == self.width as int,
                h == self.height as int,
                x <= self.width,
                forall|j: int| 0 <= j < updates@.len() ==> update_ok(#[trigger] updates@[j], s0, w, h),
                forall|px: int, py: int|
                    0 <= px < x && 0 <= py < h ==> covered(updates@, s0, w, h, px, py),
            decreases self.width - x,
        {
            let mut y: usize = 0;
            while y < self.height
                invariant
                    *self == *old(self),
                    self.wf(),
                    self.width == 0 || self.height == 0 || (self.width >= 2 && self.height >= 2),
                    s0 == self.cells@,
                    w == self.width as int,
                    h == self.height as int,
                    x < self.width,
                    y <= self.height,
                    forall|j: int|
                        0 <= j < updates@.len() ==> update_ok(#[trigger] updates@[j], s0, w, h),
                    forall|px: int, py: int|
                        0 <= px < x && 0 <= py < h ==> covered(updates@, s0, w, h, px, py),
                    forall|py: int| 0 <= py < y ==> covered(updates@, s0, w, h, x as int, py),
                decreases self.height - y,
            {
                let ghost ups0 = updates@;
                let live = self.cell_should_live(x, y);
                let cur = self.get(x, y);
                if live && cur == Cell::Dead {
                    updates.push((x, y, Cell::Alive));
                    proof {
                        assert forall|px: int, py: int|
                            (0 <= px < x as int && 0 <= py < h) || (px == x as int && 0 <= py
                                < y as int) implies covered(updates@, s0, w, h, px, py) by {
                            assert(covered(ups0, s0, w, h, px, py));
                            lemma_covered_push(ups0, (x, y, Cell::Alive), s0, w, h, px, py);
                        }
                        assert(updates@[ups0.len() as int].0 == x && updates@[ups0.len() as int].1
                            == y);
                        assert(covered(updates@, s0, w, h, x as int, y as int));
                    }
                } else if !live && cur == Cell::Alive {
                    updates.push((x, y, Cell::Dead));
                    proof {
                        assert forall|px: int, py: int|
                            (0 <= px < x as int && 0 <= py < h) || (px == x as int && 0 <= py
                                < y as int) implies covered(updates@, s0, w, h, px, py) by {
                            assert(covered(ups0, s0, w, h, px, py));
                            lemma_covered_push(ups0, (x, y, Cell::Dead), s0, w, h, px, py);
                        }
                        assert(updates@[ups0.len() as int].0 == x && updates@[ups0.len() as int].1
                            == y);
                        assert(covered(updates@, s0, w, h, x as int, y as int));
                    }
                } else {
                    proof {
                        assert(target_cell(s0, w, h, x as int, y as int) == cell_at(
                            s0,
                            w,
                            x as int,
                            y as int,
                        ));
                        assert(covered(updates@, s0, w, h, x as int, y as int));
                    }
                }
                y = y + 1;
            }
            x = x + 1;
        }

        let mut k: usize = 0;
        while k < updates.len()
            invariant
                self.wf(),
                self.width == old(self).width,
                self.height == old(self).height,
                self.border == old(self).border,
                w == self.width as int,
                h == self.height as int,
                s0.len() == w * h,
                self.cells@.len() == s0.len(),
                k <= updates@.len(),
                forall|j: int| 0 <= j < updates@.len() ==> update_ok(#[trigger] updates@[j], s0, w, h),
                forall|px: int, py: int|
                    0 <= px < w && 0 <= py < h ==> covered(updates@, s0, w, h, px, py),
                forall|px: int, py: int|
                    0 <= px < w && 0 <= py < h ==> self.at(px, py) == (if applied(
                        updates@,
                        k as int,
                        px,
                        py,
                    ) {
                        target_cell(s0, w, h, px, py)
                    } else {
                        cell_at(s0, w, px, py)
                    }),
            decreases updates@.len() - k,
        {
            let u = updates[k];
            let ghost pre = self.cells@;
            proof {
                assert forall|px: int, py: int|
                    0 <= px < w && 0 <= py < h implies #[trigger] cell_at(pre, w, px, py) == (
                if applied(updates@, k as int, px, py) {
                    target_cell(s0, w, h, px, py)
                } else {
                    cell_at(s0, w, px, py)
                }) by {
                    assert(self.at(px, py) == cell_at(pre, w, px, py));
                }
            }
            self.set(u.0, u.1, u.2);
            proof {
                assert forall|px: int, py: int| 0 <= px < w && 0 <= py < h implies self.at(px, py)
                    == (if applied(updates@, k as int + 1, px, py) {
                    target_cell(s0, w, h, px, py)
                } else {
                    cell_at(s0, w, px, py)
                }) by {
                    let ux = u.0 as int;
                    let uy = u.1 as int;
                    assert(update_ok(updates@[k as int], s0, w, h));
                    lemma_idx_bound(w, h, ux, uy);
                    if px == ux && py == uy {
                        assert(updates@[k as int].0 == px && updates@[k as int].1 == py);
                        assert(applied(updates@, k as int + 1, px, py));
                        assert(self.at(px, py) == u.2);
                    } else {
                        lemma_idx_bound(w, h, px, py);
                        lemma_idx_bound(w, h, ux, uy);
                        assert(py * w + px != uy * w + ux) by {
                            if py * w + px == uy * w + ux {
                                lemma_idx_injective(w, px, py, ux, uy);
                            }
                        }
                        assert(self.at(px, py) == cell_at(pre, w, px, py));
                        assert(applied(updates@, k as int + 1, px, py) == applied(
                            updates@,
                            k as int,
                            px,
                            py,
                        )) by {
                            if applied(updates@, k as int, px, py) {
                                assert(applied(updates@, k as int + 1, px, py));
                            }
                            if applied(updates@, k as int + 1, px, py) {
                                let j = choose|j: int|
                                    0 <= j < k as int + 1 && updates@[j].0 == px && updates@[j].1
                                        == py;
                                assert(0 <= j < k as int);
                            }
                        }
                    }
                }
            }
            k = k + 1;
        }

        proof {
            assert forall|i: int| 0 <= i < s0.len() implies self.cells@[i] == step(s0, w, h)[i] by {
                lemma_idx_decompose(w, h, i);
                let px = i % w;
                let py = i / w;
                assert(covered(updates@, s0, w, h, px, py));
                if target_cell(s0, w, h, px, py) != cell_at(s0, w, px, py) {
                    let j = choose|j: int|
                        0 <= j < updates@.len() && updates@[j].0 == px && updates@[j].1 == py;
                    assert(0 <= j < k as int && updates@[j].0 == px && updates@[j].1 == py);
                    assert(applied(updates@, k as int, px, py));
                }
                assert(self.at(px, py) == target_cell(s0, w, h, px, py));
            }
            assert(self.cells@ =~= step(s0, w, h));
        }
    }

    /// Advance board state by n cycles
    pub fn advance_n_cycles(&mut self, n: usize)
        requires
            old(self).wf(),
            old(self).width == 0 || old(self).height == 0 || (old(self).width >= 2
                && old(self).height >= 2),
        ensures
            final(self).wf(),
            final(self).width == old(self).width,
            final(self).height == old(self).height,
            final(self).border == old(self).border,
            final(self).cells@ == step_n(
                old(self).cells@,
                old(self).width as int,
                old(self).height as int,
                n as nat,
            ),
    {
        let mut i: usize = 0;
        while i < n
            invariant
                i <= n,
                self.wf(),
                self.width == 0 || self.height == 0 || (self.width >= 2 && self.height >= 2),
                self.width == old(self).width,
                self.height == old(self).height,
                self.border == old(self).border,
                self.cells@ == step_n(
                    old(self).cells@,
                    old(self).width as int,
                    old(self).height as int,
                    i as nat,
                ),
            decreases n - i,
        {
            self.advance_cycle();
            i = i + 1;
        }
    }

    /// Set cell at `x` and `y` to state `c`
    pub fn set(&mut self, x: usize, y: usize, c: Cell)
        requires
            old(self).wf(),
            x < old(self).width,
            y < old(self).height,
        ensures
            final(self).wf(),
            final(self).width == old(self).width,
            final(self).height == old(self).height,
            final(self).border == old(self).border,
            final(self).cells@ == old(self).cells@.update(
                y * old(self).width as int + x,
                c,
            ),
    {
        let idx = self.to_idx(x, y);
        self.cells[idx] = c;
    }

    /// Get cell at `x` and `y`
    pub fn get(&self, x: usize, y: usize) -> (c: Cell)
        requires
            self.wf(),
            x < self.width,
            y < self.height,
        ensures
            c == self.at(x as int, y as int),
    {
        self.cells[self.to_idx(x, y)]
    }

    /// The textual form of the board: one line of two-character cells per
    /// row.
    pub fn render(&self) -> (out: String)
        requires
            self.wf(),
        ensures
            out@ == render_flat(self.cells@, self.width as int),
    {
        let n: usize = self.cells.len();
        let mut out = String::new();
        let mut i: usize = 0;
        while i < n
            invariant
                self.wf(),
                n == self.cells@.len(),
                i <= n,
                out@ == render_upto(self.cells@, self.width as int, i as int),
            decreases n - i,
        {
            proof {
                assert(self.width > 0) by {
                    if self.width == 0 {
                        assert(self.cells@.len() == 0);
                    }
                }
            }
            let cs = self.cells[i].render();
            out.append(cs.as_str());
            if (i + 1) % self.width == 0 {
                out.append("\n");
            }
            i = i + 1;
            proof {
                let s = self.cells@;
                let w = self.width as int;
                assert(render_upto(s, w, i as int) == if i as int % w == 0 {
                    render_upto(s, w, i as int - 1) + cell_chars(s[i as int - 1]) + "\n"@
                } else {
                    render_upto(s, w, i as int - 1) + cell_chars(s[i as int - 1])
                });
            }
        }
        out
    }
}

impl Board {
    /// The index of column `x`, row `y` in the flat cell array.
    fn to_idx(&self, x: usize, y: usize) -> (i: usize)
        requires
            self.wf(),
            x < self.width,
            y < self.height,
        ensures
            i == y * self.width as int + x,
            i < self.cells@.len(),
    {
        // Reading the length shows Verus that the whole grid, and so the
        // index below, fits in a usize.
        let _len: usize = self.cells.len();
        proof {
            vstd::arithmetic::div_mod::lemma_small_mod(y as nat, self.height as nat);
            assert(y * self.width + x < self.width * self.height) by (nonlinear_arith)
                requires
                    x < self.width,
                    y < self.height,
            ;
        }
        ((y % self.height) * self.width) + x
    }

    // ___
    // _X#
    // _##
    fn get_lower_right_neighbors(&self, x: usize, y: usize) -> (r: Vec<Cell>)
        requires
            self.wf(),
            x + 1 < self.width,
            y + 1 < self.height,
        ensures
            r@ == seq![
                self.at(x as int + 1, y as int),
                self.at(x as int, y as int + 1),
                self.at(x as int + 1, y as int + 1),
            ],
    {
        let mut r: Vec<Cell> = Vec::new();
        r.push(self.get(x + 1, y));
        r.push(self.get(x, y + 1));
        r.push(self.get(x + 1, y + 1));
        proof {
            assert(r@ =~= seq![
                self.at(x as int + 1, y as int),
                self.at(x as int, y as int + 1),
                self.at(x as int + 1, y as int + 1),
            ]);
        }
        r
    }

    // ###
    // #X#
    // ___
    fn get_upper_neighbors(&self, x: usize, y: usize) -> (r: Vec<Cell>)
        requires
            self.wf(),
            1 <= x,
            x + 1 < self.width,
            1 <= y,
            y < self.height,
        ensures
            r@ == seq![
                self.at(x as int - 1, y as int - 1),
                self.at(x as int, y as int - 1),
                self.at(x as int + 1, y as int - 1),
                self.at(x as int - 1, y as int),
                self.at(x as int + 1, y as int),
            ],
    {
        let mut r: Vec<Cell> = Vec::new();
        r.push(self.get(x - 1, y - 1));
        r.push(self.get(x, y - 1));
        r.push(self.get(x + 1, y - 1));
        r.push(self.get(x - 1, y));
        r.push(self.get(x + 1, y));
        proof {
            assert(r@ =~= seq![
                self.at(x as int - 1, y as int - 1),
                self.at(x as int, y as int - 1),
                self.at(x as int + 1, y as int - 1),
                self.at(x as int - 1, y as int),
                self.at(x as int + 1, y as int),
            ]);
        }
        r
    }

    // ___
    // #X#
    // ###
    fn get_lower_neighbors(&self, x: usize, y: usize) -> (r: Vec<Cell>)
        requires
            self.wf(),
            1 <= x,
            x + 1 < self.width,
            y + 1 < self.height,
        ensures
            r@ == seq![
                self.at(x as int - 1, y as int),
                self.at(x as int + 1, y as int),
                self.at(x as int - 1, y as int + 1),
                self.at(x as int, y as int + 1),
                self.at(x as int + 1, y as int + 1),
            ],
    {
        let mut r: Vec<Cell> = Vec::new();
        r.push(self.get(x - 1, y));
        r.push(self.get(x + 1, y));
        r.push(self.get(x - 1, y + 1));
        r.push(self.get(x, y + 1));
        r.push(self.get(x + 1, y + 1));
        proof {
            assert(r@ =~= seq![
                self.at(x as int - 1, y as int),
                self.at(x as int + 1, y as int),
                self.at(x as int - 1, y as int + 1),
                self.at(x as int, y as int + 1),
                self.at(x as int + 1, y as int + 1),
            ]);
        }
        r
    }

    // _##
    // _X#
    // _##
    fn get_right_neighbors(&self, x: usize, y: usize) -> (r: Vec<Cell>)
        requires
            self.wf(),
            x + 1 < self.width,
            1 <= y,
            y + 1 < self.height,
        ensures
            r@ == seq![
                self.at(x as int, y as int - 1),
                self.at(x as int + 1, y as int - 1),
                self.at(x as int + 1, y as int),
                self.at(x as int, y as int + 1),
                self.at(x as int + 1, y as int + 1),
            ],
    {
        let mut r: Vec<Cell> = Vec::new();
        r.push(self.get(x, y - 1));
        r.push(self.get(x + 1, y - 1));
        r.push(self.get(x + 1, y));
        r.push(self.get(x, y + 1));
        r.push(self.get(x + 1, y + 1));
        proof {
            assert(r@ =~= seq![
                self.at(x as int, y as int - 1),
                self.at(x as int + 1, y as int - 1),
                self.at(x as int + 1, y as int),
                self.at(x as int, y as int + 1),
                self.at(x as int + 1, y as int + 1),
            ]);
        }
        r
    }

    // _##
    // _X#
    // ___
    fn get_upper_right_neighbors(&self, x: usize, y: usize) -> (r: Vec<Cell>)
        requires
            self.wf(),
            x + 1 < self.width,
            1 <= y,
            y < self.height,
        ensures
            r@ == seq![
                self.at(x as int, y as int - 1),
                self.at(x as int + 1, y as int - 1),
                self.at(x as int + 1, y as int),
            ],
    {
        let mut r: Vec<Cell> = Vec::new();
        r.push(self.get(x, y - 1));
        r.push(self.get(x + 1, y - 1));
        r.push(self.get(x + 1, y));
        proof {
            assert(r@ =~= seq![
                self.at(x as int, y as int - 1),
                self.at(x as int + 1, y as int - 1),
                self.at(x as int + 1, y as int),
            ]);
        }
        r
    }

    // ___
    // #X_
    // ##_
    fn get_lower_left_neighbors(&self, x: usize, y: usize) -> (r: Vec<Cell>)
        requires
            self.wf(),
            1 <= x,
            x < self.width,
            y + 1 < self.height,
        ensures
            r@ == seq![
                self.at(x as int - 1, y as int),
                self.at(x as int - 1, y as int + 1),
                self.at(x as int, y as int + 1),
            ],
    {
        let mut r: Vec<Cell> = Vec::new();
        r.push(self.get(x - 1, y));
        r.push(self.get(x - 1, y + 1));
        r.push(self.get(x, y + 1));
        proof {
            assert(r@ =~= seq![
                self.at(x as int - 1, y as int),
                self.at(x as int - 1, y as int + 1),
                self.at(x as int, y as int + 1),
            ]);
        }
        r
    }

    // ##_
    // #X_
    // ##_
    fn get_left_neighbors(&self, x: usize, y: usize) -> (r: Vec<Cell>)
        requires
            self.wf(),
            1 <= x,
            x < self.width,
            1 <= y,
            y + 1 < self.height,
        ensures
            r@ == seq![
                self.at(x as int - 1, y as int - 1),
                self.at(x as int, y as int - 1),
                self.at(x as int - 1, y as int),
                self.at(x as int - 1, y as int + 1),
                self.at(x as int, y as int + 1),
            ],
    {
        let mut r: Vec<Cell> = Vec::new();
        r.push(self.get(x - 1, y - 1));
        r.push(self.get(x, y - 1));
        r.push(self.get(x - 1, y));
        r.push(self.get(x - 1, y + 1));
        r.push(self.get(x, y + 1));
        proof {
            assert(r@ =~= seq![
                self.at(x as int - 1, y as int - 1),
                self.at(x as int, y as int - 1),
                self.at(x as int - 1, y as int),
                self.at(x as int - 1, y as int + 1),
                self.at(x as int, y as int + 1),
            ]);
        }
        r
    }

    // ##_
    // #X_
    // ___
    fn get_upper_left_neighbors(&self, x: usize, y: usize) -> (r: Vec<Cell>)
        requires
            self.wf(),
            1 <= x,
            x < self.width,
            1 <= y,
            y < self.height,
        ensures
            r@ == seq![
                self.at(x as int - 1, y as int - 1),
                self.at(x as int, y as int - 1),
                self.at(x as int - 1, y as int),
            ],
    {
        let mut r: Vec<Cell> = Vec::new();
        r.push(self.get(x - 1, y - 1));
        r.push(self.get(x, y - 1));
        r.push(self.get(x - 1, y));
        proof {
            assert(r@ =~= seq![
                self.at(x as int - 1, y as int - 1),
                self.at(x as int, y as int - 1),
                self.at(x as int - 1, y as int),
            ]);
        }
        r
    }

    // ###
    // #X#
    // ###
    fn get_all_neighbors(&self, x: usize, y: usize) -> (r: Vec<Cell>)
        requires
            self.wf(),
            1 <= x,
            x + 1 < self.width,
            1 <= y,
            y + 1 < self.height,
        ensures
            r@ == seq![
                self.at(x as int - 1, y as int - 1),
                self.at(x as int, y as int - 1),
                self.at(x as int + 1, y as int - 1),
                self.at(x as int - 1, y as int),
                self.at(x as int + 1, y as int),
                self.at(x as int - 1, y as int + 1),
                self.at(x as int, y as int + 1),
                self.at(x as int + 1, y as int + 1),
            ],
    {
        let mut r: Vec<Cell> = Vec::new();
        r.push(self.get(x - 1, y - 1));
        r.push(self.get(x, y - 1));
        r.push(self.get(x + 1, y - 1));
        r.push(self.get(x - 1, y));
        r.push(self.get(x + 1, y));
        r.push(self.get(x - 1, y + 1));
        r.push(self.get(x, y + 1));
        r.push(self.get(x + 1, y + 1));
        proof {
            assert(r@ =~= seq![
                self.at(x as int - 1, y as int - 1),
                self.at(x as int, y as int - 1),
                self.at(x as int + 1, y as int - 1),
                self.at(x as int - 1, y as int),
                self.at(x as int + 1, y as int),
                self.at(x as int - 1, y as int + 1),
                self.at(x as int, y as int + 1),
                self.at(x as int + 1, y as int + 1),
            ]);
        }
        r
    }

    /// The neighbors of `(x, y)` that lie on the board, in row-major order.
    fn get_neighbors(&self, x: usize, y: usize) -> (r: Vec<Cell>)
        requires
            self.wf(),
            self.width >= 2,
            self.height >= 2,
            x < self.width,
            y < self.height,
        ensures
            r@ == neighbor_seq(
                self.cells@,
                self.width as int,
                self.height as int,
                x as int,
                y as int,
            ),
    {
        let w: usize = self.width - 1;
        let h: usize = self.height - 1;
        let ghost s = self.cells@;
        let ghost wi = self.width as int;
        let ghost hi = self.height as int;

        if x > 0 && x < w && y == h {
            let r = self.get_upper_neighbors(x, y);
            proof {
                lemma_neighbor_seq_upper(s, wi, hi, x as int, y as int);
            }
            r
        } else if x == 0 && y == h {
            let r = self.get_upper_right_neighbors(x, y);
            proof {
                lemma_neighbor_seq_upper_right(s, wi, hi, x as int, y as int);
            }
            r
        } else if x == 0 && y > 0 && y < h {
            let r = self.get_right_neighbors(x, y);
            proof {
                lemma_neighbor_seq_right(s, wi, hi, x as int, y as int);
            }
            r
        } else if x == 0 && y == 0 {
            let r = self.get_lower_right_neighbors(x, y);
            proof {
                lemma_neighbor_seq_lower_right(s, wi, hi, x as int, y as int);
            }
            r
        } else if x > 0 && x < w && y == 0 {
            let r = self.get_lower_neighbors(x, y);
            proof {
                lemma_neighbor_seq_lower(s, wi, hi, x as int, y as int);
            }
            r
        } else if x == w && y == 0 {
            let r = self.get_lower_left_neighbors(x, y);
            proof {
                lemma_neighbor_seq_lower_left(s, wi, hi, x as int, y as int);
            }
            r
        } else if x == w && y > 0 && y < h {
            let r = self.get_left_neighbors(x, y);
            proof {
                lemma_neighbor_seq_left(s, wi, hi, x as int, y as int);
            }
            r
        } else if x == w && y == h {
            let r = self.get_upper_left_neighbors(x, y);
            proof {
                lemma_neighbor_seq_upper_left(s, wi, hi, x as int, y as int);
            }
            r
        } else {
            let r = self.get_all_neighbors(x, y);
            proof {
                lemma_neighbor_seq_all(s, wi, hi, x as int, y as int);
            }
            r
        }
    }

    /// How many of the neighbors of `(x, y)` on the board are alive.
    pub fn get_live_neighbor_count(&self, x: usize, y: usize) -> (n: usize)
        requires
            self.wf(),
            self.width >= 2,
            self.height >= 2,
            x < self.width,
            y < self.height,
        ensures
            n == neighbor_weight(
                self.cells@,
                self.width as int,
                self.height as int,
                x as int,
                y as int,
            ),
    {
        let neighbors = self.get_neighbors(x, y);
        let mut n: usize = 0;
        let mut i: usize = 0;
        while i < neighbors.len()
            invariant
                i <= neighbors@.len(),
                n <= i,
                n == count_live(neighbors@.take(i as int)),
            decreases neighbors@.len() - i,
        {
            proof {
                assert(neighbors@.take(i as int + 1).drop_last() =~= neighbors@.take(i as int));
                assert(neighbors@.take(i as int + 1).last() == neighbors@[i as int]);
            }
            if neighbors[i] == Cell::Alive {
                n = n + 1;
            }
            i = i + 1;
        }
        proof {
            assert(neighbors@.take(neighbors@.len() as int) =~= neighbors@);
            lemma_count_live_neighbor_seq(
                self.cells@,
                self.width as int,
                self.height as int,
                x as int,
                y as int,
            );
        }
        n
    }

    /// Whether the cell at `(x, y)` lives in the next generation.
    pub fn cell_should_live(&self, x: usize, y: usize) -> (r: bool)
        requires
            self.wf(),
            self.width >= 2,
            self.height >= 2,
            x < self.width,
            y < self.height,
        ensures
            r == should_live_at(
                self.cells@,
                self.width as int,
                self.height as int,
                x as int,
                y as int,
            ),
    {
        let cell = self.get(x, y);

        match self.get_live_neighbor_count(x, y) {
            3 => true,
            2 => cell == Cell::Alive,
            _ => false,
        }
    }

    /// The row of cells a line of a board file stands for.
    pub fn parse_str_as_cells(string: &str) -> (r: Vec<Cell>)
        ensures
            r@ == cells_of_bytes(encode_utf8(string@)),
    {
        let bytes = string.as_bytes_vec();
        let mut cell_row: Vec<Cell> = Vec::new();
        let mut i: usize = 0;
        while i < bytes.len()
            invariant
                i <= bytes@.len(),
                bytes@ == encode_utf8(string@),
                cell_row@.len() == i,
                forall|j: int|
                    0 <= j < i ==> cell_row@[j] == cells_of_bytes(encode_utf8(string@))[j],
            decreases bytes@.len() - i,
        {
            let b = bytes[i];
            if b == FILE_LIVE_CHAR {
                cell_row.push(Cell::Alive);
            } else if b == FILE_DEAD_CHAR {
                cell_row.push(Cell::Dead);
            } else {
                cell_row.push(Cell::Dead);
            }
            i = i + 1;
        }
        proof {
            assert(cell_row@ =~= cells_of_bytes(encode_utf8(string@)));
        }
        cell_row
    }

    /// The border option a line of a board file names, if any.
    pub fn parse_str_as_border_opt(string: &str) -> (r: Option<BorderOpt>)
        ensures
            r == border_opt_of(string@),
    {
        if str_eq(string, "solid") {
            Some(BorderOpt::Solid)
        } else if str_eq(string, "empty") {
            Some(BorderOpt::Empty)
        } else {
            None
        }
    }
}

/// Whether two strings hold the same characters.
pub(crate) fn str_eq(a: &str, b: &str) -> (r: bool)
    ensures
        r == (a@ == b@),
{
    let la = a.unicode_len();
    let lb = b.unicode_len();
    if la != lb {
        return false;
    }
    let mut i: usize = 0;
    while i < la
        invariant
            i <= la,
            la == a@.len(),
            la == b@.len(),
            forall|j: int| 0 <= j < i ==> a@[j] == b@[j],
        decreases la - i,
    {
        if a.get_char(i) != b.get_char(i) {
            return false;
        }
        i = i + 1;
    }
    proof {
        assert(a@ =~= b@);
    }
    true
}

impl Default for Board {
    /// An empty ten-by-ten board with an empty border.
    fn default() -> (b: Board)
        ensures
            b.wf(),
            b.width == 10,
            b.height == 10,
            b.border == BorderOpt::Empty,
            forall|i: int| 0 <= i < b.cells@.len() ==> b.cells@[i] == Cell::Dead,
    {
        Board::new(10, 10, BorderOpt::Empty)
    }
}

} // verus!

