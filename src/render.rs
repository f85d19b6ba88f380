use crate::board::{in_grid, square_value, Board, Square};
use vstd::arithmetic::power2::{lemma2_to64, lemma_pow2_strictly_increases, lemma_pow2_unfold, pow2};
use vstd::prelude::*;

verus! {

/// Side of the board, in cells.
pub const SIZE: u16 = 4;

/// Width of one cell on screen, in columns.
pub const MAX_DIGIT_WIDTH: u16 = 5;

/// The message shown below the board when no move is left.
pub const GAME_OVER: &'static str = "Game over";

/// A colour given by its red, green and blue components.
#[derive(Clone, Copy, Debug, PartialEq, Eq, Structural)]
pub struct Rgb {
    pub r: u8,
    pub g: u8,
    pub b: u8,
}

/// The colour of the digits of a square.
#[derive(Clone, Copy, Debug, PartialEq, Eq, Structural)]
pub enum TextColor {
    Black,
    White,
}

/// One logical operation on the terminal. The renderer produces them; whoever
/// owns the terminal performs them in order.
#[derive(Clone, Copy, Debug, PartialEq, Eq)]
pub enum TermOp {
    MoveUp(u16),
    MoveDown(u16),
    MoveToColumn(u16),
    MoveRight(u16),
    SetBackground(Rgb),
    SetForeground(TextColor),
    SetBold,
    /// Write a number right-justified in a field of `MAX_DIGIT_WIDTH` columns.
    WriteField(u32),
    /// Write `MAX_DIGIT_WIDTH` spaces.
    WriteBlank,
    ResetColor,
    WriteText(&'static str),
}

/// Why a board could not be drawn.
#[derive(Clone, Copy, Debug, PartialEq, Eq, Structural)]
pub enum RenderError {
    /// The terminal has fewer columns or rows than the board needs.
    TooSmall,
}

/// Background colour of a square of exponent `e`, and whether its digits are dark.
pub open spec fn palette(e: u8) -> (Rgb, bool) {
    match e {
        0 => (Rgb { r: 238, g: 228, b: 218 }, true),
        1 => (Rgb { r: 237, g: 224, b: 200 }, true),
        2 => (Rgb { r: 242, g: 177, b: 121 }, false),
        3 => (Rgb { r: 245, g: 149, b: 99 }, false),
        4 => (Rgb { r: 246, g: 124, b: 95 }, false),
        5 => (Rgb { r: 246, g: 94, b: 59 }, false),
        6 => (Rgb { r: 237, g: 207, b: 114 }, true),
        7 => (Rgb { r: 237, g: 204, b: 97 }, false),
        8 => (Rgb { r: 237, g: 200, b: 80 }, false),
        9 => (Rgb { r: 237, g: 197, b: 63 }, false),
        10 => (Rgb { r: 237, g: 194, b: 68 }, false),
        11 => (Rgb { r: 181, g: 134, b: 180 }, false),
        12 => (Rgb { r: 168, g: 97, b: 171 }, false),
        13 => (Rgb { r: 160, g: 72, b: 163 }, false),
        14 => (Rgb { r: 128, g: 0, b: 128 }, false),
        _ => (Rgb { r: 96, g: 0, b: 70 }, false),
    }
}

impl Square {
    /// The number shown on this square, `2^(e+1)`.
    pub fn value(self) -> (r: u32)
        requires
            self.0 <= 15,
        ensures
            r == square_value(self),
    {
        let mut v: u32 = 2;
        let mut i: u8 = 0;
        proof {
            lemma2_to64();
        }
        while i < self.0
            invariant
                i <= self.0 <= 15,
                v == pow2((i + 1) as nat),
            decreases self.0 - i,
        {
            proof {
                lemma2_to64();
                lemma_pow2_unfold((i + 2) as nat);
                if i + 2 < 16 {
                    lemma_pow2_strictly_increases((i + 2) as nat, 16);
                }
            }
            v = v * 2;
            i = i + 1;
        }
        v
    }

    /// Background colour of this square, and whether its digits are dark.
    pub fn color(self) -> (r: (Rgb, bool))
        requires
            self.0 <= 15,
        ensures
            r == palette(self.0),
    {
        match self.0 {
            0 => (Rgb { r: 238, g: 228, b: 218 }, true),
            1 => (Rgb { r: 237, g: 224, b: 200 }, true),
            2 => (Rgb { r: 242, g: 177, b: 121 }, false),
            3 => (Rgb { r: 245, g: 149, b: 99 }, false),
            4 => (Rgb { r: 246, g: 124, b: 95 }, false),
            5 => (Rgb { r: 246, g: 94, b: 59 }, false),
            6 => (Rgb { r: 237, g: 207, b: 114 }, true),
            7 => (Rgb { r: 237, g: 204, b: 97 }, false),
            8 => (Rgb { r: 237, g: 200, b: 80 }, false),
            9 => (Rgb { r: 237, g: 197, b: 63 }, false),
            10 => (Rgb { r: 237, g: 194, b: 68 }, false),
            11 => (Rgb { r: 181, g: 134, b: 180 }, false),
            12 => (Rgb { r: 168, g: 97, b: 171 }, false),
            13 => (Rgb { r: 160, g: 72, b: 163 }, false),
            14 => (Rgb { r: 128, g: 0, b: 128 }, false),
            _ => (Rgb { r: 96, g: 0, b: 70 }, false),
        }
    }
}

/// The operations that draw one square at the cursor, leaving colours reset.
pub open spec fn cell_ops(t: Square) -> Seq<TermOp> {
    let (bg, dark) = palette(t.0);
    seq![TermOp::SetBackground(bg)] + (if dark {
        seq![TermOp::SetForeground(TextColor::Black)]
    } else {
        seq![TermOp::SetForeground(TextColor::White), TermOp::SetBold]
    }) + seq![TermOp::WriteField(square_value(t) as u32), TermOp::ResetColor]
}

/// The operations for cells `0..k` of row `y` in a full redraw: a square is
/// drawn, an empty cell is stepped over.
pub open spec fn row_ops(b: Board, y: int, k: int) -> Seq<TermOp>
    decreases k,
{
    if k <= 0 {
        seq![]
    } else {
        row_ops(b, y, k - 1) + match b.cell(k - 1, y) {
            Some(t) => cell_ops(t),
            None => seq![TermOp::MoveRight(MAX_DIGIT_WIDTH)],
        }
    }
}

/// The operations for rows `0..n` in a full redraw, each starting on a new line.
pub open spec fn rows_ops(b: Board, n: int) -> Seq<TermOp>
    decreases n,
{
    if n <= 0 {
        seq![]
    } else {
        rows_ops(b, n - 1) + seq![TermOp::MoveDown(1), TermOp::MoveToColumn(0)] + row_ops(
            b,
            n - 1,
            4,
        )
    }
}

/// A full redraw of `b` with the cursor on row `cursor`: back to the home row, then
/// every row.
pub open spec fn full_draw(b: Board, cursor: u16) -> Seq<TermOp> {
    (if cursor != 0 {
        seq![TermOp::MoveUp(cursor)]
    } else {
        seq![]
    }) + rows_ops(b, 4)
}

/// The vertical cursor movement from row `from` to row `to`; none when they agree.
pub open spec fn vertical_move(from: int, to: int) -> Seq<TermOp> {
    if to < from {
        seq![TermOp::MoveUp((from - to) as u16)]
    } else if to > from {
        seq![TermOp::MoveDown((to - from) as u16)]
    } else {
        seq![]
    }
}

/// The terminal row of board row `y`. Rows are counted from the home row just
/// above the board, so the board fills rows `1..=SIZE` and the message row is
/// `SIZE + 1`.
pub open spec fn screen_row(y: int) -> int {
    y + 1
}

/// How far down the cursor ends up after `ops`, counting a move up as negative.
pub open spec fn net_vertical(ops: Seq<TermOp>) -> int
    decreases ops.len(),
{
    if ops.len() == 0 {
        0
    } else {
        net_vertical(ops.drop_last()) + match ops.last() {
            TermOp::MoveUp(n) => -(n as int),
            TermOp::MoveDown(n) => n as int,
            _ => 0,
        }
    }
}

/// The operations that redraw cell `(x, y)` of `b` with the cursor on row `from`:
/// to the cell, then its square or five blanks.
pub open spec fn redraw_cell(b: Board, from: int, x: int, y: int) -> Seq<TermOp> {
    vertical_move(from, screen_row(y)) + seq![TermOp::MoveToColumn((MAX_DIGIT_WIDTH * x) as u16)]
        + match b.cell(x, y) {
        Some(t) => cell_ops(t),
        None => seq![TermOp::WriteBlank],
    }
}

/// The incremental redraw from `old` to `new` of cells `k..16` in row-major order,
/// with the cursor on row `cursor`: each changed cell is redrawn, and nothing is
/// written for an unchanged one.
pub open spec fn diff_ops(old: Board, new: Board, cursor: int, k: int) -> Seq<TermOp>
    decreases 16 - k,
{
    if k >= 16 {
        seq![]
    } else {
        let x = k % 4;
        let y = k / 4;
        if old.cell(x, y) == new.cell(x, y) {
            diff_ops(old, new, cursor, k + 1)
        } else {
            redraw_cell(new, cursor, x, y) + diff_ops(old, new, screen_row(y), k + 1)
        }
    }
}

/// The cursor row after the incremental redraw of cells `k..16`.
pub open spec fn diff_cursor(old: Board, new: Board, cursor: int, k: int) -> int
    decreases 16 - k,
{
    if k >= 16 {
        cursor
    } else {
        let x = k % 4;
        let y = k / 4;
        if old.cell(x, y) == new.cell(x, y) {
            diff_cursor(old, new, cursor, k + 1)
        } else {
            diff_cursor(old, new, screen_row(y), k + 1)
        }
    }
}

proof fn lemma_diff_single(old: Board, new: Board, cursor: int, x: int, y: int, k: int)
    requires
        in_grid(x, y),
        0 <= k <= 16,
        forall|x1: int, y1: int|
            #[trigger] in_grid(x1, y1) && (x1, y1) != (x, y) ==> old.cell(x1, y1) == new.cell(x1, y1),
    ensures
        k <= 4 * y + x && old.cell(x, y) != new.cell(x, y) ==> diff_ops(old, new, cursor, k)
            == redraw_cell(new, cursor, x, y) && diff_cursor(old, new, cursor, k) == screen_row(y),
        k > 4 * y + x || old.cell(x, y) == new.cell(x, y) ==> diff_ops(old, new, cursor, k)
            == Seq::<TermOp>::empty() && diff_cursor(old, new, cursor, k) == cursor,
    decreases 16 - k,
{
    if k < 16 {
        lemma_diff_single(old, new, cursor, x, y, k + 1);
        lemma_diff_single(old, new, screen_row(y), x, y, k + 1);
        let x1 = k % 4;
        let y1 = k / 4;
        assert(in_grid(x1, y1));
        if k == 4 * y + x {
            assert(x1 == x && y1 == y);
            assert(redraw_cell(new, cursor, x, y) + Seq::<TermOp>::empty() =~= redraw_cell(
                new,
                cursor,
                x,
                y,
            ));
        } else {
            assert((x1, y1) != (x, y));
        }
    }
}

/// When two boards differ in exactly one cell, the incremental redraw moves to
/// that cell and redraws it, and writes nothing for any other cell.
pub proof fn law_redraw_single_change(old: Board, new: Board, cursor: int, x: int, y: int)
    requires
        in_grid(x, y),
        old.cell(x, y) != new.cell(x, y),
        forall|x1: int, y1: int|
            #[trigger] in_grid(x1, y1) && (x1, y1) != (x, y) ==> old.cell(x1, y1) == new.cell(x1, y1),
    ensures
        diff_ops(old, new, cursor, 0) == redraw_cell(new, cursor, x, y),
        diff_cursor(old, new, cursor, 0) == screen_row(y),
{
    lemma_diff_single(old, new, cursor, x, y, 0);
}

proof fn lemma_net_concat(a: Seq<TermOp>, b: Seq<TermOp>)
    ensures
        net_vertical(a + b) == net_vertical(a) + net_vertical(b),
    decreases b.len(),
{
    if b.len() > 0 {
        lemma_net_concat(a, b.drop_last());
        assert((a + b).drop_last() =~= a + b.drop_last());
        assert((a + b).last() == b.last());
    } else {
        assert(a + b =~= a);
    }
}

proof fn lemma_net_level(s: Seq<TermOp>)
    requires
        forall|i: int| 0 <= i < s.len() ==> !(#[trigger] s[i] is MoveUp) && !(s[i] is MoveDown),
    ensures
        net_vertical(s) == 0,
    decreases s.len(),
{
    if s.len() > 0 {
        lemma_net_level(s.drop_last());
    }
}

proof fn lemma_net_single(op: TermOp)
    ensures
        net_vertical(seq![op]) == match op {
            TermOp::MoveUp(n) => -(n as int),
            TermOp::MoveDown(n) => n as int,
            _ => 0,
        },
{
    assert(seq![op].drop_last() =~= Seq::<TermOp>::empty());
    assert(net_vertical(Seq::<TermOp>::empty()) == 0);
    assert(seq![op].last() == op);
}

proof fn lemma_net_cell(t: Square)
    ensures
        net_vertical(cell_ops(t)) == 0,
{
    let ops = cell_ops(t);
    assert forall|i: int| 0 <= i < ops.len() implies !(#[trigger] ops[i] is MoveUp) && !(
    ops[i] is MoveDown) by {
        if palette(t.0).1 {
            assert(ops =~= seq![
                TermOp::SetBackground(palette(t.0).0),
                TermOp::SetForeground(TextColor::Black),
                TermOp::WriteField(square_value(t) as u32),
                TermOp::ResetColor,
            ]);
        } else {
            assert(ops =~= seq![
                TermOp::SetBackground(palette(t.0).0),
                TermOp::SetForeground(TextColor::White),
                TermOp::SetBold,
                TermOp::WriteField(square_value(t) as u32),
                TermOp::ResetColor,
            ]);
        }
    }
    lemma_net_level(ops);
}

proof fn lemma_net_row(b: Board, y: int, k: int)
    ensures
        net_vertical(row_ops(b, y, k)) == 0,
    decreases k,
{
    if k > 0 {
        lemma_net_row(b, y, k - 1);
        let tail = match b.cell(k - 1, y) {
            Some(t) => cell_ops(t),
            None => seq![TermOp::MoveRight(MAX_DIGIT_WIDTH)],
        };
        lemma_net_concat(row_ops(b, y, k - 1), tail);
        match b.cell(k - 1, y) {
            Some(t) => lemma_net_cell(t),
            None => lemma_net_single(TermOp::MoveRight(MAX_DIGIT_WIDTH)),
        }
    }
}

proof fn lemma_net_rows(b: Board, n: int)
    requires
        n >= 0,
    ensures
        net_vertical(rows_ops(b, n)) == n,
    decreases n,
{
    if n > 0 {
        lemma_net_rows(b, n - 1);
        let step = seq![TermOp::MoveDown(1), TermOp::MoveToColumn(0)];
        assert(step.drop_last() =~= seq![TermOp::MoveDown(1)]);
        lemma_net_single(TermOp::MoveDown(1));
        lemma_net_concat(rows_ops(b, n - 1), step);
        lemma_net_row(b, n - 1, 4);
        lemma_net_concat(rows_ops(b, n - 1) + step, row_ops(b, n - 1, 4));
    }
}

/// A full redraw leaves the cursor on the last board row.
proof fn lemma_net_full(b: Board, cursor: u16)
    ensures
        cursor + net_vertical(full_draw(b, cursor)) == SIZE,
{
    let head: Seq<TermOp> = if cursor != 0 {
        seq![TermOp::MoveUp(cursor)]
    } else {
        seq![]
    };
    lemma_net_single(TermOp::MoveUp(cursor));
    lemma_net_rows(b, 4);
    lemma_net_concat(head, rows_ops(b, 4));
}

/// The incremental redraw moves the cursor from `cursor` to the row it records.
proof fn lemma_net_diff(old: Board, new: Board, cursor: int, k: int)
    requires
        0 <= cursor <= u16::MAX,
        0 <= k,
    ensures
        cursor + net_vertical(diff_ops(old, new, cursor, k)) == diff_cursor(old, new, cursor, k),
    decreases 16 - k,
{
    if k < 16 {
        let x = k % 4;
        let y = k / 4;
        if old.cell(x, y) == new.cell(x, y) {
            lemma_net_diff(old, new, cursor, k + 1);
        } else {
            lemma_net_diff(old, new, screen_row(y), k + 1);
            let v = vertical_move(cursor, screen_row(y));
            let col = seq![TermOp::MoveToColumn((MAX_DIGIT_WIDTH * x) as u16)];
            let tail = match new.cell(x, y) {
                Some(t) => cell_ops(t),
                None => seq![TermOp::WriteBlank],
            };
            match new.cell(x, y) {
                Some(t) => lemma_net_cell(t),
                None => lemma_net_single(TermOp::WriteBlank),
            }
            lemma_net_single(TermOp::MoveUp((cursor - screen_row(y)) as u16));
            lemma_net_single(TermOp::MoveDown((screen_row(y) - cursor) as u16));
            lemma_net_single(TermOp::MoveToColumn((MAX_DIGIT_WIDTH * x) as u16));
            lemma_net_concat(v, col);
            lemma_net_concat(v + col, tail);
            lemma_net_concat(redraw_cell(new, cursor, x, y), diff_ops(old, new, screen_row(y), k + 1));
        }
    }
}

/// A terminal of this size cannot show the board.
pub open spec fn too_small(size: (u16, u16)) -> bool {
    size.0 < SIZE * MAX_DIGIT_WIDTH || size.1 < SIZE
}

/// Draws boards on a terminal, redrawing only the cells that changed since the
/// last board it drew.
pub struct Renderer {
    /// Columns and rows of the terminal.
    pub size: (u16, u16),
    /// The row the cursor sits on, counted as `screen_row` counts: home is the row
    /// just above the board.
    pub cursor_row: u16,
    /// What is on the screen, if known.
    pub old_board: Option<Board>,
}

/// Append the operations that draw one square.
fn draw_cell(ops: &mut Vec<TermOp>, cell: Square)
    requires
        cell.0 <= 15,
    ensures
        final(ops)@ == old(ops)@ + cell_ops(cell),
{
    let (bg, is_dark) = cell.color();
    ops.push(TermOp::SetBackground(bg));
    if is_dark {
        ops.push(TermOp::SetForeground(TextColor::Black));
    } else {
        ops.push(TermOp::SetForeground(TextColor::White));
        ops.push(TermOp::SetBold);
    }
    ops.push(TermOp::WriteField(cell.value()));
    ops.push(TermOp::ResetColor);
}

impl Renderer {
    /// A renderer for a terminal of `size`, with the cursor on the last of the
    /// rows set aside for the board and the message, and nothing drawn yet.
    pub fn new(size: (u16, u16)) -> (r: Renderer)
        ensures
            r.size == size,
            r.cursor_row == SIZE + 1,
            r.old_board is None,
    {
        Renderer { size, cursor_row: SIZE + 1, old_board: None }
    }

    /// Handle a resize: the next draw is a full redraw.
    pub fn resize(&mut self, new_size: (u16, u16))
        ensures
            final(self).size == new_size,
            final(self).cursor_row == old(self).cursor_row,
            final(self).old_board is None,
    {
        self.size = new_size;
        self.old_board = None;
    }

    /// The operations that write the game-over message, centred below the board.
    pub fn lose(&self) -> (r: Vec<TermOp>)
        requires
            self.cursor_row <= SIZE + 1,
        ensures
            r@ == seq![
                TermOp::MoveDown((1 + SIZE - self.cursor_row) as u16),
                TermOp::MoveToColumn(((SIZE * MAX_DIGIT_WIDTH - GAME_OVER@.len()) / 2) as u16),
                TermOp::WriteText(GAME_OVER),
            ],
    {
        proof {
            reveal_strlit("Game over");
        }
        let len = GAME_OVER.unicode_len();
        let mut r: Vec<TermOp> = Vec::new();
        r.push(TermOp::MoveDown(1 + SIZE - self.cursor_row));
        r.push(TermOp::MoveToColumn((SIZE * MAX_DIGIT_WIDTH - len as u16) / 2));
        r.push(TermOp::WriteText(GAME_OVER));
        r
    }

    /// Draw `board`: fully when nothing is known to be on the screen, else only
    /// the cells that differ from the last board drawn. Fails, writing nothing,
    /// when the terminal is too small.
    pub fn draw_board(&mut self, board: &Board) -> (r: Result<Vec<TermOp>, RenderError>)
        requires
            board.exponents_below(16),
        ensures
            too_small(old(self).size) ==> r == Err::<Vec<TermOp>, RenderError>(
                RenderError::TooSmall,
            ) && *final(self) == *old(self),
            !too_small(old(self).size) ==> {
                &&& r is Ok
                &&& r.unwrap()@ == match old(self).old_board {
                    Some(o) => diff_ops(o, *board, old(self).cursor_row as int, 0),
                    None => full_draw(*board, old(self).cursor_row),
                }
                &&& final(self).cursor_row == match old(self).old_board {
                    Some(o) => diff_cursor(o, *board, old(self).cursor_row as int, 0),
                    None => SIZE as int,
                }
                &&& final(self).cursor_row == old(self).cursor_row + net_vertical(r.unwrap()@)
                &&& final(self).size == old(self).size
                &&& final(self).old_board == Some(*board)
            },
    {
        if self.size.0 < SIZE * MAX_DIGIT_WIDTH || self.size.1 < SIZE {
            return Err(RenderError::TooSmall);
        }
        let mut ops: Vec<TermOp> = Vec::new();
        if let Some(old_board) = self.old_board {
            let ghost c0 = self.cursor_row as int;
            let mut k: usize = 0;
            while k < 16
                invariant
                    k <= 16,
                    board.exponents_below(16),
                    ops@ + diff_ops(old_board, *board, self.cursor_row as int, k as int) == diff_ops(
                        old_board,
                        *board,
                        c0,
                        0,
                    ),
                    diff_cursor(old_board, *board, self.cursor_row as int, k as int) == diff_cursor(
                        old_board,
                        *board,
                        c0,
                        0,
                    ),
                    self.size == old(self).size,
                    self.old_board == old(self).old_board,
                decreases 16 - k,
            {
                let col_id = k % 4;
                let row_id = k / 4;
                let old_cell = old_board.rows[row_id][col_id];
                let new_cell = board.rows[row_id][col_id];
                if old_cell != new_cell {
                    let ghost before = ops@;
                    let ghost from = self.cursor_row as int;
                    let screen_row = row_id as u16 + 1;
                    let screen_col = MAX_DIGIT_WIDTH * (col_id as u16);
                    if screen_row < self.cursor_row {
                        ops.push(TermOp::MoveUp(self.cursor_row - screen_row));
                    } else if screen_row > self.cursor_row {
                        ops.push(TermOp::MoveDown(screen_row - self.cursor_row));
                    }
                    assert(screen_row == crate::render::screen_row(row_id as int));
                    self.cursor_row = screen_row;
                    ops.push(TermOp::MoveToColumn(screen_col));
                    match new_cell {
                        Some(cell) => {
                            assert(board.cell(col_id as int, row_id as int) == Some(cell));
                            draw_cell(&mut ops, cell);
                        },
                        None => {
                            ops.push(TermOp::WriteBlank);
                        },
                    }
                    assert(ops@ =~= before + redraw_cell(*board, from, col_id as int, row_id as int));
                    assert(before + diff_ops(old_board, *board, from, k as int) =~= ops@
                        + diff_ops(old_board, *board, row_id + 1, k + 1));
                }
                k += 1;
            }
            assert(ops@ + diff_ops(old_board, *board, self.cursor_row as int, 16) =~= ops@);
            proof {
                lemma_net_diff(old_board, *board, c0, 0);
            }
        } else {
            if self.cursor_row != 0 {
                ops.push(TermOp::MoveUp(self.cursor_row));
            }
            let ghost home = ops@;
            let mut row_id: usize = 0;
            while row_id < 4
                invariant
                    row_id <= 4,
                    board.exponents_below(16),
                    ops@ == home + rows_ops(*board, row_id as int),
                decreases 4 - row_id,
            {
                ops.push(TermOp::MoveDown(1));
                ops.push(TermOp::MoveToColumn(0));
                let ghost line_start = ops@;
                let mut col_id: usize = 0;
                while col_id < 4
                    invariant
                        row_id < 4,
                        col_id <= 4,
                        board.exponents_below(16),
                        ops@ == line_start + row_ops(*board, row_id as int, col_id as int),
                    decreases 4 - col_id,
                {
                    let ghost before = ops@;
                    match board.rows[row_id][col_id] {
                        Some(cell) => {
                            assert(board.cell(col_id as int, row_id as int) == Some(cell));
                            draw_cell(&mut ops, cell);
                        },
                        None => {
                            ops.push(TermOp::MoveRight(MAX_DIGIT_WIDTH));
                        },
                    }
                    assert(ops@ =~= line_start + row_ops(*board, row_id as int, col_id + 1));
                    col_id += 1;
                }
                assert(ops@ =~= home + rows_ops(*board, row_id + 1));
                row_id += 1;
            }
            proof {
                lemma_net_full(*board, old(self).cursor_row);
            }
            self.cursor_row = SIZE;
        }
        self.old_board = Some(*board);
        Ok(ops)
    }
}

} // verus!
