use play_2048::render::{Renderer, GAME_OVER};
use play_2048::{Board, RenderError, Rgb, Square, TermOp, TextColor};

fn sq(e: u8) -> Option<Square> {
    Some(Square(e))
}

fn cell_ops(value: u32, bg: Rgb, dark: bool) -> Vec<TermOp> {
    let mut v = vec![TermOp::SetBackground(bg)];
    if dark {
        v.push(TermOp::SetForeground(TextColor::Black));
    } else {
        v.push(TermOp::SetForeground(TextColor::White));
        v.push(TermOp::SetBold);
    }
    v.push(TermOp::WriteField(value));
    v.push(TermOp::ResetColor);
    v
}

#[test]
fn square_values() {
    assert_eq!(Square(0).value(), 2);
    assert_eq!(Square(1).value(), 4);
    assert_eq!(Square(10).value(), 2048);
    assert_eq!(Square(15).value(), 65536);
}

#[test]
fn square_colors() {
    assert_eq!(Square(0).color(), (Rgb { r: 238, g: 228, b: 218 }, true));
    assert_eq!(Square(6).color(), (Rgb { r: 237, g: 207, b: 114 }, true));
    assert_eq!(Square(10).color(), (Rgb { r: 237, g: 194, b: 68 }, false));
    assert_eq!(Square(15).color(), (Rgb { r: 96, g: 0, b: 70 }, false));
}

#[test]
fn too_small_terminal_is_refused() {
    let mut r = Renderer::new((19, 10));
    assert_eq!(r.draw_board(&Board::new()), Err(RenderError::TooSmall));
    assert!(r.old_board.is_none());
    assert_eq!(r.cursor_row, 5);
    let mut short = Renderer::new((80, 3));
    assert_eq!(short.draw_board(&Board::new()), Err(RenderError::TooSmall));
    let mut exact = Renderer::new((20, 4));
    assert!(exact.draw_board(&Board::new()).is_ok());
}

#[test]
fn full_draw_of_a_board() {
    let mut b = Board::new();
    b.rows[0][0] = sq(0);
    b.rows[3][2] = sq(3);
    let mut r = Renderer::new((80, 24));
    let ops = r.draw_board(&b).unwrap();
    let mut expect = vec![TermOp::MoveUp(5)];
    for y in 0..4 {
        expect.push(TermOp::MoveDown(1));
        expect.push(TermOp::MoveToColumn(0));
        for x in 0..4 {
            if y == 0 && x == 0 {
                expect.extend(cell_ops(2, Rgb { r: 238, g: 228, b: 218 }, true));
            } else if y == 3 && x == 2 {
                expect.extend(cell_ops(16, Rgb { r: 245, g: 149, b: 99 }, false));
            } else {
                expect.push(TermOp::MoveRight(5));
            }
        }
    }
    assert_eq!(ops, expect);
    assert_eq!(r.cursor_row, 4);
    assert_eq!(r.old_board, Some(b));
}

#[test]
fn unchanged_board_draws_nothing() {
    let mut b = Board::new();
    b.rows[1][1] = sq(2);
    let mut r = Renderer::new((80, 24));
    r.draw_board(&b).unwrap();
    assert_eq!(r.draw_board(&b).unwrap(), vec![]);
    assert_eq!(r.cursor_row, 4);
}

#[test]
fn single_change_redraws_one_cell() {
    let b = Board::new();
    let mut r = Renderer::new((80, 24));
    r.draw_board(&b).unwrap();
    let mut c = b;
    c.rows[1][2] = sq(1);
    let ops = r.draw_board(&c).unwrap();
    let mut expect = vec![TermOp::MoveUp(2), TermOp::MoveToColumn(10)];
    expect.extend(cell_ops(4, Rgb { r: 237, g: 224, b: 200 }, true));
    assert_eq!(ops, expect);
    assert_eq!(r.cursor_row, 2);
    let mut d = c;
    d.rows[1][2] = None;
    let ops = r.draw_board(&d).unwrap();
    assert_eq!(ops, vec![TermOp::MoveToColumn(10), TermOp::WriteBlank]);
}

#[test]
fn cursor_follows_changed_rows() {
    let mut r = Renderer::new((80, 24));
    r.draw_board(&Board::new()).unwrap();
    let mut b = Board::new();
    b.rows[0][0] = sq(0);
    b.rows[0][3] = sq(0);
    b.rows[3][1] = sq(2);
    let ops = r.draw_board(&b).unwrap();
    let mut expect = vec![TermOp::MoveUp(3), TermOp::MoveToColumn(0)];
    expect.extend(cell_ops(2, Rgb { r: 238, g: 228, b: 218 }, true));
    expect.push(TermOp::MoveToColumn(15));
    expect.extend(cell_ops(2, Rgb { r: 238, g: 228, b: 218 }, true));
    expect.push(TermOp::MoveDown(3));
    expect.push(TermOp::MoveToColumn(5));
    expect.extend(cell_ops(8, Rgb { r: 242, g: 177, b: 121 }, false));
    assert_eq!(ops, expect);
    assert_eq!(r.cursor_row, 4);
}

#[test]
fn resize_forces_full_redraw() {
    let mut b = Board::new();
    b.rows[2][2] = sq(4);
    let mut r = Renderer::new((80, 24));
    r.draw_board(&b).unwrap();
    r.resize((100, 30));
    assert_eq!(r.size, (100, 30));
    assert!(r.old_board.is_none());
    let ops = r.draw_board(&b).unwrap();
    assert_eq!(ops[0], TermOp::MoveUp(4));
    assert_eq!(ops.len(), 1 + 4 * 2 + 15 + 5);
}

#[test]
fn full_draw_from_home_row_needs_no_move_up() {
    let mut r = Renderer::new((80, 24));
    r.cursor_row = 0;
    let ops = r.draw_board(&Board::new()).unwrap();
    assert_eq!(ops[0], TermOp::MoveDown(1));
    assert_eq!(ops.len(), 4 * 6);
}

#[test]
fn lose_writes_centred_message() {
    let mut r = Renderer::new((80, 24));
    r.draw_board(&Board::new()).unwrap();
    let ops = r.lose();
    assert_eq!(
        ops,
        vec![TermOp::MoveDown(1), TermOp::MoveToColumn(5), TermOp::WriteText(GAME_OVER)]
    );
    assert_eq!(GAME_OVER, "Game over");
    assert!(r.old_board.is_some());
}

fn net_vertical(ops: &[TermOp]) -> i32 {
    ops.iter()
        .map(|op| match op {
            TermOp::MoveUp(n) => -(*n as i32),
            TermOp::MoveDown(n) => *n as i32,
            _ => 0,
        })
        .sum()
}

#[test]
fn recorded_cursor_row_follows_the_moves() {
    let mut r = Renderer::new((80, 24));
    let mut row = r.cursor_row as i32;
    let mut b = Board::new();
    b.rows[1][3] = sq(2);
    let ops = r.draw_board(&b).unwrap();
    row += net_vertical(&ops);
    assert_eq!(r.cursor_row as i32, row);
    assert_eq!(row, 4);
    b.rows[0][0] = sq(1);
    b.rows[2][2] = sq(0);
    let ops = r.draw_board(&b).unwrap();
    row += net_vertical(&ops);
    assert_eq!(r.cursor_row as i32, row);
    assert_eq!(row, 3);
}

#[test]
fn redraw_after_resize_starts_at_home_row() {
    let b = Board::new();
    let mut r = Renderer::new((80, 24));
    let first = r.draw_board(&b).unwrap();
    r.resize((80, 24));
    let second = r.draw_board(&b).unwrap();
    assert_eq!(first[0], TermOp::MoveUp(5));
    assert_eq!(second[0], TermOp::MoveUp(4));
    assert_eq!(5 + net_vertical(&first), 4);
    assert_eq!(4 + net_vertical(&second), 4);
    assert_eq!(r.lose()[0], TermOp::MoveDown(1));
}
