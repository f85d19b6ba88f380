use play_2048::{Board, Move, Square};
use rand::rngs::StdRng;
use rand::SeedableRng;

fn sq(e: u8) -> Option<Square> {
    Some(Square(e))
}

fn board_with_row(row: [Option<Square>; 4]) -> Board {
    let mut b = Board::new();
    b.rows[0] = row;
    b
}

fn occupied(b: &Board) -> usize {
    b.rows.iter().flatten().filter(|c| c.is_some()).count()
}

fn total(b: &Board) -> u64 {
    b.rows.iter().flatten().flatten().map(|t| 2u64 << t.0).sum()
}

fn half_turn(b: &Board) -> Board {
    let mut r = Board::new();
    for y in 0..4 {
        for x in 0..4 {
            r.rows[y][x] = b.rows[3 - y][3 - x];
        }
    }
    r
}

fn sample_board() -> Board {
    Board {
        rows: [
            [sq(0), sq(0), None, sq(1)],
            [None, sq(2), sq(2), sq(2)],
            [sq(3), None, sq(3), None],
            [sq(1), sq(0), sq(1), sq(0)],
        ],
    }
}

#[test]
fn inc_adds_one_to_exponent() {
    assert_eq!(Square(0).inc(), Square(1));
    assert_eq!(Square(14).inc(), Square(15));
}

#[test]
fn new_board_is_empty() {
    assert_eq!(occupied(&Board::new()), 0);
    assert_eq!(Board::new().free_spaces().len(), 16);
}

#[test]
fn left_merges_a_pair() {
    let b = board_with_row([sq(0), sq(0), None, None]);
    let r = b.apply_move(Move::Left);
    assert_eq!(r, board_with_row([sq(1), None, None, None]));
}

#[test]
fn left_merges_each_square_once() {
    let b = board_with_row([sq(0), sq(0), sq(0), sq(0)]);
    let r = b.apply_move(Move::Left);
    assert_eq!(r, board_with_row([sq(1), sq(1), None, None]));
}

#[test]
fn merged_square_does_not_merge_again() {
    let b = board_with_row([sq(0), sq(0), sq(1), None]);
    let r = b.apply_move(Move::Left);
    assert_eq!(r, board_with_row([sq(1), sq(1), None, None]));
}

#[test]
fn left_without_equal_neighbours_keeps_order() {
    let b = board_with_row([sq(0), sq(1), sq(0), None]);
    assert_eq!(b.apply_move(Move::Left), b);
    let gapped = board_with_row([None, sq(0), None, sq(1)]);
    assert_eq!(gapped.apply_move(Move::Left), board_with_row([sq(0), sq(1), None, None]));
}

#[test]
fn three_equal_merge_at_the_front() {
    let b = board_with_row([sq(2), sq(2), sq(2), None]);
    assert_eq!(b.apply_move(Move::Left), board_with_row([sq(3), sq(2), None, None]));
    assert_eq!(b.apply_move(Move::Right), board_with_row([None, None, sq(2), sq(3)]));
}

#[test]
fn up_and_down_move_columns() {
    let mut b = Board::new();
    b.rows[0][1] = sq(0);
    b.rows[2][1] = sq(0);
    b.rows[3][1] = sq(4);
    let up = b.apply_move(Move::Up);
    let mut expect_up = Board::new();
    expect_up.rows[0][1] = sq(1);
    expect_up.rows[1][1] = sq(4);
    assert_eq!(up, expect_up);
    let down = b.apply_move(Move::Down);
    let mut expect_down = Board::new();
    expect_down.rows[3][1] = sq(4);
    expect_down.rows[2][1] = sq(1);
    assert_eq!(down, expect_down);
}

#[test]
fn sample_board_left() {
    let r = sample_board().apply_move(Move::Left);
    let expect = Board {
        rows: [
            [sq(1), sq(1), None, None],
            [sq(3), sq(2), None, None],
            [sq(4), None, None, None],
            [sq(1), sq(0), sq(1), sq(0)],
        ],
    };
    assert_eq!(r, expect);
}

#[test]
fn moves_keep_the_total() {
    let b = sample_board();
    for d in [Move::Up, Move::Down, Move::Left, Move::Right] {
        let r = b.apply_move(d);
        assert_eq!(total(&r), total(&b));
        assert!(occupied(&r) <= occupied(&b));
    }
    assert_eq!(occupied(&b.apply_move(Move::Left)), occupied(&b) - 3);
}

#[test]
fn noop_move_repeats() {
    let b = board_with_row([sq(0), sq(1), sq(0), None]);
    let once = b.apply_move(Move::Left);
    assert_eq!(once, b);
    assert_eq!(once.apply_move(Move::Left), b);
}

#[test]
fn half_turn_symmetry() {
    let b = sample_board();
    let t = half_turn(&b);
    assert_eq!(half_turn(&t.apply_move(Move::Left)), b.apply_move(Move::Right));
    assert_eq!(half_turn(&t.apply_move(Move::Up)), b.apply_move(Move::Down));
    assert_eq!(half_turn(&t.apply_move(Move::Right)), b.apply_move(Move::Left));
}

#[test]
fn board_equality_is_by_cells() {
    let a = sample_board();
    let mut b = sample_board();
    assert!(a == b);
    b.rows[3][3] = sq(5);
    assert!(a != b);
}

#[test]
fn spawn_twice_on_empty_board() {
    let mut rng = StdRng::seed_from_u64(7);
    let mut b = Board::new();
    b.add_square(&mut rng);
    assert_eq!(occupied(&b), 1);
    b.add_square(&mut rng);
    assert_eq!(occupied(&b), 2);
    for t in b.rows.iter().flatten().flatten() {
        assert!(*t == Square(0) || *t == Square(1));
    }
}

#[test]
fn spawn_keeps_occupied_cells() {
    let before = sample_board();
    for seed in 0..20 {
        let mut rng = StdRng::seed_from_u64(seed);
        let mut b = before;
        b.add_square(&mut rng);
        assert_eq!(occupied(&b), occupied(&before) + 1);
        for y in 0..4 {
            for x in 0..4 {
                if before.rows[y][x].is_some() {
                    assert_eq!(b.rows[y][x], before.rows[y][x]);
                }
            }
        }
    }
}

#[test]
fn spawn_fills_the_only_free_cell() {
    let mut full = Board { rows: [[sq(3); 4]; 4] };
    full.rows[2][1] = None;
    let mut rng = StdRng::seed_from_u64(1);
    let mut b = full;
    b.add_square(&mut rng);
    assert!(b.rows[2][1] == sq(0) || b.rows[2][1] == sq(1));
    assert_eq!(b.free_spaces().len(), 0);
}

#[test]
fn spawn_on_full_board_changes_nothing() {
    let full = Board { rows: [[sq(2); 4]; 4] };
    let mut b = full;
    let mut rng = StdRng::seed_from_u64(3);
    b.add_square(&mut rng);
    assert_eq!(b, full);
}

#[test]
fn free_spaces_are_row_major() {
    let b = sample_board();
    assert_eq!(b.free_spaces(), vec![(2, 0), (0, 1), (1, 2), (3, 2)]);
}

#[test]
fn spawn_at_places_the_chosen_square() {
    let mut b = sample_board();
    b.spawn_at(2, true);
    assert_eq!(b.rows[2][1], sq(1));
    let mut c = sample_board();
    c.spawn_at(0, false);
    assert_eq!(c.rows[0][2], sq(0));
}

#[test]
fn checkerboard_cannot_move() {
    let mut b = Board::new();
    for y in 0..4 {
        for x in 0..4 {
            b.rows[y][x] = sq(((x + y) % 2) as u8);
        }
    }
    assert!(!b.can_move());
    assert!(sample_board().can_move());
    assert!(board_with_row([sq(0), None, None, None]).can_move());
}

#[test]
fn exponent_bound_check() {
    let b = sample_board();
    assert!(b.has_exponents_below(4));
    assert!(!b.has_exponents_below(3));
    assert!(Board::new().has_exponents_below(0));
}

#[test]
fn collapse_merges_pairs_once() {
    let out = Board::collapse(&vec![Square(0), Square(0), Square(0), Square(0)]);
    assert_eq!(out, vec![Square(1), Square(1)]);
    let out = Board::collapse(&vec![Square(0), Square(0), Square(1)]);
    assert_eq!(out, vec![Square(1), Square(1)]);
    let out = Board::collapse(&vec![Square(2), Square(1), Square(1), Square(2)]);
    assert_eq!(out, vec![Square(2), Square(2), Square(2)]);
}

#[test]
fn collapse_without_equal_neighbours_is_unchanged() {
    let line = vec![Square(0), Square(1), Square(0), Square(1)];
    assert_eq!(Board::collapse(&line), line);
    assert_eq!(Board::collapse(&vec![]), vec![]);
    assert_eq!(Board::collapse(&vec![Square(4)]), vec![Square(4)]);
}

#[test]
fn collapse_keeps_line_total() {
    let line = vec![Square(3), Square(3), Square(2), Square(2)];
    let out = Board::collapse(&line);
    let sum = |s: &Vec<Square>| s.iter().map(|t| 2u64 << t.0).sum::<u64>();
    assert_eq!(out, vec![Square(4), Square(3)]);
    assert_eq!(sum(&out), sum(&line));
    assert_eq!(out.len() + 2, line.len());
}
