//! What holds of sliding and spawning across all boards.
use crate::board::{
    cell_of_index, collapsed, in_grid, line_coord, line_of, merged, occupied, padded, place_of,
    spawned_square, square_value, squares_below, Board, Move, Square,
};
use vstd::arithmetic::power2::lemma_pow2_unfold;
use vstd::prelude::*;

verus! {

/// The sum of the numbers shown on a line of squares.
pub open spec fn line_total(s: Seq<Square>) -> nat
    decreases s.len(),
{
    if s.len() == 0 {
        0
    } else {
        square_value(s[0]) + line_total(s.drop_first())
    }
}

/// How many merges collapsing a line performs.
pub open spec fn merge_count(s: Seq<Square>) -> nat
    decreases s.len(),
{
    if s.len() < 2 {
        0
    } else if s[0] == s[1] {
        1 + merge_count(s.subrange(2, s.len() as int))
    } else {
        merge_count(s.drop_first())
    }
}

/// Collapsing a line keeps the sum of its numbers, each merge of a pair `(v, v)`
/// giving one `2v`, and shortens the line by exactly one square per merge; it
/// merges nothing exactly when no two neighbours are equal.
pub proof fn law_collapse_conserves(s: Seq<Square>)
    requires
        squares_below(s, 255),
    ensures
        line_total(collapsed(s)) == line_total(s),
        collapsed(s).len() + merge_count(s) == s.len(),
        merge_count(s) == 0 <==> forall|i: int| 0 <= i < s.len() - 1 ==> #[trigger] s[i] != s[i + 1],
    decreases s.len(),
{
    if s.len() >= 2 {
        let rest2 = s.subrange(2, s.len() as int);
        let rest1 = s.drop_first();
        if s[0] != s[1] {
            law_collapse_conserves(rest1);
            if forall|i: int| 0 <= i < rest1.len() - 1 ==> #[trigger] rest1[i] != rest1[i + 1] {
                assert forall|i: int| 0 <= i < s.len() - 1 implies #[trigger] s[i] != s[i + 1] by {
                    if i > 0 {
                        assert(s[i] == rest1[i - 1]);
                    }
                }
            } else {
                let i = choose|i: int| 0 <= i < rest1.len() - 1 && !(#[trigger] rest1[i] != rest1[i + 1]);
                assert(s[i + 1] == s[i + 2]);
            }
        } else {
            assert(!(s[0] != s[1]));
        }
        assert(rest1.drop_first() =~= rest2);
        assert(line_total(rest1) == square_value(s[1]) + line_total(rest2));
        if s[0] == s[1] {
            law_collapse_conserves(rest2);
            let out = seq![merged(s[0])] + collapsed(rest2);
            assert(out.drop_first() =~= collapsed(rest2));
            assert(line_total(out) == square_value(merged(s[0])) + line_total(collapsed(rest2)));
            lemma_pow2_unfold((s[0].0 + 2) as nat);
        } else {
            law_collapse_conserves(rest1);
            let out = seq![s[0]] + collapsed(rest1);
            assert(out.drop_first() =~= collapsed(rest1));
            assert(line_total(out) == square_value(s[0]) + line_total(collapsed(rest1)));
        }
    }
}

/// Where the run of input squares that gives output square `j` starts, when
/// runs marked `true` in `plan` are pairs and the others single squares.
pub open spec fn run_start(plan: Seq<bool>, j: int) -> int
    decreases j,
{
    if j <= 0 {
        0
    } else {
        run_start(plan, j - 1) + if plan[j - 1] {
            2int
        } else {
            1int
        }
    }
}

/// Output square `j` of `out` comes from the run of `s` that `plan` gives it:
/// a single square unchanged, or a pair of equal squares merged once.
pub open spec fn run_matches(s: Seq<Square>, out: Seq<Square>, plan: Seq<bool>, j: int) -> bool {
    let i = run_start(plan, j);
    if plan[j] {
        &&& i + 2 <= s.len()
        &&& s[i] == s[i + 1]
        &&& out[j] == merged(s[i])
    } else {
        &&& i + 1 <= s.len()
        &&& out[j] == s[i]
    }
}

/// `out` comes from `s` by splitting `s` into consecutive runs as `plan` says:
/// a single square passes unchanged, a pair of equal squares merges once.
pub open spec fn follows_plan(s: Seq<Square>, out: Seq<Square>, plan: Seq<bool>) -> bool {
    &&& plan.len() == out.len()
    &&& run_start(plan, plan.len() as int) == s.len()
    &&& forall|j: int| 0 <= j < plan.len() ==> #[trigger] run_matches(s, out, plan, j)
}

/// Which output squares of a collapse come from a merged pair.
pub open spec fn merge_plan(s: Seq<Square>) -> Seq<bool>
    decreases s.len(),
{
    if s.len() < 2 {
        Seq::new(s.len(), |i: int| false)
    } else if s[0] == s[1] {
        seq![true] + merge_plan(s.subrange(2, s.len() as int))
    } else {
        seq![false] + merge_plan(s.drop_first())
    }
}

proof fn lemma_run_start_cons(b: bool, plan: Seq<bool>, j: int)
    requires
        0 <= j <= plan.len(),
    ensures
        run_start(seq![b] + plan, j + 1) == run_start(plan, j) + if b {
            2int
        } else {
            1int
        },
    decreases j,
{
    let q = seq![b] + plan;
    assert(q[0] == b);
    assert(run_start(q, j + 1) == run_start(q, j) + if q[j] {
        2int
    } else {
        1int
    });
    if j > 0 {
        lemma_run_start_cons(b, plan, j - 1);
        assert(q[j] == plan[j - 1]);
    } else {
        assert(run_start(q, 0) == 0);
        assert(run_start(plan, 0) == 0);
    }
}

proof fn lemma_run_start_nonneg(plan: Seq<bool>, j: int)
    ensures
        run_start(plan, j) >= 0,
    decreases j,
{
    if j > 0 {
        lemma_run_start_nonneg(plan, j - 1);
    }
}

/// No square made by a merge merges again in the same move: the line splits into
/// consecutive runs of one square or of two equal squares, and each run gives
/// exactly one square of the collapsed line.
pub proof fn law_no_double_merge(s: Seq<Square>)
    ensures
        exists|plan: Seq<bool>| follows_plan(s, collapsed(s), plan),
{
    lemma_merge_plan(s);
}

proof fn lemma_merge_plan(s: Seq<Square>)
    ensures
        follows_plan(s, collapsed(s), merge_plan(s)),
    decreases s.len(),
{
    let plan = merge_plan(s);
    let out = collapsed(s);
    if s.len() < 2 {
        if s.len() == 1 {
            assert(run_start(plan, 0) == 0);
            assert(run_start(plan, 1) == 1);
        } else {
            assert(run_start(plan, 0) == 0);
        }
    } else {
        let b = s[0] == s[1];
        let w: int = if b { 2 } else { 1 };
        let rest = s.subrange(w, s.len() as int);
        if b {
            assert(rest =~= s.subrange(2, s.len() as int));
        } else {
            assert(rest =~= s.drop_first());
        }
        lemma_merge_plan(rest);
        let p = merge_plan(rest);
        assert(plan =~= seq![b] + p);
        lemma_run_start_cons(b, p, p.len() as int);
        assert forall|j: int| 0 <= j < plan.len() implies #[trigger] run_matches(s, out, plan, j) by {
            if j == 0 {
                assert(run_start(plan, 0) == 0);
                assert(plan[0] == b);
            } else {
                assert(run_matches(rest, collapsed(rest), p, j - 1));
                lemma_run_start_cons(b, p, j - 1);
                lemma_run_start_nonneg(p, j - 1);
                assert(plan[j] == p[j - 1]);
                assert(out[j] == collapsed(rest)[j - 1]);
            }
        }
    }
}

/// A move that leaves a board unchanged leaves it unchanged when made again.
pub proof fn law_noop_move_repeats(b: Board, d: Move, again: Board)
    requires
        b.is_move_of(b, d),
        again.is_move_of(b, d),
    ensures
        again == b,
{
    assert forall|x: int, y: int| #[trigger] in_grid(x, y) implies again.cell(x, y) == b.cell(
        x,
        y,
    ) by {
        assert(b.cell(x, y) == b.moved_cell(d, x, y));
    }
    crate::board::lemma_cells_determine_board(again, b);
}

/// Sliding right is sliding left on the board turned half a turn, then turned
/// back; sliding down is likewise sliding up.
pub proof fn law_half_turn_symmetry(b: Board, turned: Board)
    requires
        forall|x: int, y: int| #[trigger] in_grid(x, y) ==> turned.cell(x, y) == b.cell(3 - x, 3 - y),
    ensures
        forall|x: int, y: int|
            #[trigger] in_grid(x, y) ==> b.moved_cell(Move::Right, x, y) == turned.moved_cell(
                Move::Left,
                3 - x,
                3 - y,
            ),
        forall|x: int, y: int|
            #[trigger] in_grid(x, y) ==> b.moved_cell(Move::Down, x, y) == turned.moved_cell(
                Move::Up,
                3 - x,
                3 - y,
            ),
{
    assert forall|x: int, y: int| #[trigger] in_grid(x, y) implies b.moved_cell(Move::Right, x, y)
        == turned.moved_cell(Move::Left, 3 - x, 3 - y) by {
        assert forall|i: int| 0 <= i < 4 implies turned.line(Move::Left, 3 - y)[i] == b.line(
            Move::Right,
            y,
        )[i] by {
            assert(in_grid(i, 3 - y));
        }
        assert(turned.line(Move::Left, 3 - y) =~= b.line(Move::Right, y));
    }
    assert forall|x: int, y: int| #[trigger] in_grid(x, y) implies b.moved_cell(Move::Down, x, y)
        == turned.moved_cell(Move::Up, 3 - x, 3 - y) by {
        assert forall|i: int| 0 <= i < 4 implies turned.line(Move::Up, 3 - x)[i] == b.line(
            Move::Down,
            x,
        )[i] by {
            assert(in_grid(3 - x, i));
        }
        assert(turned.line(Move::Up, 3 - x) =~= b.line(Move::Down, x));
    }
}

proof fn lemma_spawn_free_prefix(old: Board, new: Board, choice: int, four: bool, k: int)
    requires
        new.is_spawn_of(old, choice, four),
        0 <= k <= 16,
    ensures
        new.free_prefix(k).len() + (if old.free_cells()[choice].1 * 4 + old.free_cells()[choice].0
            < k {
            1int
        } else {
            0int
        }) == old.free_prefix(k).len(),
    decreases k,
{
    let p = old.free_cells()[choice];
    if k > 0 {
        lemma_spawn_free_prefix(old, new, choice, four, k - 1);
        crate::board::lemma_free_prefix_in_grid(old, 16);
        assert(in_grid(p.0 as int, p.1 as int) && old.cell(p.0 as int, p.1 as int) is None);
        let c = cell_of_index(k - 1);
        assert(in_grid(c.0 as int, c.1 as int));
        if c == p {
            assert(k - 1 == p.1 * 4 + p.0);
            assert(new.cell(c.0 as int, c.1 as int) == Some(spawned_square(four)));
        } else {
            assert(k - 1 != p.1 * 4 + p.0);
            assert(new.cell(c.0 as int, c.1 as int) == old.cell(c.0 as int, c.1 as int));
        }
    }
}

/// A spawn fills exactly one empty cell: one cell fewer is free afterwards, and
/// every occupied cell keeps its square.
pub proof fn law_spawn_fills_one_cell(old: Board, new: Board, choice: int, four: bool)
    requires
        new.is_spawn_of(old, choice, four),
    ensures
        new.free_cells().len() + 1 == old.free_cells().len(),
        forall|x: int, y: int|
            #[trigger] in_grid(x, y) && old.cell(x, y) is Some ==> new.cell(x, y) == old.cell(x, y),
{
    lemma_spawn_free_prefix(old, new, choice, four, 16);
    crate::board::lemma_free_prefix_in_grid(old, 16);
    let p = old.free_cells()[choice];
    assert(in_grid(p.0 as int, p.1 as int));
    assert forall|x: int, y: int| #[trigger] in_grid(x, y) && old.cell(x, y) is Some implies new.cell(
        x,
        y,
    ) == old.cell(x, y) by {
        assert((x, y) != (p.0 as int, p.1 as int));
    }
}

proof fn lemma_occupied_padded_prefix(c: Seq<Square>, k: int)
    requires
        c.len() <= 4,
        0 <= k <= 4,
    ensures
        occupied(padded(c).subrange(0, k)) == c.subrange(0, if k < c.len() { k } else { c.len() as int }),
    decreases k,
{
    let p = padded(c);
    if k == 0 {
        assert(p.subrange(0, 0) =~= Seq::<Option<Square>>::empty());
        assert(c.subrange(0, 0) =~= Seq::<Square>::empty());
    } else {
        lemma_occupied_padded_prefix(c, k - 1);
        assert(p.subrange(0, k).drop_last() =~= p.subrange(0, k - 1));
        assert(p.subrange(0, k).last() == p[k - 1]);
        if k - 1 < c.len() {
            assert(c.subrange(0, k) =~= c.subrange(0, k - 1).push(c[k - 1]));
        }
    }
}

/// Laying squares from the start of a line and reading its occupied cells back
/// gives the same squares.
proof fn lemma_occupied_padded(c: Seq<Square>)
    requires
        c.len() <= 4,
    ensures
        occupied(padded(c)) == c,
{
    lemma_occupied_padded_prefix(c, 4);
    assert(padded(c).subrange(0, 4) =~= padded(c));
    assert(c.subrange(0, c.len() as int) =~= c);
}

/// On every line that a move slides along, the sum of the numbers stays the same
/// and the line loses exactly one square per merge, none when no two occupied
/// neighbours of the line are equal.
pub proof fn law_move_conserves_lines(b: Board, d: Move, r: Board, offset: int)
    requires
        b.exponents_below(255),
        r.is_move_of(b, d),
        0 <= offset < 4,
    ensures
        line_total(occupied(r.line(d, offset))) == line_total(occupied(b.line(d, offset))),
        occupied(r.line(d, offset)).len() + merge_count(occupied(b.line(d, offset))) == occupied(
            b.line(d, offset),
        ).len(),
{
    let line = b.line(d, offset);
    assert forall|i: int| 0 <= i < line.len() && line[i] is Some implies line[i].unwrap().0
        < 255 by {
        let c = line_coord(d, offset, i);
        assert(b.cell(c.0, c.1) == line[i]);
    }
    crate::board::lemma_occupied(line, 255);
    let s = occupied(line);
    crate::board::lemma_collapsed_len(s);
    law_collapse_conserves(s);
    assert forall|i: int| 0 <= i < 4 implies #[trigger] r.line(d, offset)[i] == b.moved_line(
        d,
        offset,
    )[i] by {
        let c = line_coord(d, offset, i);
        assert(in_grid(c.0, c.1));
        assert(line_of(d, c.0, c.1) == offset && place_of(d, c.0, c.1) == i);
    }
    assert(r.line(d, offset) =~= padded(collapsed(s)));
    lemma_occupied_padded(collapsed(s));
}

} // verus!
