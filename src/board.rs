use crate::laws::{follows_plan, law_collapse_conserves, law_no_double_merge, line_total, merge_count};
use crate::random::{random_below, random_bool};
use vstd::arithmetic::power2::pow2;
use vstd::prelude::*;

verus! {

/// A number to go into a single square on the 2048 board, stored as an exponent:
/// exponent `e` shows the value `2^(e+1)`.
#[derive(Clone, Copy, Debug, PartialEq, Eq, Structural)]
pub struct Square(pub u8);

/// A whole board of 2048, indexed as `rows[y][x]`.
#[derive(Clone, Copy, Debug)]
pub struct Board {
    pub rows: [[Option<Square>; 4]; 4],
}

/// A user move that can be applied to a board.
#[derive(Clone, Copy, Debug, PartialEq, Eq, Structural)]
pub enum Move {
    Up,
    Down,
    Left,
    Right,
}

/// The square that two equal squares `t` merge into.
pub open spec fn merged(t: Square) -> Square {
    Square((t.0 + 1) as u8)
}

/// The number shown on a square.
pub open spec fn square_value(t: Square) -> nat {
    pow2((t.0 + 1) as nat)
}

impl Square {
    /// The square produced by merging two copies of `self`.
    pub fn inc(self) -> (r: Square)
        requires
            self.0 < u8::MAX,
        ensures
            r == merged(self),
    {
        Square(self.0 + 1)
    }
}

/// Column `x` and row `y` lie on the board.
pub open spec fn in_grid(x: int, y: int) -> bool {
    0 <= x < 4 && 0 <= y < 4
}

/// Column and row of the `i`-th cell, in travel order, of line `offset` of a move:
/// a column for Up and Down, a row for Left and Right, starting at the edge that
/// the squares slide towards.
pub open spec fn line_coord(d: Move, offset: int, i: int) -> (int, int) {
    match d {
        Move::Up => (offset, i),
        Move::Down => (offset, 3 - i),
        Move::Left => (i, offset),
        Move::Right => (3 - i, offset),
    }
}

/// The line of a move that cell `(x, y)` lies on.
pub open spec fn line_of(d: Move, x: int, y: int) -> int {
    match d {
        Move::Up | Move::Down => x,
        Move::Left | Move::Right => y,
    }
}

/// The place, in travel order, of cell `(x, y)` within its line.
pub open spec fn place_of(d: Move, x: int, y: int) -> int {
    match d {
        Move::Up => y,
        Move::Down => 3 - y,
        Move::Left => x,
        Move::Right => 3 - x,
    }
}

/// The occupied squares of a line, in order.
pub open spec fn occupied(s: Seq<Option<Square>>) -> Seq<Square>
    decreases s.len(),
{
    if s.len() == 0 {
        seq![]
    } else {
        let rest = occupied(s.drop_last());
        match s.last() {
            Some(t) => rest.push(t),
            None => rest,
        }
    }
}

/// A line of squares after sliding: the first two equal neighbours merge, and the
/// scan goes on after the merged pair, so no square merges twice.
pub open spec fn collapsed(s: Seq<Square>) -> Seq<Square>
    decreases s.len(),
{
    if s.len() < 2 {
        s
    } else if s[0] == s[1] {
        seq![merged(s[0])] + collapsed(s.subrange(2, s.len() as int))
    } else {
        seq![s[0]] + collapsed(s.drop_first())
    }
}

/// Squares laid from the start of a line of four, the rest of it empty.
pub open spec fn padded(c: Seq<Square>) -> Seq<Option<Square>> {
    Seq::new(4, |i: int| if i < c.len() { Some(c[i]) } else { None })
}

/// Every square of the line has an exponent below `bound`.
pub open spec fn squares_below(s: Seq<Square>, bound: int) -> bool {
    forall|i: int| 0 <= i < s.len() ==> s[i].0 < bound
}

impl Board {
    /// The content of column `x`, row `y`.
    pub open spec fn cell(self, x: int, y: int) -> Option<Square> {
        self.rows@[y]@[x]
    }

    /// Every square on the board has an exponent below `bound`.
    pub open spec fn exponents_below(self, bound: int) -> bool {
        forall|x: int, y: int|
            #![trigger self.cell(x, y)]
            in_grid(x, y) && self.cell(x, y) is Some ==> self.cell(x, y).unwrap().0 < bound
    }

    /// The cells of line `offset` of a move, in travel order.
    pub open spec fn line(self, d: Move, offset: int) -> Seq<Option<Square>> {
        Seq::new(4, |i: int| self.cell(line_coord(d, offset, i).0, line_coord(d, offset, i).1))
    }

    /// Line `offset` of the board after a move, in travel order.
    pub open spec fn moved_line(self, d: Move, offset: int) -> Seq<Option<Square>> {
        padded(collapsed(occupied(self.line(d, offset))))
    }

    /// Cell `(x, y)` of the board after a move.
    pub open spec fn moved_cell(self, d: Move, x: int, y: int) -> Option<Square> {
        self.moved_line(d, line_of(d, x, y))[place_of(d, x, y)]
    }

    /// `self` is board `b` after a move in direction `d`.
    pub open spec fn is_move_of(self, b: Board, d: Move) -> bool {
        forall|x: int, y: int| #[trigger] in_grid(x, y) ==> self.cell(x, y) == b.moved_cell(d, x, y)
    }

    /// Create a new empty board.
    pub fn new() -> (r: Board)
        ensures
            forall|x: int, y: int| in_grid(x, y) ==> r.cell(x, y) is None,
    {
        Board { rows: [[None, None, None, None], [None, None, None, None], [None, None, None, None], [None, None, None, None]] }
    }
}

/// The occupied squares of a line come from it, and are no more than its cells.
pub(crate) proof fn lemma_occupied(s: Seq<Option<Square>>, bound: int)
    requires
        forall|i: int| 0 <= i < s.len() && s[i] is Some ==> s[i].unwrap().0 < bound,
    ensures
        squares_below(occupied(s), bound),
        occupied(s).len() <= s.len(),
    decreases s.len(),
{
    if s.len() > 0 {
        lemma_occupied(s.drop_last(), bound);
    }
}

/// Collapsing never lengthens a line.
pub(crate) proof fn lemma_collapsed_len(s: Seq<Square>)
    ensures
        collapsed(s).len() <= s.len(),
    decreases s.len(),
{
    if s.len() >= 2 {
        lemma_collapsed_len(s.subrange(2, s.len() as int));
        lemma_collapsed_len(s.drop_first());
    }
}

/// The square held back while collapsing, waiting for a possible partner.
spec fn pending_seq(p: Option<Square>) -> Seq<Square> {
    match p {
        Some(t) => seq![t],
        None => seq![],
    }
}

impl Board {
    /// Column and row of the `i`-th cell, in travel order, of line `offset`.
    fn coord_iter(direction: Move, offset: usize, i: usize) -> (r: (usize, usize))
        requires
            offset < 4,
            i < 4,
        ensures
            r.0 == line_coord(direction, offset as int, i as int).0,
            r.1 == line_coord(direction, offset as int, i as int).1,
    {
        match direction {
            Move::Up => (offset, i),
            Move::Down => (offset, 3 - i),
            Move::Left => (i, offset),
            Move::Right => (3 - i, offset),
        }
    }

    /// The occupied squares of line `offset`, in travel order.
    fn read_line(&self, direction: Move, offset: usize) -> (r: Vec<Square>)
        requires
            offset < 4,
        ensures
            r@ == occupied(self.line(direction, offset as int)),
    {
        let ghost line = self.line(direction, offset as int);
        let mut r: Vec<Square> = Vec::new();
        let mut i: usize = 0;
        while i < 4
            invariant
                i <= 4,
                offset < 4,
                line == self.line(direction, offset as int),
                r@ == occupied(line.subrange(0, i as int)),
            decreases 4 - i,
        {
            let (x, y) = Self::coord_iter(direction, offset, i);
            assert(line.subrange(0, i + 1).drop_last() =~= line.subrange(0, i as int));
            if let Some(t) = self.rows[y][x] {
                r.push(t);
            }
            i += 1;
        }
        assert(line.subrange(0, 4) =~= line);
        r
    }

    /// Slide a line of squares together, merging equal neighbours once each. The
    /// sum of the numbers stays the same, the line loses one square per merge, and
    /// each output square comes from one input square or from one equal pair.
    pub fn collapse(input: &Vec<Square>) -> (r: Vec<Square>)
        requires
            squares_below(input@, 255),
        ensures
            r@ == collapsed(input@),
            line_total(r@) == line_total(input@),
            r@.len() + merge_count(input@) == input@.len(),
            merge_count(input@) == 0 <==> forall|i: int|
                0 <= i < input@.len() - 1 ==> #[trigger] input@[i] != input@[i + 1],
            exists|plan: Seq<bool>| follows_plan(input@, r@, plan),
    {
        proof {
            law_collapse_conserves(input@);
            law_no_double_merge(input@);
        }
        let n = input.len();
        let mut out: Vec<Square> = Vec::new();
        let mut pending: Option<Square> = None;
        let mut i: usize = 0;
        assert(input@.subrange(0, n as int) =~= input@);
        while i < n
            invariant
                i <= n,
                n == input.len(),
                squares_below(input@, 255),
                pending is Some ==> pending.unwrap().0 < 255,
                out@ + collapsed(pending_seq(pending) + input@.subrange(i as int, n as int))
                    == collapsed(input@),
            decreases n - i,
        {
            let item = input[i];
            let ghost rest = input@.subrange(i + 1, n as int);
            assert(input@.subrange(i as int, n as int) =~= seq![item] + rest);
            match pending {
                None => {
                    assert(pending_seq(pending) + input@.subrange(i as int, n as int)
                        =~= pending_seq(Some(item)) + rest);
                    pending = Some(item);
                },
                Some(last) => {
                    let ghost both = seq![last, item] + rest;
                    assert(pending_seq(pending) + input@.subrange(i as int, n as int) =~= both);
                    if item == last {
                        assert(both.subrange(2, both.len() as int) =~= pending_seq(None) + rest);
                        assert(out@.push(merged(last)) + collapsed(rest)
                            =~= out@ + (seq![merged(last)] + collapsed(rest)));
                        out.push(last.inc());
                        pending = None;
                    } else {
                        assert(both.drop_first() =~= pending_seq(Some(item)) + rest);
                        assert(out@.push(last) + collapsed(seq![item] + rest)
                            =~= out@ + (seq![last] + collapsed(seq![item] + rest)));
                        out.push(last);
                        pending = Some(item);
                    }
                },
            }
            i += 1;
        }
        assert(input@.subrange(n as int, n as int) =~= Seq::<Square>::empty());
        if let Some(last) = pending {
            assert(pending_seq(pending) + Seq::<Square>::empty() =~= seq![last]);
            out.push(last);
        } else {
            assert(pending_seq(pending) + Seq::<Square>::empty() =~= Seq::<Square>::empty());
            assert(out@ + Seq::<Square>::empty() =~= out@);
        }
        out
    }

    /// The board after sliding every square as far as it goes in `direction`,
    /// equal neighbours merging once each.
    pub fn apply_move(self, direction: Move) -> (r: Board)
        requires
            self.exponents_below(255),
        ensures
            r.is_move_of(self, direction),
    {
        let mut output = Board::new();
        let mut offset: usize = 0;
        while offset < 4
            invariant
                offset <= 4,
                self.exponents_below(255),
                forall|x: int, y: int|
                    #![trigger output.cell(x, y)]
                    in_grid(x, y) ==> output.cell(x, y) == if line_of(direction, x, y) < offset {
                        self.moved_cell(direction, x, y)
                    } else {
                        None
                    },
            decreases 4 - offset,
        {
            let existing = self.read_line(direction, offset);
            proof {
                let line = self.line(direction, offset as int);
                assert forall|i: int| 0 <= i < line.len() && line[i] is Some implies line[i].unwrap().0
                    < 255 by {
                    let c = line_coord(direction, offset as int, i);
                    assert(self.cell(c.0, c.1) == line[i]);
                }
                lemma_occupied(line, 255);
                lemma_collapsed_len(existing@);
            }
            let squares = Self::collapse(&existing);
            let mut k: usize = 0;
            while k < squares.len()
                invariant
                    offset < 4,
                    k <= squares.len() <= 4,
                    squares@ == collapsed(occupied(self.line(direction, offset as int))),
                    forall|x: int, y: int|
                        #![trigger output.cell(x, y)]
                        in_grid(x, y) ==> output.cell(x, y) == if line_of(direction, x, y) < offset
                            || (line_of(direction, x, y) == offset && place_of(direction, x, y) < k) {
                            self.moved_cell(direction, x, y)
                        } else {
                            None
                        },
                decreases squares.len() - k,
            {
                let (x, y) = Self::coord_iter(direction, offset, k);
                let ghost before = output;
                output.rows[y][x] = Some(squares[k]);
                proof {
                    assert forall|x1: int, y1: int| in_grid(x1, y1) implies #[trigger] output.cell(x1, y1)
                        == if line_of(direction, x1, y1) < offset || (line_of(direction, x1, y1)
                        == offset && place_of(direction, x1, y1) < k + 1) {
                        self.moved_cell(direction, x1, y1)
                    } else {
                        None
                    } by {
                        if x1 == x && y1 == y {
                            assert(self.moved_line(direction, offset as int)[k as int] == Some(
                                squares@[k as int],
                            ));
                        } else {
                            assert(output.cell(x1, y1) == before.cell(x1, y1));
                        }
                    }
                }
                k += 1;
            }
            offset += 1;
        }
        output
    }
}

/// Boards with the same cells are the same board.
pub proof fn lemma_cells_determine_board(a: Board, b: Board)
    requires
        forall|x: int, y: int| #[trigger] in_grid(x, y) ==> a.cell(x, y) == b.cell(x, y),
    ensures
        a == b,
{
    assert forall|y: int| 0 <= y < 4 implies a.rows@[y] =~= b.rows@[y] by {
        assert forall|x: int| 0 <= x < 4 implies a.rows@[y]@[x] == b.rows@[y]@[x] by {
            assert(in_grid(x, y));
        }
    }
    assert(a.rows@ =~= b.rows@);
    assert(a.rows =~= b.rows);
}

impl PartialEq for Board {
    fn eq(&self, other: &Board) -> (r: bool) {
        let mut y: usize = 0;
        while y < 4
            invariant
                y <= 4,
                forall|x1: int, y1: int| in_grid(x1, y1) && y1 < y ==> self.cell(x1, y1) == other.cell(x1, y1),
            decreases 4 - y,
        {
            let mut x: usize = 0;
            while x < 4
                invariant
                    y < 4,
                    x <= 4,
                    forall|x1: int, y1: int|
                        in_grid(x1, y1) && (y1 < y || (y1 == y && x1 < x)) ==> self.cell(x1, y1)
                            == other.cell(x1, y1),
                decreases 4 - x,
            {
                if self.rows[y][x] != other.rows[y][x] {
                    assert(self.cell(x as int, y as int) != other.cell(x as int, y as int));
                    return false;
                }
                x += 1;
            }
            y += 1;
        }
        proof {
            lemma_cells_determine_board(*self, *other);
        }
        true
    }
}

impl vstd::std_specs::cmp::PartialEqSpecImpl for Board {
    open spec fn obeys_eq_spec() -> bool {
        true
    }

    open spec fn eq_spec(&self, other: &Board) -> bool {
        *self == *other
    }
}

impl Eq for Board {}

impl Board {
    /// Every square on the board has an exponent below `bound`.
    pub fn has_exponents_below(&self, bound: u8) -> (r: bool)
        ensures
            r == self.exponents_below(bound as int),
    {
        let mut y: usize = 0;
        while y < 4
            invariant
                y <= 4,
                forall|x1: int, y1: int|
                    #![trigger self.cell(x1, y1)]
                    in_grid(x1, y1) && y1 < y && self.cell(x1, y1) is Some ==> self.cell(
                        x1,
                        y1,
                    ).unwrap().0 < bound,
            decreases 4 - y,
        {
            let mut x: usize = 0;
            while x < 4
                invariant
                    y < 4,
                    x <= 4,
                    forall|x1: int, y1: int|
                        #![trigger self.cell(x1, y1)]
                        in_grid(x1, y1) && (y1 < y || (y1 == y && x1 < x)) && self.cell(
                            x1,
                            y1,
                        ) is Some ==> self.cell(x1, y1).unwrap().0 < bound,
                decreases 4 - x,
            {
                if let Some(t) = self.rows[y][x] {
                    if t.0 >= bound {
                        assert(self.cell(x as int, y as int) == Some(t));
                        return false;
                    }
                }
                x += 1;
            }
            y += 1;
        }
        true
    }

    /// Some move changes the board; when none does, the game is over.
    pub fn can_move(&self) -> (r: bool)
        requires
            self.exponents_below(255),
        ensures
            r == exists|d: Move| !self.is_move_of(*self, d),
    {
        let moves = [Move::Up, Move::Down, Move::Left, Move::Right];
        let mut i: usize = 0;
        while i < 4
            invariant
                i <= 4,
                moves@ == seq![Move::Up, Move::Down, Move::Left, Move::Right],
                self.exponents_below(255),
                forall|j: int| 0 <= j < i ==> self.is_move_of(*self, #[trigger] moves@[j]),
            decreases 4 - i,
        {
            let direction = moves[i];
            let moved = self.apply_move(direction);
            if moved != *self {
                proof {
                    if self.is_move_of(*self, direction) {
                        lemma_cells_determine_board(moved, *self);
                    }
                }
                return true;
            }
            i += 1;
        }
        proof {
            assert forall|d: Move| self.is_move_of(*self, d) by {
                match d {
                    Move::Up => assert(self.is_move_of(*self, moves@[0])),
                    Move::Down => assert(self.is_move_of(*self, moves@[1])),
                    Move::Left => assert(self.is_move_of(*self, moves@[2])),
                    Move::Right => assert(self.is_move_of(*self, moves@[3])),
                }
            }
        }
        false
    }
}

/// Column and row of cell number `k` in row-major order.
pub open spec fn cell_of_index(k: int) -> (usize, usize) {
    ((k % 4) as usize, (k / 4) as usize)
}

/// The square that a spawn places: a 4 when `four`, else a 2.
pub open spec fn spawned_square(four: bool) -> Square {
    if four {
        Square(1)
    } else {
        Square(0)
    }
}

impl Board {
    /// The empty cells among the first `k` in row-major order.
    pub open spec fn free_prefix(self, k: int) -> Seq<(usize, usize)>
        decreases k,
    {
        if k <= 0 {
            seq![]
        } else {
            let c = cell_of_index(k - 1);
            let rest = self.free_prefix(k - 1);
            if self.cell(c.0 as int, c.1 as int) is None {
                rest.push(c)
            } else {
                rest
            }
        }
    }

    /// The empty cells of the board in row-major order.
    pub open spec fn free_cells(self) -> Seq<(usize, usize)> {
        self.free_prefix(16)
    }

    /// `self` is `old` with the free cell number `choice` (row-major) holding a new
    /// square, a 4 when `four`, else a 2.
    pub open spec fn is_spawn_of(self, old: Board, choice: int, four: bool) -> bool {
        &&& 0 <= choice < old.free_cells().len()
        &&& forall|x: int, y: int|
            #![trigger self.cell(x, y)]
            in_grid(x, y) ==> self.cell(x, y) == if (x, y) == (
                old.free_cells()[choice].0 as int,
                old.free_cells()[choice].1 as int,
            ) {
                Some(spawned_square(four))
            } else {
                old.cell(x, y)
            }
    }

    /// The empty cells of the board, in row-major order, as (column, row).
    pub fn free_spaces(&self) -> (r: Vec<(usize, usize)>)
        ensures
            r@ == self.free_cells(),
    {
        let mut r: Vec<(usize, usize)> = Vec::new();
        let mut k: usize = 0;
        while k < 16
            invariant
                k <= 16,
                r@ == self.free_prefix(k as int),
            decreases 16 - k,
        {
            let x = k % 4;
            let y = k / 4;
            if self.rows[y][x].is_none() {
                r.push((x, y));
            }
            k += 1;
        }
        r
    }

    /// Place a new square, a 4 when `four` and a 2 otherwise, into the free cell
    /// number `choice` in row-major order.
    pub fn spawn_at(&mut self, choice: usize, four: bool)
        requires
            choice < old(self).free_cells().len(),
        ensures
            final(self).is_spawn_of(*old(self), choice as int, four),
    {
        let free = self.free_spaces();
        let (x, y) = free[choice];
        proof {
            lemma_free_prefix_in_grid(*self, 16);
        }
        let new_cell = if four {
            Square(1)
        } else {
            Square(0)
        };
        self.rows[y][x] = Some(new_cell);
    }

    /// Attempt to add a new square, a 2 or a 4, to a random empty cell; a full
    /// board is left as it is.
    pub fn add_square(&mut self, rng: &mut rand::rngs::StdRng)
        ensures
            old(self).free_cells().len() == 0 ==> *final(self) == *old(self),
            old(self).free_cells().len() > 0 ==> exists|choice: int, four: bool|
                final(self).is_spawn_of(*old(self), choice, four),
    {
        let free_count = self.free_spaces().len();
        if free_count == 0 {
            return;
        }
        let choice = random_below(rng, free_count);
        let four = random_bool(rng);
        self.spawn_at(choice, four);
    }
}

/// Every cell listed as free is on the grid and empty.
pub(crate) proof fn lemma_free_prefix_in_grid(b: Board, k: int)
    requires
        k <= 16,
    ensures
        forall|i: int|
            #![trigger b.free_prefix(k)[i]]
            0 <= i < b.free_prefix(k).len() ==> in_grid(
                b.free_prefix(k)[i].0 as int,
                b.free_prefix(k)[i].1 as int,
            ) && b.cell(b.free_prefix(k)[i].0 as int, b.free_prefix(k)[i].1 as int) is None,
    decreases k,
{
    if k > 0 {
        lemma_free_prefix_in_grid(b, k - 1);
    }
}

} // verus!
