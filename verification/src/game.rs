//! The 3x3 board: cells, coordinates, move enumeration, and win and draw
//! detection.

use vstd::prelude::*;

verus! {

/// One square of the grid: marked by the first player (`X`), by the second
/// player (`O`), or still empty (`Nil`).
#[derive(Copy, Clone, PartialEq, Eq, Structural, Debug, Hash)]
pub enum Cell {
    X,
    O,
    Nil,
}

/// Identity of one of the two players. `P1` marks `X`, `P2` marks `O`.
#[derive(Copy, Clone, PartialEq, Eq, Structural, Debug, Hash)]
pub enum PlayerId {
    P1,
    P2,
}

impl PlayerId {
    pub open spec fn spec_next(self) -> PlayerId {
        match self {
            PlayerId::P1 => PlayerId::P2,
            PlayerId::P2 => PlayerId::P1,
        }
    }

    /// The opposing player.
    pub fn next(&self) -> (r: PlayerId)
        ensures
            r == self.spec_next(),
    {
        match *self {
            PlayerId::P1 => PlayerId::P2,
            PlayerId::P2 => PlayerId::P1,
        }
    }

    pub open spec fn spec_cell(self) -> Cell {
        match self {
            PlayerId::P1 => Cell::X,
            PlayerId::P2 => Cell::O,
        }
    }

    /// The mark this player places on the board.
    pub fn as_cell(&self) -> (r: Cell)
        ensures
            r == self.spec_cell(),
    {
        match *self {
            PlayerId::P1 => Cell::X,
            PlayerId::P2 => Cell::O,
        }
    }
}

/// The grid with every cell still empty.
pub open spec fn empty_grid() -> Seq<Cell> {
    Seq::new(9, |i: int| Cell::Nil)
}

/// The cell at (`row`, `col`) of a row-major grid.
pub open spec fn cell_at(s: Seq<Cell>, row: int, col: int) -> Cell {
    s[row * 3 + col]
}

/// Whether the mark `m` fully occupies one of the eight winning lines:
/// three rows, three columns, two diagonals.
pub open spec fn has_line(s: Seq<Cell>, m: Cell) -> bool {
    ||| (cell_at(s, 0, 0) == m && cell_at(s, 0, 1) == m && cell_at(s, 0, 2) == m)
    ||| (cell_at(s, 1, 0) == m && cell_at(s, 1, 1) == m && cell_at(s, 1, 2) == m)
    ||| (cell_at(s, 2, 0) == m && cell_at(s, 2, 1) == m && cell_at(s, 2, 2) == m)
    ||| (cell_at(s, 0, 0) == m && cell_at(s, 1, 0) == m && cell_at(s, 2, 0) == m)
    ||| (cell_at(s, 0, 1) == m && cell_at(s, 1, 1) == m && cell_at(s, 2, 1) == m)
    ||| (cell_at(s, 0, 2) == m && cell_at(s, 1, 2) == m && cell_at(s, 2, 2) == m)
    ||| (cell_at(s, 0, 0) == m && cell_at(s, 1, 1) == m && cell_at(s, 2, 2) == m)
    ||| (cell_at(s, 0, 2) == m && cell_at(s, 1, 1) == m && cell_at(s, 2, 0) == m)
}

/// The winner of a grid: the owner of a completed line, with `X`'s lines
/// checked before `O`'s, so that on a grid where both marks complete a line
/// (unreachable under legal alternating play) the first player is reported.
pub open spec fn spec_winner(s: Seq<Cell>) -> Option<PlayerId> {
    if has_line(s, Cell::X) {
        Some(PlayerId::P1)
    } else if has_line(s, Cell::O) {
        Some(PlayerId::P2)
    } else {
        None
    }
}

/// Whether no empty cell remains.
pub open spec fn is_full(s: Seq<Cell>) -> bool {
    forall|i: int| 0 <= i < 9 ==> s[i] != Cell::Nil
}

/// The coordinates of the empty cells among the first `n` cells, in
/// row-major scan order.
pub open spec fn avail_prefix(s: Seq<Cell>, n: int) -> Seq<(usize, usize)>
    decreases n,
{
    if n <= 0 {
        Seq::empty()
    } else {
        avail_prefix(s, n - 1) + if s[n - 1] == Cell::Nil {
            seq![((((n - 1) / 3) as usize), (((n - 1) % 3) as usize))]
        } else {
            Seq::empty()
        }
    }
}

/// The coordinates of all empty cells, in row-major scan order.
pub open spec fn spec_avail(s: Seq<Cell>) -> Seq<(usize, usize)> {
    avail_prefix(s, 9)
}

/// A 3x3 grid of cells in row-major order: position (`row`, `col`) is index
/// `3 * row + col`, with (0, 0) the top-left corner.
#[derive(Copy, Clone, Debug, Hash)]
pub struct Board {
    cells: [Cell; 9],
}

impl View for Board {
    type V = Seq<Cell>;

    closed spec fn view(&self) -> Seq<Cell> {
        self.cells@
    }
}

/// A board's view is always the whole 3x3 grid.
pub broadcast proof fn lemma_board_view_len(b: Board)
    ensures
        #[trigger] b@.len() == 9,
{
}

impl PartialEq for Board {
    fn eq(&self, other: &Board) -> (r: bool) {
        let mut i: usize = 0;
        while i < 9
            invariant
                0 <= i <= 9,
                forall|j: int| 0 <= j < i ==> self@[j] == other@[j],
            decreases 9 - i,
        {
            if self.cells[i] != other.cells[i] {
                return false;
            }
            i += 1;
        }
        proof {
            assert(self@ =~= other@);
        }
        true
    }
}

impl Eq for Board {}

impl vstd::std_specs::cmp::PartialEqSpecImpl for Board {
    open spec fn obeys_eq_spec() -> bool {
        true
    }

    open spec fn eq_spec(&self, other: &Board) -> bool {
        self@ == other@
    }
}

impl Board {
    /// A board with every cell empty.
    pub fn new() -> (b: Board)
        ensures
            b@ == empty_grid(),
    {
        let b = Board { cells: [Cell::Nil; 9] };
        proof {
            assert(b@ =~= empty_grid());
        }
        b
    }

    /// A board holding exactly the given cells.
    pub fn from_cells(cells: [Cell; 9]) -> (b: Board)
        ensures
            b@ == cells@,
    {
        Board { cells }
    }

    /// The cell at (`row`, `col`).
    pub fn get(&self, row: usize, col: usize) -> (r: Cell)
        requires
            row < 3,
            col < 3,
        ensures
            r == cell_at(self@, row as int, col as int),
    {
        self.cells[3 * row + col]
    }

    /// Whether the cell at (`row`, `col`) is still empty.
    pub fn is_nil(&self, row: usize, col: usize) -> (r: bool)
        requires
            row < 3,
            col < 3,
        ensures
            r == (cell_at(self@, row as int, col as int) == Cell::Nil),
    {
        match self.get(row, col) {
            Cell::Nil => true,
            _ => false,
        }
    }

    /// Writes `cell` at (`row`, `col`), leaving every other cell unchanged.
    pub fn set_cell(&mut self, row: usize, col: usize, cell: Cell)
        requires
            row < 3,
            col < 3,
        ensures
            final(self)@ == old(self)@.update(3 * row + col, cell),
    {
        self.cells[3 * row + col] = cell;
    }

    /// The cells as a row-major array.
    pub fn as_array(&self) -> (r: [Cell; 9])
        ensures
            r@ == self@,
    {
        self.cells
    }

    /// Every coordinate whose cell is empty, in row-major scan order,
    /// computed fresh from the current state.
    pub fn available_choices(&self) -> (r: Vec<(usize, usize)>)
        ensures
            r@ == spec_avail(self@),
    {
        let mut out: Vec<(usize, usize)> = Vec::new();
        let mut i: usize = 0;
        while i < 9
            invariant
                0 <= i <= 9,
                out@ == avail_prefix(self@, i as int),
            decreases 9 - i,
        {
            proof {
                assert(3 * ((i as int) / 3) + (i as int) % 3 == i as int);
            }
            if self.is_nil(i / 3, i % 3) {
                out.push((i / 3, i % 3));
                proof {
                    assert(out@ =~= avail_prefix(self@, i as int + 1));
                }
            } else {
                proof {
                    assert(out@ =~= avail_prefix(self@, i as int + 1));
                }
            }
            i += 1;
        }
        out
    }

    /// Whether no empty cell remains. A full board can at the same time be a
    /// win, so callers must consult `is_won` first.
    pub fn is_drawn(&self) -> (r: bool)
        ensures
            r == is_full(self@),
    {
        let mut i: usize = 0;
        while i < 9
            invariant
                0 <= i <= 9,
                forall|j: int| 0 <= j < i ==> self@[j] != Cell::Nil,
            decreases 9 - i,
        {
            proof {
                assert(3 * ((i as int) / 3) + (i as int) % 3 == i as int);
            }
            if self.is_nil(i / 3, i % 3) {
                return false;
            }
            i += 1;
        }
        true
    }

    /// Whether the mark `m` fully occupies one of the eight winning lines.
    fn line_won(&self, m: Cell) -> (r: bool)
        ensures
            r == has_line(self@, m),
    {
        let a = self.cells;
        (a[0] == m && a[1] == m && a[2] == m) || (a[3] == m && a[4] == m && a[5] == m) || (a[6]
            == m && a[7] == m && a[8] == m) || (a[0] == m && a[3] == m && a[6] == m) || (a[1] == m
            && a[4] == m && a[7] == m) || (a[2] == m && a[5] == m && a[8] == m) || (a[0] == m
            && a[4] == m && a[8] == m) || (a[2] == m && a[4] == m && a[6] == m)
    }

    /// The winner, if one of the eight lines is fully occupied by one mark;
    /// `X`'s lines are checked before `O`'s.
    pub fn is_won(&self) -> (r: Option<PlayerId>)
        ensures
            r == spec_winner(self@),
    {
        if self.line_won(Cell::X) {
            Some(PlayerId::P1)
        } else if self.line_won(Cell::O) {
            Some(PlayerId::P2)
        } else {
            None
        }
    }

    /// Whether `id` is the winner reported by `is_won`.
    pub fn is_won_by(&self, id: PlayerId) -> (r: bool)
        ensures
            r == (spec_winner(self@) == Some(id)),
    {
        match self.is_won() {
            Some(player) => id == player,
            None => false,
        }
    }
}

/// Whether a coordinate pair names an empty cell of the grid.
pub open spec fn mv_ok(s: Seq<Cell>, mv: (usize, usize)) -> bool {
    mv.0 < 3 && mv.1 < 3 && s[mv_pos(mv)] == Cell::Nil
}

/// The row-major index of a coordinate pair.
pub open spec fn mv_pos(mv: (usize, usize)) -> int {
    3 * (mv.0 as int) + (mv.1 as int)
}

/// Every available move names an empty in-range cell, and the moves come in
/// strictly increasing row-major position, so no move is listed twice.
pub proof fn lemma_avail_wf(s: Seq<Cell>, n: int)
    requires
        s.len() == 9,
        0 <= n <= 9,
    ensures
        forall|k: int|
            0 <= k < avail_prefix(s, n).len() ==> mv_ok(s, #[trigger] avail_prefix(s, n)[k])
                && mv_pos(avail_prefix(s, n)[k]) < n,
        forall|k1: int, k2: int|
            0 <= k1 < k2 < avail_prefix(s, n).len() ==> mv_pos(
                #[trigger] avail_prefix(s, n)[k1],
            ) < mv_pos(#[trigger] avail_prefix(s, n)[k2]),
    decreases n,
{
    if n > 0 {
        lemma_avail_wf(s, n - 1);
        let prev = avail_prefix(s, n - 1);
        let a = avail_prefix(s, n);
        if s[n - 1] == Cell::Nil {
            let mv = ((((n - 1) / 3) as usize), (((n - 1) % 3) as usize));
            assert(mv_pos(mv) == n - 1);
            assert(a =~= prev.push(mv));
            assert forall|k: int| 0 <= k < a.len() implies mv_ok(s, #[trigger] a[k]) && mv_pos(
                a[k],
            ) < n by {
                if k < prev.len() {
                    assert(a[k] == prev[k]);
                }
            }
            assert forall|k1: int, k2: int| 0 <= k1 < k2 < a.len() implies mv_pos(
                #[trigger] a[k1],
            ) < mv_pos(#[trigger] a[k2]) by {
                assert(a[k1] == prev[k1]);
                if k2 < prev.len() {
                    assert(a[k2] == prev[k2]);
                }
            }
        } else {
            assert(a =~= prev);
        }
    }
}

proof fn lemma_avail_prefix_complete(s: Seq<Cell>, n: int)
    requires
        s.len() == 9,
        0 <= n <= 9,
    ensures
        forall|p: int|
            0 <= p < n && s[p] == Cell::Nil ==> #[trigger] avail_prefix(s, n).contains(
                (((p / 3) as usize), ((p % 3) as usize)),
            ),
    decreases n,
{
    if n > 0 {
        lemma_avail_prefix_complete(s, n - 1);
        let prev = avail_prefix(s, n - 1);
        let a = avail_prefix(s, n);
        assert forall|p: int| 0 <= p < n && s[p] == Cell::Nil implies #[trigger] a.contains(
            (((p / 3) as usize), ((p % 3) as usize)),
        ) by {
            let mv = (((p / 3) as usize), ((p % 3) as usize));
            if p < n - 1 {
                assert(prev.contains(mv));
                let k = choose|k: int| 0 <= k < prev.len() && prev[k] == mv;
                assert(a[k] == mv);
            } else {
                assert(s[n - 1] == Cell::Nil);
                assert(a[a.len() - 1] == mv);
            }
        }
    }
}

/// Every empty cell's coordinate is among the available moves: together
/// with `lemma_avail_wf`, the enumeration is exactly the empty cells.
pub proof fn lemma_available_complete(s: Seq<Cell>)
    requires
        s.len() == 9,
    ensures
        forall|row: int, col: int|
            0 <= row < 3 && 0 <= col < 3 && s[3 * row + col] == Cell::Nil
                ==> #[trigger] spec_avail(s).contains(((row as usize), (col as usize))),
{
    lemma_avail_prefix_complete(s, 9);
    assert forall|row: int, col: int|
        0 <= row < 3 && 0 <= col < 3 && s[3 * row + col] == Cell::Nil implies #[trigger] spec_avail(
        s,
    ).contains(((row as usize), (col as usize))) by {
        let p = 3 * row + col;
        assert(p / 3 == row && p % 3 == col);
        assert(spec_avail(s).contains((((p / 3) as usize), ((p % 3) as usize))));
    }
}

/// On a board where at most one mark completes a line, the winner is the
/// owner of that line and nobody else; with no completed line there is no
/// winner.
pub proof fn lemma_winner_unique(s: Seq<Cell>)
    requires
        !(has_line(s, Cell::X) && has_line(s, Cell::O)),
    ensures
        (spec_winner(s) == Some(PlayerId::P1)) <==> has_line(s, Cell::X),
        (spec_winner(s) == Some(PlayerId::P2)) <==> has_line(s, Cell::O),
        spec_winner(s) is None <==> (!has_line(s, Cell::X) && !has_line(s, Cell::O)),
{
}

/// On an empty board every one of the nine coordinates is available, each
/// exactly once, in row-major order.
pub proof fn lemma_available_empty_board(s: Seq<Cell>)
    requires
        s.len() == 9,
        forall|i: int| 0 <= i < 9 ==> s[i] == Cell::Nil,
    ensures
        spec_avail(s) == seq![
            (0usize, 0usize),
            (0usize, 1usize),
            (0usize, 2usize),
            (1usize, 0usize),
            (1usize, 1usize),
            (1usize, 2usize),
            (2usize, 0usize),
            (2usize, 1usize),
            (2usize, 2usize),
        ],
{
    reveal_with_fuel(avail_prefix, 10);
    assert(spec_avail(s) =~= seq![
        (0usize, 0usize),
        (0usize, 1usize),
        (0usize, 2usize),
        (1usize, 0usize),
        (1usize, 1usize),
        (1usize, 2usize),
        (2usize, 0usize),
        (2usize, 1usize),
        (2usize, 2usize),
    ]);
}

/// On a full board no move is available.
pub proof fn lemma_available_full_board(s: Seq<Cell>)
    requires
        s.len() == 9,
        is_full(s),
    ensures
        spec_avail(s).len() == 0,
{
    reveal_with_fuel(avail_prefix, 10);
    assert(spec_avail(s) =~= Seq::<(usize, usize)>::empty());
}

} // verus!
