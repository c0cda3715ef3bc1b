//! The immutable 9-cell board value with win, turn and terminal queries.
//!
//! Cells are indexed 0 through 8 in row-major order (rows 0-2, 3-5, 6-8).
//! Two boards with identical cell contents are the same state, regardless of
//! the moves that produced them.

use vstd::prelude::*;
use vstd::string::StringExecFns;

use crate::grid_state::GridState;

verus! {

broadcast use vstd::array::group_array_axioms;

/// The full configuration of the board: each cell is empty or holds a mark.
#[derive(Debug, Clone, Copy, Hash, PartialEq, Eq)]
pub struct GameState(pub [Option<GridState>; 9]);

/// The board every game starts from: all 9 cells empty.
pub open spec fn empty_board() -> Seq<Option<GridState>> {
    Seq::new(9, |i: int| None)
}

/// Every cell is occupied.
pub open spec fn board_full(b: Seq<Option<GridState>>) -> bool {
    forall|i: int| 0 <= i < 9 ==> b[i] is Some
}

/// Cells `i`, `j` and `k` all hold `m`.
pub open spec fn three_in_line(
    b: Seq<Option<GridState>>,
    m: GridState,
    i: int,
    j: int,
    k: int,
) -> bool {
    b[i] == Some(m) && b[j] == Some(m) && b[k] == Some(m)
}

/// `m` owns one of the 8 winning lines: 3 rows, 3 columns, 2 diagonals.
pub open spec fn line_won(b: Seq<Option<GridState>>, m: GridState) -> bool {
    ||| three_in_line(b, m, 0, 1, 2)
    ||| three_in_line(b, m, 3, 4, 5)
    ||| three_in_line(b, m, 6, 7, 8)
    ||| three_in_line(b, m, 0, 3, 6)
    ||| three_in_line(b, m, 1, 4, 7)
    ||| three_in_line(b, m, 2, 5, 8)
    ||| three_in_line(b, m, 0, 4, 8)
    ||| three_in_line(b, m, 2, 4, 6)
}

/// The mark of the first completed line under a fixed scan: the 3 rows, then
/// the 3 columns, then the two diagonals. `None` when no line is complete.
pub open spec fn winner_of(b: Seq<Option<GridState>>) -> Option<GridState> {
    if b[0] is Some && b[0] == b[1] && b[0] == b[2] {
        b[0]
    } else if b[3] is Some && b[3] == b[4] && b[3] == b[5] {
        b[3]
    } else if b[6] is Some && b[6] == b[7] && b[6] == b[8] {
        b[6]
    } else if b[0] is Some && b[0] == b[3] && b[0] == b[6] {
        b[0]
    } else if b[1] is Some && b[1] == b[4] && b[1] == b[7] {
        b[1]
    } else if b[2] is Some && b[2] == b[5] && b[2] == b[8] {
        b[2]
    } else if b[0] is Some && b[0] == b[4] && b[0] == b[8] {
        b[0]
    } else if b[2] is Some && b[2] == b[4] && b[2] == b[6] {
        b[2]
    } else {
        None
    }
}

/// How many cells of `b` hold the mark `m`.
pub open spec fn mark_count(b: Seq<Option<GridState>>, m: GridState) -> int
    decreases b.len(),
{
    if b.len() == 0 {
        0
    } else {
        mark_count(b.drop_last(), m) + if b.last() == Some(m) {
            1int
        } else {
            0int
        }
    }
}

/// Whose move it is, inferred from the cell contents alone: `O` moves
/// whenever its count does not exceed `X`'s, so `O` opens every game.
pub open spec fn turn_of(b: Seq<Option<GridState>>) -> GridState {
    if mark_count(b, GridState::O) <= mark_count(b, GridState::X) {
        GridState::O
    } else {
        GridState::X
    }
}

/// The numeric weight of one cell in a board's code: empty cells count 0,
/// `O` counts 1 and `X` counts 2.
pub open spec fn cell_digit(c: Option<GridState>) -> int {
    match c {
        None => 0,
        Some(GridState::O) => 1,
        Some(GridState::X) => 2,
    }
}

/// A board read as a base-3 numeral, least-significant cell first. Two
/// boards share a code exactly when they share every cell, so the code can
/// key the agent's tables with the board's structural equality.
pub open spec fn board_code(b: Seq<Option<GridState>>) -> int
    decreases b.len(),
{
    if b.len() == 0 {
        0
    } else {
        cell_digit(b[0]) + 3 * board_code(b.drop_first())
    }
}

/// 3 to the power `n`: the number of distinct boards of `n` cells.
pub open spec fn pow3(n: nat) -> int
    decreases n,
{
    if n == 0 {
        1
    } else {
        3 * pow3((n - 1) as nat)
    }
}

/// Powers of 3 are positive.
pub proof fn lemma_pow3_pos(n: nat)
    ensures
        pow3(n) >= 1,
    decreases n,
{
    if n > 0 {
        lemma_pow3_pos((n - 1) as nat);
    }
}

/// Powers of 3 grow with the exponent.
pub proof fn lemma_pow3_increases(m: nat, n: nat)
    requires
        m <= n,
    ensures
        pow3(m) <= pow3(n),
    decreases n,
{
    if m < n {
        lemma_pow3_increases(m, (n - 1) as nat);
        lemma_pow3_pos((n - 1) as nat);
    }
}

/// A board code is a non-negative number below 3 to the number of cells.
pub proof fn lemma_board_code_bound(b: Seq<Option<GridState>>)
    ensures
        0 <= board_code(b) < pow3(b.len()),
    decreases b.len(),
{
    if b.len() > 0 {
        lemma_board_code_bound(b.drop_first());
    }
}

/// Codes identify boards: two equal-length boards with the same code hold
/// the same mark in every cell. The agent's tables therefore recognise a
/// previously seen board however it was reached, and never conflate two
/// distinct boards.
pub proof fn lemma_board_code_injective(a: Seq<Option<GridState>>, b: Seq<Option<GridState>>)
    requires
        a.len() == b.len(),
        board_code(a) == board_code(b),
    ensures
        a =~= b,
    decreases a.len(),
{
    if a.len() > 0 {
        assert(0 <= cell_digit(a[0]) < 3);
        assert(0 <= cell_digit(b[0]) < 3);
        lemma_board_code_bound(a.drop_first());
        lemma_board_code_bound(b.drop_first());
        assert(cell_digit(a[0]) == cell_digit(b[0]));
        assert(a[0] == b[0]);
        lemma_board_code_injective(a.drop_first(), b.drop_first());
        assert forall|i: int| 0 <= i < a.len() implies a[i] == b[i] by {
            if i > 0 {
                assert(a[i] == a.drop_first()[i - 1]);
                assert(b[i] == b.drop_first()[i - 1]);
            }
        }
        assert(a =~= b);
    }
}

/// The character a cell is drawn as: `o`, `x`, or a blank for empty.
pub open spec fn cell_char(c: Option<GridState>) -> char {
    match c {
        None => ' ',
        Some(GridState::O) => 'o',
        Some(GridState::X) => 'x',
    }
}

/// A board drawn as a 3x3 text grid: three cells per row, a line break
/// after the first and second rows.
pub open spec fn render_spec(b: Seq<Option<GridState>>) -> Seq<char> {
    seq![
        cell_char(b[0]),
        cell_char(b[1]),
        cell_char(b[2]),
        '\n',
        cell_char(b[3]),
        cell_char(b[4]),
        cell_char(b[5]),
        '\n',
        cell_char(b[6]),
        cell_char(b[7]),
        cell_char(b[8]),
    ]
}

/// Appends the drawing of one cell to the output.
fn push_cell(out: &mut String, c: Option<GridState>)
    ensures
        final(out)@ == old(out)@ + seq![cell_char(c)],
{
    match c {
        None => {
            proof {
                reveal_strlit(" ");
                assert(" "@ =~= seq![' ']);
            }
            out.append(" ");
        },
        Some(GridState::O) => {
            proof {
                reveal_strlit("o");
                assert("o"@ =~= seq!['o']);
            }
            out.append("o");
        },
        Some(GridState::X) => {
            proof {
                reveal_strlit("x");
                assert("x"@ =~= seq!['x']);
            }
            out.append("x");
        },
    }
}

impl View for GameState {
    type V = Seq<Option<GridState>>;

    open spec fn view(&self) -> Seq<Option<GridState>> {
        self.0@
    }
}

impl GameState {
    /// An empty board.
    pub fn new() -> (s: Self)
        ensures
            s@ == empty_board(),
    {
        let s = GameState([None, None, None, None, None, None, None, None, None]);
        proof {
            assert(s@ =~= empty_board());
        }
        s
    }

    /// True exactly when every cell is occupied.
    pub fn is_game_finished(&self) -> (r: bool)
        ensures
            r == board_full(self@),
    {
        let mut i: usize = 0;
        while i < 9
            invariant
                i <= 9,
                forall|j: int| 0 <= j < i ==> self@[j] is Some,
            decreases 9 - i,
        {
            if self.0[i].is_none() {
                return false;
            }
            i += 1;
        }
        true
    }

    /// The mark the three given cells share, if they are all occupied by one
    /// mark.
    fn line_mark(&self, i: usize, j: usize, k: usize) -> (m: Option<GridState>)
        requires
            i < 9,
            j < 9,
            k < 9,
        ensures
            m is Some <==> (self@[i as int] is Some && self@[i as int] == self@[j as int]
                && self@[i as int] == self@[k as int]),
            m is Some ==> m == self@[i as int],
    {
        match (self.0[i], self.0[j], self.0[k]) {
            (Some(a), Some(b), Some(c)) => {
                if a == b && a == c {
                    Some(a)
                } else {
                    None
                }
            },
            _ => None,
        }
    }

    /// The mark of the first completed line in scan order — the 3 rows, then
    /// the 3 columns, then the 2 diagonals — or `None` when no line is won.
    pub fn get_winner(&self) -> (w: Option<GridState>)
        ensures
            w == winner_of(self@),
    {
        if let Some(m) = self.line_mark(0, 1, 2) {
            return Some(m);
        }
        if let Some(m) = self.line_mark(3, 4, 5) {
            return Some(m);
        }
        if let Some(m) = self.line_mark(6, 7, 8) {
            return Some(m);
        }
        if let Some(m) = self.line_mark(0, 3, 6) {
            return Some(m);
        }
        if let Some(m) = self.line_mark(1, 4, 7) {
            return Some(m);
        }
        if let Some(m) = self.line_mark(2, 5, 8) {
            return Some(m);
        }
        if let Some(m) = self.line_mark(0, 4, 8) {
            return Some(m);
        }
        if let Some(m) = self.line_mark(2, 4, 6) {
            return Some(m);
        }
        None
    }

    /// The board's base-3 code, used to key the agent's value and
    /// visit-count tables; distinct boards get distinct codes.
    pub fn encode(&self) -> (code: u64)
        ensures
            code as int == board_code(self@),
    {
        let mut code: u64 = 0;
        let mut i: usize = 9;
        while i > 0
            invariant
                i <= 9,
                code as int == board_code(self@.skip(i as int)),
                code as int <= pow3((9 - i) as nat) - 1,
            decreases i,
        {
            proof {
                assert(self@.skip(i - 1).drop_first() =~= self@.skip(i as int));
                assert(self@.skip(i - 1)[0] == self@[i - 1]);
                lemma_pow3_increases((10 - i) as nat, 9);
                reveal_with_fuel(pow3, 10);
                assert(pow3(9) == 19683);
            }
            let digit: u64 = match self.0[i - 1] {
                None => 0,
                Some(GridState::O) => 1,
                Some(GridState::X) => 2,
            };
            code = 3 * code + digit;
            i -= 1;
        }
        proof {
            assert(self@.skip(0) =~= self@);
        }
        code
    }

    /// Draws the board as a 3x3 text grid, one character per cell, with a
    /// line break after the first and second rows.
    pub fn render(&self) -> (out: String)
        ensures
            out@ == render_spec(self@),
    {
        let mut out: String = String::new();
        push_cell(&mut out, self.0[0]);
        push_cell(&mut out, self.0[1]);
        push_cell(&mut out, self.0[2]);
        proof {
            reveal_strlit("\n");
            assert("\n"@ =~= seq!['\n']);
        }
        out.append("\n");
        push_cell(&mut out, self.0[3]);
        push_cell(&mut out, self.0[4]);
        push_cell(&mut out, self.0[5]);
        out.append("\n");
        push_cell(&mut out, self.0[6]);
        push_cell(&mut out, self.0[7]);
        push_cell(&mut out, self.0[8]);
        proof {
            assert(out@ =~= render_spec(self@));
        }
        out
    }

    /// Whose move it is: counts each player's marks and gives the move to
    /// `O` whenever its count does not exceed `X`'s.
    pub fn check_turn(&self) -> (m: GridState)
        ensures
            m == turn_of(self@),
    {
        let mut o_count: usize = 0;
        let mut x_count: usize = 0;
        let mut i: usize = 0;
        while i < 9
            invariant
                i <= 9,
                o_count == mark_count(self@.take(i as int), GridState::O),
                x_count == mark_count(self@.take(i as int), GridState::X),
                o_count <= i,
                x_count <= i,
            decreases 9 - i,
        {
            proof {
                assert(self@.take(i + 1).drop_last() =~= self@.take(i as int));
                assert(self@.take(i + 1).last() == self@[i as int]);
            }
            match self.0[i] {
                Some(GridState::O) => o_count += 1,
                Some(GridState::X) => x_count += 1,
                None => (),
            }
            i += 1;
        }
        proof {
            assert(self@.take(9) =~= self@);
        }
        if o_count <= x_count {
            GridState::O
        } else {
            GridState::X
        }
    }
}

impl Default for GameState {
    /// Same as [`GameState::new`]: the empty board.
    fn default() -> (s: Self)
        ensures
            s@ == empty_board(),
    {
        GameState::new()
    }
}

/// A reported winner always owns a completed line, and no winner is reported
/// exactly when neither mark owns one; the scanning order inside
/// [`winner_of`] never invents a mark.
pub proof fn lemma_winner_sound(b: Seq<Option<GridState>>)
    ensures
        winner_of(b) == Some(GridState::O) ==> line_won(b, GridState::O),
        winner_of(b) == Some(GridState::X) ==> line_won(b, GridState::X),
        winner_of(b) is None <==> (!line_won(b, GridState::O) && !line_won(b, GridState::X)),
{
    match winner_of(b) {
        Some(m) => {
            if m == GridState::O {
                assert(line_won(b, GridState::O));
            } else {
                assert(line_won(b, GridState::X));
            }
        },
        None => {
            assert(!line_won(b, GridState::O));
            assert(!line_won(b, GridState::X));
        },
    }
}

/// At most one mark is ever reported for a single board: the winner query is
/// a function of the cells, so two reported winners are the same mark.
pub proof fn lemma_winner_unique(b: Seq<Option<GridState>>, m1: GridState, m2: GridState)
    requires
        winner_of(b) == Some(m1),
        winner_of(b) == Some(m2),
    ensures
        m1 == m2,
{
}

/// Counting marks over a board where every cell is empty finds none.
pub proof fn lemma_mark_count_all_empty(b: Seq<Option<GridState>>, m: GridState)
    requires
        forall|i: int| 0 <= i < b.len() ==> b[i] is None,
    ensures
        mark_count(b, m) == 0,
    decreases b.len(),
{
    if b.len() > 0 {
        lemma_mark_count_all_empty(b.drop_last(), m);
    }
}

/// On the empty board it is `O`'s move: the first mark defined opens play.
pub proof fn lemma_empty_board_first_turn()
    ensures
        turn_of(empty_board()) == GridState::O,
{
    lemma_mark_count_all_empty(empty_board(), GridState::O);
    lemma_mark_count_all_empty(empty_board(), GridState::X);
}

/// Filling one empty cell with `m` raises `m`'s count by one and leaves the
/// other mark's count unchanged.
pub proof fn lemma_mark_count_update(b: Seq<Option<GridState>>, i: int, m: GridState)
    requires
        0 <= i < b.len(),
        b[i] is None,
    ensures
        mark_count(b.update(i, Some(m)), m) == mark_count(b, m) + 1,
        mark_count(b.update(i, Some(m)), m.other_spec()) == mark_count(b, m.other_spec()),
    decreases b.len(),
{
    let u = b.update(i, Some(m));
    if i == b.len() - 1 {
        assert(u.drop_last() =~= b.drop_last());
        assert(u.last() == Some(m));
        assert(b.last() is None);
    } else {
        assert(u.drop_last() =~= b.drop_last().update(i, Some(m)));
        assert(u.last() == b.last());
        lemma_mark_count_update(b.drop_last(), i, m);
    }
}

/// Turn alternation: when the two counts are equal it is `O`'s move, and
/// after `O` fills any empty cell the move passes to `X`.
pub proof fn lemma_turn_flips(b: Seq<Option<GridState>>, i: int)
    requires
        0 <= i < b.len(),
        b[i] is None,
        mark_count(b, GridState::O) == mark_count(b, GridState::X),
    ensures
        turn_of(b) == GridState::O,
        turn_of(b.update(i, Some(turn_of(b)))) == GridState::X,
{
    lemma_mark_count_update(b, i, GridState::O);
    assert(GridState::O.other_spec() == GridState::X);
}

/// When exactly one mark owns a completed line, the scan reports that mark:
/// the scanning order only matters when both marks hold lines at once.
pub proof fn lemma_sole_winner_found(b: Seq<Option<GridState>>, m: GridState)
    requires
        line_won(b, m),
        !line_won(b, m.other_spec()),
    ensures
        winner_of(b) == Some(m),
{
    assert(m.other_spec() != m);
    assert(forall|i: int| b[i] == Some(m) ==> b[i] is Some);
}

} // verus!
