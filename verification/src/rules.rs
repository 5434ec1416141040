//! The rules of tic-tac-toe on a square board: who holds a line, and which
//! boards one move leads to.

use vstd::prelude::*;
use vstd::arithmetic::div_mod::{
    lemma_basic_div, lemma_fundamental_div_mod, lemma_hoist_over_denominator,
    lemma_multiply_divide_lt,
};
use vstd::arithmetic::mul::lemma_mul_is_commutative;
use vstd::seq_lib::lemma_seq_contains_after_push;
use crate::codec::{
    digit, digit_at, lemma_digit_place, lemma_pow3_add, lemma_pow3_fits, lemma_pow3_positive,
    pow3, NodeIndex, MAX_CELLS,
};

verus! {

/// The mark in the `k`-th cell of the line that starts at cell `start` and
/// goes on in steps of `stride` cells.
pub open spec fn line_digit(id: nat, start: nat, stride: nat, k: nat) -> nat {
    digit(id, start + k * stride)
}

/// The team whose mark fills all `len` cells of a line; 0 where a cell is
/// empty, the marks differ or the line has no cell.
pub open spec fn line_mark(id: nat, start: nat, stride: nat, len: nat) -> nat {
    let mark = digit(id, start);
    if len > 0 && mark != 0 && forall|k: nat|
        k < len ==> #[trigger] line_digit(id, start, stride, k) == mark {
        mark
    } else {
        0
    }
}

/// The team that fills row `row` of a board of `size` rows, or 0.
pub open spec fn row_mark(id: nat, size: nat, row: nat) -> nat {
    line_mark(id, row * size, 1, size)
}

/// The team that fills column `col`, or 0.
pub open spec fn col_mark(id: nat, size: nat, col: nat) -> nat {
    line_mark(id, col, size, size)
}

/// The team that fills the diagonal from cell 0 (`which` 0) or the one from
/// the last cell of the first row (any other `which`), or 0.
pub open spec fn diag_mark(id: nat, size: nat, which: nat) -> nat {
    if which == 0 {
        line_mark(id, 0, size + 1, size)
    } else {
        line_mark(id, (size - 1) as nat, (size - 1) as nat, size)
    }
}

/// The team that fills the first filled row at or after `row`, or 0.
pub open spec fn winner_row_from(id: nat, size: nat, row: nat) -> nat
    decreases size - row,
{
    if row >= size {
        0
    } else if row_mark(id, size, row) != 0 {
        row_mark(id, size, row)
    } else {
        winner_row_from(id, size, row + 1)
    }
}

/// The team that fills the first filled column at or after `col`, or 0.
pub open spec fn winner_col_from(id: nat, size: nat, col: nat) -> nat
    decreases size - col,
{
    if col >= size {
        0
    } else if col_mark(id, size, col) != 0 {
        col_mark(id, size, col)
    } else {
        winner_col_from(id, size, col + 1)
    }
}

/// The team that fills the first filled row, or 0.
pub open spec fn winner_row(id: nat, size: nat) -> nat {
    winner_row_from(id, size, 0)
}

/// The team that fills the first filled column, or 0.
pub open spec fn winner_col(id: nat, size: nat) -> nat {
    winner_col_from(id, size, 0)
}

/// The team that fills a diagonal, the one from cell 0 first, or 0.
pub open spec fn winner_diag(id: nat, size: nat) -> nat {
    if diag_mark(id, size, 0) != 0 {
        diag_mark(id, size, 0)
    } else {
        diag_mark(id, size, 1)
    }
}

/// The winner of a board: the team of the first filled line, rows before
/// columns before diagonals; 0 where no line is filled.
pub open spec fn winner_spec(id: nat, size: nat) -> nat {
    if winner_row(id, size) != 0 {
        winner_row(id, size)
    } else if winner_col(id, size) != 0 {
        winner_col(id, size)
    } else {
        winner_diag(id, size)
    }
}

/// `team` fills a row, a column or a diagonal of the board.
pub open spec fn has_line(id: nat, size: nat, team: nat) -> bool {
    ||| exists|row: nat| row < size && #[trigger] row_mark(id, size, row) == team
    ||| exists|col: nat| col < size && #[trigger] col_mark(id, size, col) == team
    ||| diag_mark(id, size, 0) == team
    ||| diag_mark(id, size, 1) == team
}

/// No team fills any line of the board.
pub open spec fn no_line(id: nat, size: nat) -> bool {
    forall|team: nat| team != 0 ==> !has_line(id, size, team)
}

/// The winner among the rows from `from` on fills one of them; where there
/// is none, no such row is filled.
proof fn lemma_winner_row_from(id: nat, size: nat, from: nat)
    ensures
        winner_row_from(id, size, from) != 0 ==> exists|row: nat|
            from <= row < size && #[trigger] row_mark(id, size, row) == winner_row_from(
                id,
                size,
                from,
            ),
        winner_row_from(id, size, from) == 0 ==> forall|row: nat|
            from <= row < size ==> #[trigger] row_mark(id, size, row) == 0,
    decreases size - from,
{
    if from < size && row_mark(id, size, from) == 0 {
        lemma_winner_row_from(id, size, from + 1);
    }
}

/// The winner among the columns from `from` on fills one of them; where
/// there is none, no such column is filled.
proof fn lemma_winner_col_from(id: nat, size: nat, from: nat)
    ensures
        winner_col_from(id, size, from) != 0 ==> exists|col: nat|
            from <= col < size && #[trigger] col_mark(id, size, col) == winner_col_from(
                id,
                size,
                from,
            ),
        winner_col_from(id, size, from) == 0 ==> forall|col: nat|
            from <= col < size ==> #[trigger] col_mark(id, size, col) == 0,
    decreases size - from,
{
    if from < size && col_mark(id, size, from) == 0 {
        lemma_winner_col_from(id, size, from + 1);
    }
}

/// The winner is 0, 1 or 2.
pub proof fn lemma_winner_range(id: nat, size: nat)
    ensures
        winner_spec(id, size) <= 2,
{
    lemma_winner_row_from(id, size, 0);
    lemma_winner_col_from(id, size, 0);
}

/// A board has a winner exactly where some team fills a line, and the
/// winner is a team that does.
pub proof fn lemma_winner_holds_line(id: nat, size: nat)
    ensures
        winner_spec(id, size) != 0 ==> has_line(id, size, winner_spec(id, size)),
        winner_spec(id, size) == 0 <==> no_line(id, size),
{
    lemma_winner_row_from(id, size, 0);
    lemma_winner_col_from(id, size, 0);
    if winner_spec(id, size) != 0 {
        assert(has_line(id, size, winner_spec(id, size)));
        assert(!no_line(id, size));
    }
}

/// Where one team fills a line and no other team does, that team is the
/// winner.
pub proof fn lemma_sole_line_wins(id: nat, size: nat, team: nat)
    requires
        team != 0,
        has_line(id, size, team),
        forall|other: nat| other != 0 && other != team ==> !has_line(id, size, other),
    ensures
        winner_spec(id, size) == team,
{
    lemma_winner_holds_line(id, size);
}

/// The team that fills the line of `len` cells from `start` in steps of
/// `stride`, or 0.
pub fn line_owner(id: NodeIndex, start: usize, stride: usize, len: usize) -> (mark: u8)
    requires
        start + len * stride <= usize::MAX,
    ensures
        mark == line_mark(id as nat, start as nat, stride as nat, len as nat),
{
    let mark = digit_at(id, start);
    if len == 0 || mark == 0 {
        return 0;
    }
    let mut k: usize = 0;
    while k < len
        invariant
            k <= len,
            mark == digit(id as nat, start as nat),
            start + len * stride <= usize::MAX,
            forall|j: nat|
                j < k ==> #[trigger] line_digit(id as nat, start as nat, stride as nat, j) == mark,
        decreases len - k,
    {
        assert(k * stride <= len * stride) by (nonlinear_arith)
            requires
                k <= len,
        ;
        let here = digit_at(id, start + k * stride);
        assert(here == line_digit(id as nat, start as nat, stride as nat, k as nat));
        if here != mark {
            return 0;
        }
        k = k + 1;
    }
    mark
}

/// The team that fills a row of the board, the first such row deciding;
/// 0 where no row is filled.
pub fn get_winner_row(id: &NodeIndex, size: u8) -> (team: u8)
    ensures
        team == winner_row(*id as nat, size as nat),
{
    let n = size as usize;
    let mut row: usize = 0;
    while row < n
        invariant
            row <= n,
            n == size,
            winner_row(*id as nat, size as nat) == winner_row_from(
                *id as nat,
                size as nat,
                row as nat,
            ),
        decreases n - row,
    {
        assert(row * n + n * 1 <= 255 * 255 + 255) by (nonlinear_arith)
            requires
                row < n <= 255,
        ;
        let team = line_owner(*id, row * n, 1, n);
        if team != 0 {
            return team;
        }
        row = row + 1;
    }
    0
}

/// The team that fills a column of the board, the first such column
/// deciding; 0 where no column is filled.
pub fn get_winner_col(id: &NodeIndex, size: u8) -> (team: u8)
    ensures
        team == winner_col(*id as nat, size as nat),
{
    let n = size as usize;
    let mut col: usize = 0;
    while col < n
        invariant
            col <= n,
            n == size,
            winner_col(*id as nat, size as nat) == winner_col_from(
                *id as nat,
                size as nat,
                col as nat,
            ),
        decreases n - col,
    {
        assert(col + n * n <= 255 + 255 * 255) by (nonlinear_arith)
            requires
                col < n <= 255,
        ;
        let team = line_owner(*id, col, n, n);
        if team != 0 {
            return team;
        }
        col = col + 1;
    }
    0
}

/// The team that fills a diagonal of the board, the diagonal from cell 0
/// deciding first; 0 where neither is filled.
pub fn get_winner_diag(id: &NodeIndex, size: u8) -> (team: u8)
    ensures
        team == winner_diag(*id as nat, size as nat),
{
    let n = size as usize;
    if n == 0 {
        return 0;
    }
    assert(n * (n + 1) <= 255 * 256 && (n - 1) + n * (n - 1) <= 254 + 255 * 254)
        by (nonlinear_arith)
        requires
            1 <= n <= 255,
    ;
    let team = line_owner(*id, 0, n + 1, n);
    if team != 0 {
        return team;
    }
    line_owner(*id, n - 1, n - 1, n)
}

/// The winner of the board `id` of `size` rows and columns: the team of
/// the first filled line, rows before columns before diagonals; 0 where no
/// line is filled, be the board full or not.
pub fn get_winner(id: &NodeIndex, size: u8) -> (team: u8)
    ensures
        team == winner_spec(*id as nat, size as nat),
{
    let winner = get_winner_row(id, size);
    if winner != 0 {
        return winner;
    }
    let winner = get_winner_col(id, size);
    if winner != 0 {
        return winner;
    }
    get_winner_diag(id, size)
}

/// The board `id` with the mark of `team` added in cell `cell`.
pub open spec fn placed(id: nat, team: nat, cell: nat) -> nat {
    id + team * pow3(cell)
}

/// One move of `team` leads from the board `from` to the board `to`: `to`
/// is `from` with the mark of `team` in a cell of the first `cells` that
/// was empty.
pub open spec fn is_move(from: nat, to: nat, team: nat, cells: nat) -> bool {
    exists|cell: nat|
        cell < cells && digit(from, cell) == 0 && to == #[trigger] placed(from, team, cell)
}

/// The boards that one move of `team` leads to from the board `id` of
/// `cells` cells: one for each empty cell, in the order of the cells.
pub open spec fn child_states(id: NodeIndex, team: u8, cells: nat) -> Seq<NodeIndex>
    decreases cells,
{
    if cells == 0 {
        Seq::empty()
    } else {
        let earlier = child_states(id, team, (cells - 1) as nat);
        if digit(id as nat, (cells - 1) as nat) == 0 {
            earlier.push(placed(id as nat, team as nat, (cells - 1) as nat) as NodeIndex)
        } else {
            earlier
        }
    }
}

/// The number of empty cells among the first `cells` of the board.
pub open spec fn empty_cells(id: nat, cells: nat) -> nat
    decreases cells,
{
    if cells == 0 {
        0
    } else if digit(id, (cells - 1) as nat) == 0 {
        empty_cells(id, (cells - 1) as nat) + 1
    } else {
        empty_cells(id, (cells - 1) as nat)
    }
}

/// A mark added in an empty cell of a board of `cells` cells gives a board
/// of `cells` cells.
pub proof fn lemma_placed_bound(id: nat, team: nat, cells: nat, cell: nat)
    requires
        id < pow3(cells),
        cell < cells,
        digit(id, cell) == 0,
        team <= 2,
    ensures
        placed(id, team, cell) < pow3(cells),
{
    let p = pow3(cell);
    let m = pow3((cells - cell) as nat);
    let m1 = pow3((cells - cell - 1) as nat);
    let a = id / p;
    lemma_pow3_positive(cell);
    lemma_pow3_add(cell, (cells - cell) as nat);
    lemma_fundamental_div_mod(id as int, p as int);
    lemma_multiply_divide_lt(id as int, p as int, m as int);
    assert(m == 3 * m1);
    assert(a + team + 1 <= m);
    assert((a + team + 1) * p <= m * p) by (nonlinear_arith)
        requires
            a + team + 1 <= m,
    ;
    assert((a + team + 1) * p == p * a + team * p + p) by (nonlinear_arith);
    lemma_mul_is_commutative(m as int, p as int);
}

/// The children of a board are the boards that one move leads to.
pub proof fn lemma_child_states_moves(id: NodeIndex, team: u8, cells: nat, child: NodeIndex)
    requires
        id < pow3(cells),
        pow3(cells) <= u128::MAX,
        team <= 2,
    ensures
        child_states(id, team, cells).contains(child) <==> is_move(
            id as nat,
            child as nat,
            team as nat,
            cells,
        ),
{
    lemma_child_states_upto(id, team, cells, cells, child);
}

/// The children by the first `upto` cells are the boards that a move in
/// one of those cells leads to.
proof fn lemma_child_states_upto(id: NodeIndex, team: u8, cells: nat, upto: nat, child: NodeIndex)
    requires
        id < pow3(cells),
        pow3(cells) <= u128::MAX,
        team <= 2,
        upto <= cells,
    ensures
        child_states(id, team, upto).contains(child) <==> is_move(
            id as nat,
            child as nat,
            team as nat,
            upto,
        ),
    decreases upto,
{
    if upto == 0 {
    } else {
        let last = (upto - 1) as nat;
        let earlier = child_states(id, team, last);
        lemma_child_states_upto(id, team, cells, last, child);
        if digit(id as nat, last) == 0 {
            let here = placed(id as nat, team as nat, last);
            lemma_placed_bound(id as nat, team as nat, cells, last);
            lemma_seq_contains_after_push(earlier, here as NodeIndex, child);
            if child == here {
                assert(is_move(id as nat, child as nat, team as nat, upto));
            }
        }
        if is_move(id as nat, child as nat, team as nat, upto) {
            let cell = choose|cell: nat|
                cell < upto && digit(id as nat, cell) == 0 && child as nat == #[trigger] placed(
                    id as nat,
                    team as nat,
                    cell,
                );
            if cell < last {
                assert(is_move(id as nat, child as nat, team as nat, last));
            }
        }
        if is_move(id as nat, child as nat, team as nat, last) {
            let cell = choose|cell: nat|
                cell < last && digit(id as nat, cell) == 0 && child as nat == #[trigger] placed(
                    id as nat,
                    team as nat,
                    cell,
                );
            assert(cell < upto);
        }
    }
}

/// A move changes one digit of the board, from 0 to the mark of the team
/// that moves, and leaves every other digit as it was.
pub proof fn lemma_move_changes_one_digit(from: nat, to: nat, team: nat, cells: nat)
    requires
        is_move(from, to, team, cells),
        team <= 2,
    ensures
        exists|cell: nat|
            cell < cells && #[trigger] digit(from, cell) == 0 && digit(to, cell) == team
                && forall|other: nat|
                other != cell ==> #[trigger] digit(to, other) == digit(from, other),
{
    let cell = choose|cell: nat|
        cell < cells && digit(from, cell) == 0 && to == #[trigger] placed(from, team, cell);
    assert forall|other: nat| true implies #[trigger] digit(to, other) == if other == cell {
        team
    } else {
        digit(from, other)
    } by {
        lemma_digit_place(from, team, cell, other);
    }
    assert(digit(from, cell) == 0 && digit(to, cell) == team);
}

/// Each child of a board differs from it in one digit, which was 0 and is
/// the mark of the team that moved.
pub proof fn lemma_child_legal(id: NodeIndex, team: u8, cells: nat, child: NodeIndex)
    requires
        id < pow3(cells),
        cells <= MAX_CELLS,
        1 <= team <= 2,
        child_states(id, team, cells).contains(child),
    ensures
        exists|cell: nat|
            cell < cells && #[trigger] digit(id as nat, cell) == 0 && digit(child as nat, cell)
                == team && forall|other: nat|
                other != cell ==> #[trigger] digit(child as nat, other) == digit(id as nat, other),
{
    lemma_pow3_fits(cells);
    lemma_child_states_moves(id, team, cells, child);
    lemma_move_changes_one_digit(id as nat, child as nat, team as nat, cells);
}

/// The boards from which one move of `team` leads to the board `id` of
/// `cells` cells: one for each cell that holds the mark of `team`, in the
/// order of the cells.
pub open spec fn parent_states(id: NodeIndex, team: u8, cells: nat) -> Seq<NodeIndex>
    decreases cells,
{
    if cells == 0 {
        Seq::empty()
    } else {
        let earlier = parent_states(id, team, (cells - 1) as nat);
        if digit(id as nat, (cells - 1) as nat) == team {
            earlier.push((id - team * pow3((cells - 1) as nat)) as NodeIndex)
        } else {
            earlier
        }
    }
}

/// The team that moves next on a board of `cells` cells, where team 1
/// moves first and the teams take turns.
pub open spec fn turn_spec(id: nat, cells: nat) -> nat {
    if (cells - empty_cells(id, cells)) % 2 == 0 {
        1
    } else {
        2
    }
}

/// No more cells are empty than there are.
pub proof fn lemma_empty_cells_bound(id: nat, cells: nat)
    ensures
        empty_cells(id, cells) <= cells,
    decreases cells,
{
    if cells > 0 {
        lemma_empty_cells_bound(id, (cells - 1) as nat);
    }
}

/// On the empty board every cell is empty and team 1 moves.
pub proof fn lemma_empty_board(cells: nat)
    ensures
        empty_cells(0, cells) == cells,
        turn_spec(0, cells) == 1,
    decreases cells,
{
    if cells > 0 {
        lemma_empty_board((cells - 1) as nat);
        lemma_pow3_positive((cells - 1) as nat);
        lemma_basic_div(0, pow3((cells - 1) as nat) as int);
    }
}

/// The empty board has no winner, whatever its size.
pub proof fn lemma_empty_board_no_winner(size: nat)
    ensures
        winner_spec(0, size) == 0,
{
    lemma_winner_holds_line(0, size);
    assert forall|start: nat, stride: nat, len: nat| line_mark(0, start, stride, len) == 0 by {
        lemma_pow3_positive(start);
        lemma_basic_div(0, pow3(start) as int);
    }
    assert(no_line(0, size));
}

/// A mark set in `cell` leaves one empty cell less among the first `upto`
/// where `cell` is one of them, and as many else.
proof fn lemma_move_empty_cells_upto(from: nat, team: nat, cell: nat, upto: nat)
    requires
        digit(from, cell) == 0,
        1 <= team <= 2,
    ensures
        empty_cells(from, upto) == empty_cells(placed(from, team, cell), upto) + if cell < upto {
            1nat
        } else {
            0nat
        },
    decreases upto,
{
    if upto > 0 {
        lemma_move_empty_cells_upto(from, team, cell, (upto - 1) as nat);
        lemma_digit_place(from, team, cell, (upto - 1) as nat);
    }
}

/// A move fills one empty cell and passes the turn.
pub proof fn lemma_move_fills_cell(from: nat, to: nat, team: nat, cells: nat)
    requires
        is_move(from, to, team, cells),
        1 <= team <= 2,
    ensures
        empty_cells(to, cells) + 1 == empty_cells(from, cells),
        turn_spec(to, cells) != turn_spec(from, cells),
{
    let cell = choose|cell: nat|
        cell < cells && digit(from, cell) == 0 && to == #[trigger] placed(from, team, cell);
    lemma_move_empty_cells_upto(from, team, cell, cells);
    lemma_empty_cells_bound(from, cells);
    lemma_empty_cells_bound(to, cells);
}

/// A board has as many children as empty cells.
pub proof fn lemma_child_states_len(id: NodeIndex, team: u8, cells: nat)
    ensures
        child_states(id, team, cells).len() == empty_cells(id as nat, cells),
    decreases cells,
{
    if cells > 0 {
        lemma_child_states_len(id, team, (cells - 1) as nat);
    }
}

/// A board that holds the mark of `team` in cell `cell` is at least that
/// mark's weight, and without it the cell is empty.
pub proof fn lemma_unplace(id: nat, team: nat, cell: nat)
    requires
        digit(id, cell) == team,
        team <= 2,
    ensures
        id >= team * pow3(cell),
        digit((id - team * pow3(cell)) as nat, cell) == 0,
        placed((id - team * pow3(cell)) as nat, team, cell) == id,
{
    let p = pow3(cell);
    let a = id / p;
    lemma_pow3_positive(cell);
    lemma_fundamental_div_mod(id as int, p as int);
    assert(team * p <= a * p) by (nonlinear_arith)
        requires
            team <= a,
    ;
    lemma_mul_is_commutative(a as int, p as int);
    lemma_hoist_over_denominator(id as int, -(team as int), p);
    assert((-(team as int)) * p == -(team * p)) by (nonlinear_arith);
    assert((id - team * p) / (p as int) == a - team);
}

/// The parents of a board are the boards from which one move leads to it.
pub proof fn lemma_parent_states_moves(id: NodeIndex, team: u8, cells: nat, parent: NodeIndex)
    requires
        1 <= team <= 2,
    ensures
        parent_states(id, team, cells).contains(parent) <==> is_move(
            parent as nat,
            id as nat,
            team as nat,
            cells,
        ),
    decreases cells,
{
    if cells > 0 {
        let last = (cells - 1) as nat;
        let earlier = parent_states(id, team, last);
        lemma_parent_states_moves(id, team, last, parent);
        if digit(id as nat, last) == team {
            lemma_unplace(id as nat, team as nat, last);
            let here = (id - team * pow3(last)) as NodeIndex;
            lemma_seq_contains_after_push(earlier, here, parent);
            if parent == here {
                assert(id as nat == placed(parent as nat, team as nat, last));
                assert(is_move(parent as nat, id as nat, team as nat, cells));
            }
        }
        if is_move(parent as nat, id as nat, team as nat, cells) {
            let cell = choose|cell: nat|
                cell < cells && digit(parent as nat, cell) == 0 && id as nat == #[trigger] placed(
                    parent as nat,
                    team as nat,
                    cell,
                );
            if cell < last {
                assert(is_move(parent as nat, id as nat, team as nat, last));
            } else {
                lemma_digit_place(parent as nat, team as nat, cell, cell);
            }
        }
        if is_move(parent as nat, id as nat, team as nat, last) {
            let cell = choose|cell: nat|
                cell < last && digit(parent as nat, cell) == 0 && id as nat == #[trigger] placed(
                    parent as nat,
                    team as nat,
                    cell,
                );
            assert(cell < cells);
        }
    }
}

} // verus!
