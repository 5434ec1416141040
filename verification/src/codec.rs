//! Boards as base-3 numbers: one digit per cell, cell 0 in the lowest place.

use vstd::prelude::*;
use vstd::arithmetic::div_mod::{
    lemma_basic_div, lemma_div_denominator, lemma_hoist_over_denominator, lemma_mod_breakdown,
    lemma_mod_multiples_vanish, lemma_small_div_converse, lemma_small_mod,
};
use vstd::arithmetic::mul::{lemma_mul_is_associative, lemma_mul_is_commutative};

verus! {

/// The number that identifies a board.
pub type NodeIndex = u128;

/// The longest board, in cells, whose every identifier fits a `NodeIndex`.
pub const MAX_CELLS: usize = 80;

/// Three to the power `n`.
pub open spec fn pow3(n: nat) -> nat
    decreases n,
{
    if n == 0 {
        1
    } else {
        3 * pow3((n - 1) as nat)
    }
}

/// The mark in cell `i` of the board `id`: 0 for an empty cell, else the team.
pub open spec fn digit(id: nat, i: nat) -> nat {
    (id / pow3(i)) % 3
}

/// Every cell of the board is empty or holds the mark of team 1 or 2.
pub open spec fn valid_board(board: Seq<u8>) -> bool {
    forall|i: int| 0 <= i < board.len() ==> board[i] <= 2
}

/// The identifier of a board: the sum of `board[i] * 3^i` over its cells.
pub open spec fn encode_spec(board: Seq<u8>) -> nat
    decreases board.len(),
{
    if board.len() == 0 {
        0
    } else {
        encode_spec(board.drop_last()) + board.last() as nat * pow3((board.len() - 1) as nat)
    }
}

/// The first `cells` cells of the board `id`.
pub open spec fn decode_spec(id: nat, cells: nat) -> Seq<u8> {
    Seq::new(cells, |i: int| digit(id, i as nat) as u8)
}

/// Powers of three are positive.
pub proof fn lemma_pow3_positive(n: nat)
    ensures
        pow3(n) > 0,
    decreases n,
{
    if n > 0 {
        lemma_pow3_positive((n - 1) as nat);
    }
}

/// The power of a sum is the product of the powers.
pub proof fn lemma_pow3_add(a: nat, b: nat)
    ensures
        pow3(a + b) == pow3(a) * pow3(b),
    decreases b,
{
    if b == 0 {
        assert(pow3(a) * 1 == pow3(a));
    } else {
        lemma_pow3_add(a, (b - 1) as nat);
        let p = pow3((b - 1) as nat);
        assert(pow3(a + b) == 3 * pow3((a + b - 1) as nat));
        assert(pow3(a) * (3 * p) == 3 * (pow3(a) * p)) by {
            lemma_mul_is_associative(pow3(a) as int, 3, p as int);
            lemma_mul_is_commutative(pow3(a) as int, 3);
            lemma_mul_is_associative(3, pow3(a) as int, p as int);
        }
    }
}

/// Powers of three grow with the exponent.
pub proof fn lemma_pow3_monotonic(a: nat, b: nat)
    requires
        a <= b,
    ensures
        pow3(a) <= pow3(b),
    decreases b,
{
    if a < b {
        lemma_pow3_monotonic(a, (b - 1) as nat);
    }
}

/// Every identifier of a board of at most `MAX_CELLS` cells fits a `NodeIndex`.
pub proof fn lemma_pow3_fits(n: nat)
    requires
        n <= MAX_CELLS,
    ensures
        pow3(n) < u128::MAX,
{
    assert(pow3(10) == 59049) by {
        reveal_with_fuel(pow3, 11);
    }
    lemma_pow3_add(10, 10);
    assert(pow3(20) == 3486784401);
    lemma_pow3_add(20, 20);
    assert(pow3(40) == 12157665459056928801);
    lemma_pow3_add(40, 40);
    assert(pow3(80) == 147808829414345923316083210206383297601);
    lemma_pow3_monotonic(n, 80);
}

/// Dropping one more digit is one more division by three.
pub proof fn lemma_shift_step(id: nat, k: nat)
    ensures
        (id / pow3(k)) / 3 == id / pow3(k + 1),
{
    lemma_pow3_positive(k);
    lemma_div_denominator(id as int, pow3(k) as int, 3);
    assert(pow3(k + 1) == pow3(k) * 3);
}

/// A number below `3^cells` has no mark at or beyond cell `cells`.
pub proof fn lemma_digit_beyond(id: nat, cells: nat, i: nat)
    requires
        id < pow3(cells),
        cells <= i,
    ensures
        digit(id, i) == 0,
{
    lemma_pow3_monotonic(cells, i);
    lemma_basic_div(id as int, pow3(i) as int);
}

/// Writing the mark `team` into the empty cell `k` changes that digit and no
/// other.
pub proof fn lemma_digit_place(id: nat, team: nat, k: nat, i: nat)
    requires
        digit(id, k) == 0,
        team <= 2,
    ensures
        digit(id + team * pow3(k), i) == if i == k {
            team
        } else {
            digit(id, i)
        },
{
    let p = pow3(k);
    let q = id / p;
    lemma_pow3_positive(k);
    lemma_pow3_positive(i);
    if i < k {
        let d = pow3(i);
        let hi = pow3((k - i) as nat);
        let hi1 = pow3((k - i - 1) as nat);
        lemma_pow3_add(i, (k - i) as nat);
        assert(team * p == (team * hi) * d) by {
            lemma_mul_is_commutative(d as int, hi as int);
            lemma_mul_is_associative(team as int, hi as int, d as int);
        }
        lemma_hoist_over_denominator(id as int, (team * hi) as int, d);
        assert((id + team * p) / d == id / d + team * hi);
        assert(team * hi == 3 * (team * hi1)) by {
            lemma_mul_is_associative(team as int, 3, hi1 as int);
            lemma_mul_is_commutative(team as int, 3);
            lemma_mul_is_associative(3, team as int, hi1 as int);
        }
        lemma_mod_multiples_vanish((team * hi1) as int, (id / d) as int, 3);
    } else if i == k {
        lemma_hoist_over_denominator(id as int, team as int, p);
        assert((id + team * p) / p == q + team);
    } else {
        let m = pow3((i - k) as nat);
        let m1 = pow3((i - k - 1) as nat);
        lemma_pow3_positive((i - k - 1) as nat);
        lemma_pow3_add(k, (i - k) as nat);
        lemma_hoist_over_denominator(id as int, team as int, p);
        assert((id + team * p) / p == q + team);
        lemma_div_denominator((id + team * p) as int, p as int, m as int);
        lemma_div_denominator(id as int, p as int, m as int);
        assert(m == 3 * m1);
        lemma_div_denominator((q + team) as int, 3, m1 as int);
        lemma_div_denominator(q as int, 3, m1 as int);
        assert((q + team) / 3 == q / 3);
    }
}

/// The identifier of a valid board of `n` cells is below `3^n`.
pub proof fn lemma_encode_bound(board: Seq<u8>)
    requires
        valid_board(board),
    ensures
        encode_spec(board) < pow3(board.len()),
    decreases board.len(),
{
    if board.len() > 0 {
        lemma_encode_bound(board.drop_last());
        let p = pow3((board.len() - 1) as nat);
        let m = board.last() as nat;
        assert(m * p <= 2 * p) by (nonlinear_arith)
            requires
                m <= 2,
        ;
    }
}

/// Each digit of a board's identifier is the mark in that cell.
pub proof fn lemma_digit_encode(board: Seq<u8>, i: nat)
    requires
        valid_board(board),
    ensures
        digit(encode_spec(board), i) == if i < board.len() {
            board[i as int] as nat
        } else {
            0
        },
    decreases board.len(),
{
    if board.len() == 0 {
        lemma_pow3_positive(i);
        lemma_basic_div(0, pow3(i) as int);
    } else {
        let k = (board.len() - 1) as nat;
        let low = encode_spec(board.drop_last());
        lemma_encode_bound(board.drop_last());
        lemma_digit_beyond(low, k, k);
        lemma_digit_place(low, board.last() as nat, k, i);
        lemma_digit_encode(board.drop_last(), i);
    }
}

/// Decoding the identifier of a valid board gives the board back.
pub proof fn lemma_decode_encode(board: Seq<u8>)
    requires
        valid_board(board),
    ensures
        decode_spec(encode_spec(board), board.len()) == board,
{
    let back = decode_spec(encode_spec(board), board.len());
    assert forall|i: int| 0 <= i < board.len() implies back[i] == board[i] by {
        lemma_digit_encode(board, i as nat);
    }
    assert(back =~= board);
}

/// What decoding gives is a valid board.
pub proof fn lemma_decode_valid(id: nat, cells: nat)
    ensures
        valid_board(decode_spec(id, cells)),
        decode_spec(id, cells).len() == cells,
{
}

/// Encoding the first `cells` cells of `id` gives `id` without the digits
/// beyond them; for a board of `cells` cells that is `id` itself.
pub proof fn lemma_encode_decode(id: nat, cells: nat)
    ensures
        encode_spec(decode_spec(id, cells)) == id % pow3(cells),
        id < pow3(cells) ==> encode_spec(decode_spec(id, cells)) == id,
    decreases cells,
{
    lemma_pow3_positive(cells);
    if cells == 0 {
    } else {
        let k = (cells - 1) as nat;
        let board = decode_spec(id, cells);
        assert(board.drop_last() =~= decode_spec(id, k));
        lemma_encode_decode(id, k);
        lemma_pow3_positive(k);
        lemma_mod_breakdown(id as int, pow3(k) as int, 3);
        assert(pow3(cells) == pow3(k) * 3);
        assert(board.last() as nat == digit(id, k));
        assert(pow3(k) * digit(id, k) == digit(id, k) * pow3(k)) by {
            lemma_mul_is_commutative(pow3(k) as int, digit(id, k) as int);
        }
    }
    if id < pow3(cells) {
        lemma_small_mod(id, pow3(cells));
    }
}

/// The identifier of `board`.
pub fn encode(board: &[u8]) -> (id: NodeIndex)
    requires
        board@.len() <= MAX_CELLS,
        valid_board(board@),
    ensures
        id == encode_spec(board@),
        id < pow3(board@.len()),
{
    let mut id: NodeIndex = 0;
    let mut weight: NodeIndex = 1;
    let mut i: usize = 0;
    while i < board.len()
        invariant
            i <= board@.len() <= MAX_CELLS,
            valid_board(board@),
            id == encode_spec(board@.take(i as int)),
            id < pow3(i as nat),
            i < board@.len() ==> weight == pow3(i as nat),
        decreases board@.len() - i,
    {
        let mark = board[i];
        proof {
            let p = pow3(i as nat);
            lemma_pow3_fits((i + 1) as nat);
            assert(mark as nat * p <= 2 * p) by (nonlinear_arith)
                requires
                    mark <= 2,
            ;
            assert(board@.take(i + 1).drop_last() =~= board@.take(i as int));
        }
        id = id + mark as NodeIndex * weight;
        i = i + 1;
        if i < board.len() {
            proof {
                lemma_pow3_fits((i + 1) as nat);
            }
            weight = weight * 3;
        }
    }
    proof {
        assert(board@.take(i as int) =~= board@);
    }
    id
}

/// The board `id` without its first `count` cells.
pub fn drop_digits(id: NodeIndex, count: usize) -> (rest: NodeIndex)
    ensures
        rest == id as nat / pow3(count as nat),
{
    let mut rest: NodeIndex = id;
    let mut i: usize = 0;
    assert(pow3(0) == 1);
    while i < count && rest != 0
        invariant
            i <= count,
            rest == id as nat / pow3(i as nat),
        decreases count - i,
    {
        proof {
            lemma_shift_step(id as nat, i as nat);
        }
        rest = rest / 3;
        i = i + 1;
    }
    proof {
        if i < count {
            lemma_pow3_positive(i as nat);
            lemma_small_div_converse(id as int, pow3(i as nat) as int);
            lemma_pow3_monotonic(i as nat, count as nat);
            lemma_basic_div(id as int, pow3(count as nat) as int);
        }
    }
    rest
}

/// The mark in cell `index` of the board `id`.
pub fn digit_at(id: NodeIndex, index: usize) -> (mark: u8)
    ensures
        mark == digit(id as nat, index as nat),
{
    (drop_digits(id, index) % 3) as u8
}

/// The first `cells` cells of the board `id`; cells beyond the number's
/// digits are empty.
pub fn decode(id: NodeIndex, cells: usize) -> (board: Vec<u8>)
    ensures
        board@ == decode_spec(id as nat, cells as nat),
{
    let mut board: Vec<u8> = Vec::new();
    let mut rest: NodeIndex = id;
    let mut i: usize = 0;
    assert(pow3(0) == 1);
    while i < cells
        invariant
            i <= cells,
            rest == id as nat / pow3(i as nat),
            board@ == decode_spec(id as nat, i as nat),
        decreases cells - i,
    {
        proof {
            lemma_shift_step(id as nat, i as nat);
        }
        board.push((rest % 3) as u8);
        rest = rest / 3;
        i = i + 1;
    }
    board
}

} // verus!
