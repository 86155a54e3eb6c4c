//! Integer facts shared by the layout computations.
use vstd::arithmetic::div_mod::{
    lemma_div_is_ordered, lemma_fundamental_div_mod, lemma_fundamental_div_mod_converse,
};
use vstd::prelude::*;

verus! {

/// The least number of pieces of length `piece` that cover `total`.
pub open spec fn ceil_div(total: nat, piece: nat) -> nat {
    if piece == 0 {
        0
    } else {
        ((total + piece - 1) / (piece as int)) as nat
    }
}

/// The smaller of two integers.
pub open spec fn min_of(a: int, b: int) -> int {
    if a <= b {
        a
    } else {
        b
    }
}

/// The larger of two integers.
pub open spec fn max_of(a: int, b: int) -> int {
    if a <= b {
        b
    } else {
        a
    }
}

/// The sum of `value` over the first `count` columns from `col` on of a row.
pub open spec fn sum_line(
    value: spec_fn(int, int) -> int,
    row: int,
    col: int,
    count: nat,
) -> int
    decreases count,
{
    if count == 0 {
        0
    } else {
        sum_line(value, row, col, (count - 1) as nat) + value(row, col + count - 1)
    }
}

/// The sum of `value` over a rectangle.
pub open spec fn sum_area(
    value: spec_fn(int, int) -> int,
    row: int,
    col: int,
    rows: nat,
    cols: nat,
) -> int
    decreases rows,
{
    if rows == 0 {
        0
    } else {
        sum_area(value, row, col, (rows - 1) as nat, cols) + sum_line(
            value,
            row + rows - 1,
            col,
            cols,
        )
    }
}

/// Whether a number is the integer next to a quotient, a half being rounded away from zero.
pub open spec fn is_next_integer(number: int, sum: int, count: int) -> bool {
    if sum >= 0 {
        2 * sum - count < 2 * (count * number) <= 2 * sum + count
    } else {
        2 * sum - count <= 2 * (count * number) < 2 * sum + count
    }
}

/// Values that are the same from place to place have the same sum over a line.
pub proof fn lemma_same_line(
    value: spec_fn(int, int) -> int,
    other: spec_fn(int, int) -> int,
    row: int,
    col: int,
    down: int,
    right: int,
    count: nat,
)
    requires
        forall|c: int|
            col <= c < col + count ==> #[trigger] value(row, c) == other(row + down, c + right),
    ensures
        sum_line(value, row, col, count) == sum_line(other, row + down, col + right, count),
    decreases count,
{
    if count > 0 {
        lemma_same_line(value, other, row, col, down, right, (count - 1) as nat);
        assert(value(row, col + count - 1) == other(row + down, col + count - 1 + right));
        assert(col + count - 1 + right == col + right + count - 1);
    }
}

/// Values that are the same from place to place have the same sum over a rectangle.
pub proof fn lemma_same_area(
    value: spec_fn(int, int) -> int,
    other: spec_fn(int, int) -> int,
    row: int,
    col: int,
    down: int,
    right: int,
    rows: nat,
    cols: nat,
)
    requires
        forall|r: int, c: int|
            row <= r < row + rows && col <= c < col + cols ==> #[trigger] value(r, c) == other(
                r + down,
                c + right,
            ),
    ensures
        sum_area(value, row, col, rows, cols) == sum_area(
            other,
            row + down,
            col + right,
            rows,
            cols,
        ),
    decreases rows,
{
    if rows > 0 {
        lemma_same_area(value, other, row, col, down, right, (rows - 1) as nat, cols);
        lemma_same_line(value, other, row + rows - 1, col, down, right, cols);
        assert(row + rows - 1 + down == row + down + rows - 1);
    }
}

/// `ceil_div` pieces reach the end of `total`, and one piece fewer does not.
pub proof fn lemma_ceil_div(total: nat, piece: nat)
    requires
        piece > 0,
    ensures
        total <= ceil_div(total, piece) * piece < total + piece,
        total > 0 ==> (ceil_div(total, piece) - 1) * piece < total,
        total > 0 ==> ceil_div(total, piece) > 0,
        total == 0 ==> ceil_div(total, piece) == 0,
        ceil_div(total, piece) <= total,
{
    let p = piece as int;
    let q = (total + p - 1) / p;
    lemma_fundamental_div_mod(total + p - 1, p);
    assert(p * q == q * p) by (nonlinear_arith);
    assert((q - 1) * p == q * p - p) by (nonlinear_arith);
    if total == 0 {
        lemma_fundamental_div_mod_converse(p - 1, p, 0, p - 1);
    } else {
        lemma_div_is_ordered(p, total + p - 1, p);
        lemma_fundamental_div_mod_converse(p, p, 1, 0);
        assert(q <= total) by (nonlinear_arith)
            requires
                (q - 1) * p < total,
                p >= 1,
                q >= 1,
        ;
    }
}

/// A count is `ceil_div` as soon as that many pieces cover and one fewer does not.
pub proof fn lemma_ceil_div_unique(total: nat, piece: nat, count: nat)
    requires
        piece > 0,
        total <= count * piece,
        count > 0 ==> (count - 1) * piece < total,
    ensures
        count == ceil_div(total, piece),
{
    lemma_ceil_div(total, piece);
    let q = ceil_div(total, piece);
    if count < q {
        assert((q - 1) * piece >= count * piece) by (nonlinear_arith)
            requires
                q - 1 >= count,
                piece > 0,
        ;
    } else if q < count {
        assert((count - 1) * piece >= q * piece) by (nonlinear_arith)
            requires
                count - 1 >= q,
                piece > 0,
        ;
    }
}

/// Row-major indices of a grid are in range, and give back their row and column.
pub proof fn lemma_grid_index(row: int, col: int, across: int, down: int)
    requires
        0 <= row < down,
        0 <= col < across,
    ensures
        0 <= row * across + col < down * across,
        (row * across + col) / across == row,
        (row * across + col) % across == col,
{
    lemma_fundamental_div_mod_converse(row * across + col, across, row, col);
    assert(0 <= row * across && row * across + across <= down * across) by (nonlinear_arith)
        requires
            0 <= row < down,
            0 <= across,
    ;
}

/// A row-major index splits into a row and a column of the grid.
pub proof fn lemma_grid_split(index: int, across: int, down: int)
    requires
        0 <= index < down * across,
        0 <= across,
    ensures
        across > 0,
        0 <= index / across < down,
        0 <= index % across < across,
        index == (index / across) * across + index % across,
{
    assert(across > 0) by (nonlinear_arith)
        requires
            0 <= index < down * across,
            0 <= across,
    ;
    lemma_fundamental_div_mod(index, across);
    let q = index / across;
    assert(across * q == q * across) by (nonlinear_arith);
    assert(q < down) by (nonlinear_arith)
        requires
            q * across <= index,
            index < down * across,
            across > 0,
    ;
    assert(q >= 0) by (nonlinear_arith)
        requires
            index == q * across + index % across,
            0 <= index,
            0 <= index % across < across,
    ;
}

/// Products of bounded naturals are bounded by the product of the bounds.
pub proof fn lemma_mul_bound(a: int, b: int, a_max: int, b_max: int)
    by (nonlinear_arith)
    requires
        0 <= a <= a_max,
        0 <= b <= b_max,
    ensures
        0 <= a * b <= a_max * b_max,
{
}

/// `ceil_div` in machine arithmetic.
pub fn div_ceil(total: usize, piece: usize) -> (count: usize)
    requires
        piece > 0,
    ensures
        count == ceil_div(total as nat, piece as nat),
{
    let whole: usize = total / piece;
    proof {
        lemma_fundamental_div_mod(total as int, piece as int);
        let w = whole as int;
        assert(piece * w == w * piece) by (nonlinear_arith);
        assert(w <= total) by (nonlinear_arith)
            requires
                w * piece <= total,
                piece >= 1,
                w >= 0,
        ;
        assert((w - 1) * piece == w * piece - piece) by (nonlinear_arith);
        assert((w + 1) * piece == w * piece + piece) by (nonlinear_arith);
        if total % piece == 0 {
            lemma_ceil_div_unique(total as nat, piece as nat, whole as nat);
        } else {
            lemma_ceil_div_unique(total as nat, piece as nat, (whole + 1) as nat);
            assert(w + 1 <= total) by (nonlinear_arith)
                requires
                    w * piece < total,
                    piece >= 1,
                    w >= 0,
            ;
        }
    }
    if total % piece == 0 {
        whole
    } else {
        whole + 1
    }
}

} // verus!
