//! Properties of solutions and of what the solvers return.
use vstd::prelude::*;
use vstd::set_lib::{lemma_int_range, lemma_subset_equality, set_int_range};
use crate::board::{
    digit_value, distinct, is_board, is_digit_char, is_solution, lemma_char_eq,
    solutions_of, texts,
};
use crate::topology::{in_unit, peer};

verus! {

/// The `k`-th cell (0 to 8) of unit `kind` of cell `i`, in grid order.
pub open spec fn unit_member(kind: int, i: int, k: int) -> int {
    if kind == 0 {
        (i / 9) * 9 + k
    } else if kind == 1 {
        k * 9 + i % 9
    } else {
        (i / 27) * 27 + (k / 3) * 9 + ((i % 9) / 3) * 3 + k % 3
    }
}

proof fn lemma_unit_member(kind: int, i: int, k: int, l: int)
    requires
        0 <= kind < 3,
        0 <= i < 81,
        0 <= k < 9,
        0 <= l < 9,
    ensures
        0 <= unit_member(kind, i, k) < 81,
        in_unit(kind, i, unit_member(kind, i, k)),
        k != l ==> unit_member(kind, i, k) != unit_member(kind, i, l),
{
}

/// Two cells of one unit of `i` share that unit with each other.
proof fn lemma_unit_shared(kind: int, i: int, a: int, b: int)
    requires
        0 <= kind < 3,
        0 <= i < 81,
        0 <= a < 81,
        0 <= b < 81,
        in_unit(kind, i, a),
        in_unit(kind, i, b),
        a != b,
    ensures
        peer(a, b),
{
}

/// In a solution each row, column and box holds each digit 1 to 9 exactly once.
pub proof fn lemma_units_hold_each_digit_once(t: Seq<char>, i: int, kind: int, d: int)
    requires
        is_solution(t),
        0 <= i < 81,
        0 <= kind < 3,
        1 <= d <= 9,
    ensures
        exists|j: int| 0 <= j < 81 && in_unit(kind, i, j) && digit_value(#[trigger] t[j]) == d,
        forall|a: int, b: int|
            0 <= a < 81 && 0 <= b < 81 && in_unit(kind, i, a) && in_unit(kind, i, b) && digit_value(
                #[trigger] t[a],
            ) == d && digit_value(#[trigger] t[b]) == d ==> a == b,
{
    let vals = Seq::new(9, |k: int| digit_value(t[unit_member(kind, i, k)]));
    assert forall|k: int, l: int| 0 <= k < l < 9 implies vals[k] != vals[l] by {
        lemma_unit_member(kind, i, k, l);
        lemma_unit_member(kind, i, l, k);
        let a = unit_member(kind, i, k);
        let b = unit_member(kind, i, l);
        lemma_unit_shared(kind, i, a, b);
        if vals[k] == vals[l] {
            lemma_char_eq(t[a], t[b]);
        }
    }
    assert(vals.no_duplicates());
    vals.unique_seq_to_set();
    lemma_int_range(1, 10);
    assert forall|v: int| vals.to_set().contains(v) implies set_int_range(1, 10).contains(v) by {
        let k = choose|k: int| 0 <= k < 9 && vals[k] == v;
        lemma_unit_member(kind, i, k, k);
        assert(is_digit_char(t[unit_member(kind, i, k)]));
    }
    lemma_subset_equality(vals.to_set(), set_int_range(1, 10));
    assert(set_int_range(1, 10).contains(d));
    assert(vals.to_set().contains(d));
    let k = choose|k: int| 0 <= k < 9 && vals[k] == d;
    lemma_unit_member(kind, i, k, k);
    assert(digit_value(t[unit_member(kind, i, k)]) == d);
    assert forall|a: int, b: int|
        0 <= a < 81 && 0 <= b < 81 && in_unit(kind, i, a) && in_unit(kind, i, b) && digit_value(
            #[trigger] t[a],
        ) == d && digit_value(#[trigger] t[b]) == d implies a == b by {
        if a != b {
            lemma_unit_shared(kind, i, a, b);
        }
    }
}

/// Every text a solver returns for a board fills each row, column and box
/// with each digit 1 to 9 exactly once.
pub proof fn lemma_solved_outputs_fill_units(
    board: Seq<char>,
    r: Seq<String>,
    n: int,
    i: int,
    kind: int,
    d: int,
)
    requires
        texts(r) == solutions_of(board),
        0 <= n < r.len(),
        0 <= i < 81,
        0 <= kind < 3,
        1 <= d <= 9,
    ensures
        is_solution(r[n]@),
        exists|j: int| 0 <= j < 81 && in_unit(kind, i, j) && digit_value(#[trigger] r[n]@[j]) == d,
        forall|a: int, b: int|
            0 <= a < 81 && 0 <= b < 81 && in_unit(kind, i, a) && in_unit(kind, i, b) && digit_value(
                #[trigger] r[n]@[a],
            ) == d && digit_value(#[trigger] r[n]@[b]) == d ==> a == b,
{
    assert(texts(r).contains(r[n]@));
    lemma_units_hold_each_digit_once(r[n]@, i, kind, d);
}

/// The strategies return the same set of solutions for a board: the
/// sequential one, the work-stealing one and the task-per-branch one.
pub proof fn lemma_strategies_agree(
    board: Seq<char>,
    sequential: Seq<String>,
    stealing: Seq<String>,
    scoped: Seq<String>,
)
    requires
        texts(sequential) == solutions_of(board),
        texts(stealing) == solutions_of(board),
        texts(scoped) == solutions_of(board),
    ensures
        texts(sequential) == texts(stealing),
        texts(sequential) == texts(scoped),
{
}

/// A board that is already a solution has exactly one solution, itself; a
/// solver's result for it is that one text.
pub proof fn lemma_filled_board(board: Seq<char>, r: Seq<String>)
    requires
        is_solution(board),
        texts(r) == solutions_of(board),
        distinct(r),
    ensures
        solutions_of(board) == set![board],
        r.len() == 1,
        r[0]@ == board,
{
    assert forall|t: Seq<char>| solutions_of(board).contains(t) <==> t == board by {
        if solutions_of(board).contains(t) {
            assert forall|x: int| 0 <= x < 81 implies t[x] == board[x] by {
                assert(is_digit_char(board[x]));
            }
            assert(t =~= board);
        }
    }
    assert(solutions_of(board) =~= set![board]);
    assert(texts(r).contains(board));
    let k = choose|k: int| 0 <= k < r.len() && #[trigger] r[k]@ == board;
    if r.len() > 1 {
        let other = if k == 0 { 1int } else { 0int };
        assert(texts(r).contains(r[other]@));
    }
}

/// A board with the same digit given in two peer cells has no solution; a
/// solver's result for it is empty.
pub proof fn lemma_conflicting_givens(board: Seq<char>, i: int, j: int, r: Seq<String>)
    requires
        is_board(board),
        peer(i, j),
        board[i] == board[j],
        board[i] != '.',
        texts(r) == solutions_of(board),
    ensures
        solutions_of(board) == Set::<Seq<char>>::empty(),
        r.len() == 0,
{
    assert forall|t: Seq<char>| !#[trigger] solutions_of(board).contains(t) by {
        if solutions_of(board).contains(t) {
            assert(t[i] == board[i]);
            assert(t[j] == board[j]);
        }
    }
    assert(solutions_of(board) =~= Set::<Seq<char>>::empty());
    if r.len() > 0 {
        assert(texts(r).contains(r[0]@));
    }
}

} // verus!
