//! Boards as text, solved grids, and the candidate store that search works on.
use vstd::prelude::*;
use vstd::string::*;
use crate::candidates::{
    cand, count, first_digit, lemma_count_pos, lemma_has_all, lemma_has_single, subset, ALL_DIGITS,
};
use crate::topology::peer;

verus! {

pub open spec fn is_digit_char(c: char) -> bool {
    '1' <= c <= '9'
}

pub open spec fn digit_value(c: char) -> int {
    c as int - '0' as int
}

/// 81 characters, each `.` (blank) or a digit 1 to 9.
pub open spec fn is_board(b: Seq<char>) -> bool {
    b.len() == 81 && forall|i: int| 0 <= i < 81 ==> #[trigger] b[i] == '.' || is_digit_char(b[i])
}

/// A filled grid in which no two peers hold the same digit.
pub open spec fn is_solution(t: Seq<char>) -> bool {
    &&& t.len() == 81
    &&& forall|i: int| 0 <= i < 81 ==> is_digit_char(#[trigger] t[i])
    &&& forall|i: int, j: int| #[trigger] peer(i, j) ==> t[i] != t[j]
}

/// `t` keeps every given digit of board `b`.
pub open spec fn completes(t: Seq<char>, b: Seq<char>) -> bool {
    forall|i: int| 0 <= i < 81 && #[trigger] b[i] != '.' ==> t[i] == b[i]
}

/// Every solution of board `b`.
pub open spec fn solutions_of(b: Seq<char>) -> Set<Seq<char>> {
    Set::new(|t: Seq<char>| is_solution(t) && completes(t, b))
}

/// Each cell of `t` holds one of the candidates of that cell in `s`.
pub open spec fn compatible(t: Seq<char>, s: Seq<u16>) -> bool {
    forall|i: int| 0 <= i < 81 ==> #[trigger] cand(s[i], digit_value(t[i]))
}

/// Every solution that the candidates `s` still allow.
pub open spec fn solutions_in(s: Seq<u16>) -> Set<Seq<char>> {
    Set::new(|t: Seq<char>| is_solution(t) && compatible(t, s))
}

/// The solutions that `s` allows with digit `d` in cell `c`.
pub open spec fn solutions_with(s: Seq<u16>, c: int, d: int) -> Set<Seq<char>> {
    Set::new(|t: Seq<char>| is_solution(t) && compatible(t, s) && digit_value(t[c]) == d)
}

/// The texts of a list of strings, as a set.
pub open spec fn texts(r: Seq<String>) -> Set<Seq<char>> {
    Set::new(|x: Seq<char>| exists|k: int| 0 <= k < r.len() && #[trigger] r[k]@ == x)
}

/// No text occurs twice.
pub open spec fn distinct(r: Seq<String>) -> bool {
    forall|a: int, b: int| 0 <= a < b < r.len() ==> r[a]@ != r[b]@
}

/// Every cell of `s` keeps at least one candidate.
pub open spec fn nonempty(s: Seq<u16>) -> bool {
    s.len() == 81 && forall|i: int| 0 <= i < 81 ==> #[trigger] count(s[i]) >= 1
}

/// No cell of `s` with one candidate shares it with a peer.
pub open spec fn clean(s: Seq<u16>, i: int) -> bool {
    forall|d: int, j: int|
        count(s[i]) == 1 && cand(s[i], d) && #[trigger] peer(i, j) ==> !#[trigger] cand(s[j], d)
}

/// The propagation fixpoint: no empty cell, and no peer of a resolved cell keeps its digit.
pub open spec fn settled(s: Seq<u16>) -> bool {
    nonempty(s) && forall|i: int| 0 <= i < 81 ==> #[trigger] clean(s, i)
}

/// The candidates of `a` are among those of `b`, cell by cell.
pub open spec fn narrower(a: Seq<u16>, b: Seq<u16>) -> bool {
    a.len() == b.len() && forall|i: int| 0 <= i < a.len() ==> subset(#[trigger] a[i], b[i])
}

/// The number of candidates over the first `n` cells.
pub open spec fn total_below(s: Seq<u16>, n: int) -> nat
    decreases n,
{
    if n <= 0 {
        0
    } else {
        total_below(s, n - 1) + count(s[n - 1])
    }
}

/// The number of candidates over the whole store.
pub open spec fn total(s: Seq<u16>) -> nat {
    total_below(s, s.len() as int)
}

/// A store whose counts are no larger, cell by cell, has no larger total, and a
/// smaller one where a count shrinks.
pub proof fn lemma_total_mono(a: Seq<u16>, b: Seq<u16>, n: int)
    requires
        a.len() == b.len(),
        0 <= n <= a.len(),
        forall|i: int| 0 <= i < n ==> count(#[trigger] a[i]) <= count(b[i]),
    ensures
        total_below(a, n) <= total_below(b, n),
        (exists|i: int| 0 <= i < n && count(#[trigger] a[i]) < count(b[i])) ==> total_below(a, n)
            < total_below(b, n),
    decreases n,
{
    if n > 0 {
        lemma_total_mono(a, b, n - 1);
        if exists|i: int| 0 <= i < n && count(#[trigger] a[i]) < count(b[i]) {
            let i = choose|i: int| 0 <= i < n && count(#[trigger] a[i]) < count(b[i]);
            if i < n - 1 {
                assert(0 <= i < n - 1 && count(a[i]) < count(b[i]));
            }
        }
    }
}

/// The candidate store: one mask of candidates per cell, in grid order.
#[derive(Clone, Copy)]
pub struct CandidateGrid {
    pub cells: [u16; 81],
}

impl View for CandidateGrid {
    type V = Seq<u16>;

    open spec fn view(&self) -> Seq<u16> {
        self.cells@
    }
}

/// The store for a board: all nine digits for a blank, the given digit otherwise.
pub fn initialize_sudoku(board: &str) -> (r: CandidateGrid)
    requires
        is_board(board@),
    ensures
        r@.len() == 81,
        forall|i: int, d: int|
            0 <= i < 81 && board@[i] == '.' ==> (#[trigger] cand(r@[i], d) <==> 1 <= d <= 9),
        forall|i: int, d: int|
            0 <= i < 81 && board@[i] != '.' ==> (#[trigger] cand(r@[i], d) <==> d == digit_value(
                board@[i],
            )),
        nonempty(r@),
        forall|t: Seq<char>| is_solution(t) ==> (compatible(t, r@) <==> completes(t, board@)),
{
    let mut r = CandidateGrid { cells: [0u16; 81] };
    let mut i: usize = 0;
    proof {
        lemma_has_all();
    }
    while i < 81
        invariant
            i <= 81,
            is_board(board@),
            r@.len() == 81,
            forall|e: int| #[trigger] cand(ALL_DIGITS, e) == (1 <= e <= 9),
            forall|x: int, d: int|
                0 <= x < i && board@[x] == '.' ==> (#[trigger] cand(r@[x], d) <==> 1 <= d <= 9),
            forall|x: int, d: int|
                0 <= x < i && board@[x] != '.' ==> (#[trigger] cand(r@[x], d) <==> d == digit_value(
                    board@[x],
                )),
        decreases 81 - i,
    {
        let ch = board.get_char(i);
        if ch == '.' {
            r.cells[i] = ALL_DIGITS;
        } else {
            let d: u16 = (ch as u32 - '0' as u32) as u16;
            proof {
                lemma_has_single(d);
            }
            r.cells[i] = 1u16 << d;
        }
        i = i + 1;
    }
    proof {
        assert forall|x: int| 0 <= x < 81 implies #[trigger] count(r@[x]) >= 1 by {
            if board@[x] == '.' {
                lemma_count_pos(r@[x], 1);
            } else {
                lemma_count_pos(r@[x], digit_value(board@[x]));
            }
        }
        assert forall|t: Seq<char>| is_solution(t) implies (compatible(t, r@) <==> completes(
            t,
            board@,
        )) by {
            if compatible(t, r@) {
                assert forall|x: int| 0 <= x < 81 && #[trigger] board@[x] != '.' implies t[x]
                    == board@[x] by {
                    assert(cand(r@[x], digit_value(t[x])));
                }
            }
            if completes(t, board@) {
                assert forall|x: int| 0 <= x < 81 implies #[trigger] cand(
                    r@[x],
                    digit_value(t[x]),
                ) by {
                    assert(is_digit_char(t[x]));
                    if board@[x] != '.' {
                        assert(t[x] == board@[x]);
                    }
                }
            }
        }
    }
    r
}

/// The one-character text of digit `d`.
fn digit_text(d: u16) -> (r: &'static str)
    requires
        1 <= d <= 9,
    ensures
        r@.len() == 1,
        is_digit_char(r@[0]),
        digit_value(r@[0]) == d,
{
    proof {
        reveal_strlit("1");
        reveal_strlit("2");
        reveal_strlit("3");
        reveal_strlit("4");
        reveal_strlit("5");
        reveal_strlit("6");
        reveal_strlit("7");
        reveal_strlit("8");
        reveal_strlit("9");
    }
    if d == 1 {
        "1"
    } else if d == 2 {
        "2"
    } else if d == 3 {
        "3"
    } else if d == 4 {
        "4"
    } else if d == 5 {
        "5"
    } else if d == 6 {
        "6"
    } else if d == 7 {
        "7"
    } else if d == 8 {
        "8"
    } else {
        "9"
    }
}

/// The digits of a fully resolved store, as 81 characters in grid order.
pub fn sudoku_to_string(grid: &CandidateGrid) -> (r: String)
    requires
        forall|i: int| 0 <= i < 81 ==> #[trigger] count(grid@[i]) == 1,
    ensures
        r@.len() == 81,
        forall|i: int| 0 <= i < 81 ==> is_digit_char(#[trigger] r@[i]),
        compatible(r@, grid@),
{
    let mut r = String::from_str("");
    proof {
        reveal_strlit("");
    }
    let mut i: usize = 0;
    while i < 81
        invariant
            i <= 81,
            r@.len() == i,
            forall|i: int| 0 <= i < 81 ==> #[trigger] count(grid@[i]) == 1,
            forall|x: int| 0 <= x < i ==> is_digit_char(#[trigger] r@[x]),
            forall|x: int| 0 <= x < i ==> #[trigger] cand(grid@[x], digit_value(r@[x])),
        decreases 81 - i,
    {
        assert(count(grid@[i as int]) == 1);
        let d = first_digit(grid.cells[i]);
        let text = digit_text(d);
        let ghost before = r@;
        r.append(text);
        assert(r@[i as int] == text@[0]);
        assert forall|x: int| 0 <= x < i implies r@[x] == before[x] by {}
        i = i + 1;
    }
    r
}

/// Characters with the same code are the same character.
pub proof fn lemma_char_eq(a: char, b: char)
    requires
        digit_value(a) == digit_value(b),
    ensures
        a == b,
{
}

} // verus!
