//! A board rendered as a 9×9 grid, with separators between the boxes.
use vstd::prelude::*;
use vstd::string::*;

verus! {

/// What follows cell `i` of a row: a line break after the last column, else a
/// space, and a bar after the third and sixth columns.
pub open spec fn cell_tail(i: int) -> Seq<char> {
    if i % 9 == 8 {
        "\n"@
    } else if (i % 9 + 1) % 3 == 0 {
        " "@ + "|"@
    } else {
        " "@
    }
}

/// The rule under the third and sixth rows.
pub open spec fn band_rule(i: int) -> Seq<char> {
    if (i + 1) % 27 == 0 && i != 80 {
        "------+-------+------\n"@
    } else {
        Seq::empty()
    }
}

/// The rendering of the first `n` characters of `b`.
pub open spec fn layout_below(b: Seq<char>, n: int) -> Seq<char>
    decreases n,
{
    if n <= 0 {
        Seq::empty()
    } else {
        layout_below(b, n - 1) + seq![b[n - 1]] + cell_tail(n - 1) + band_rule(n - 1)
    }
}

/// The rendering of a board: each character followed by its separators.
pub open spec fn layout(b: Seq<char>) -> Seq<char> {
    layout_below(b, b.len() as int)
}

/// Renders a board string as rows of digits with box separators.
pub fn format_board(board: &str) -> (r: String)
    ensures
        r@ == layout(board@),
{
    let n = board.unicode_len();
    let mut result = String::from_str("");
    proof {
        reveal_strlit("");
        assert(result@ =~= layout_below(board@, 0));
    }
    let mut i: usize = 0;
    while i < n
        invariant
            n == board@.len(),
            i <= n,
            result@ == layout_below(board@, i as int),
        decreases n - i,
    {
        let col = i % 9;
        let ghost start = result@;
        let ch = board.substring_char(i, i + 1);
        assert(ch@ =~= seq![board@[i as int]]);
        result.append(ch);
        if col == 8 {
            result.append("\n");
        } else {
            result.append(" ");
            if (col + 1) % 3 == 0 {
                result.append("|");
            }
        }
        let ghost mid = result@;
        if (i + 1) % 27 == 0 && i != 80 {
            result.append("------+-------+------\n");
        }
        proof {
            assert(mid =~= start + seq![board@[i as int]] + cell_tail(i as int));
            assert(result@ =~= mid + band_rule(i as int));
        }
        i = i + 1;
    }
    result
}

} // verus!
