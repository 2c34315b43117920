//! Minimum-remaining-candidates search over candidate stores, shared by a
//! sequential and a work-stealing parallel strategy.
use vstd::prelude::*;
use rayon::iter::{IntoParallelRefIterator, ParallelIterator};
use crate::board::{
    clean, compatible, completes, digit_value, distinct, initialize_sudoku, is_board, is_digit_char,
    is_solution, lemma_char_eq, lemma_total_mono, narrower, nonempty, settled, solutions_in,
    solutions_of, solutions_with, sudoku_to_string, texts, total, CandidateGrid,
};
use crate::candidates::{
    cand, count, count_digits, has_digit, lemma_count_one, lemma_count_single, lemma_has_single,
};
use crate::propagate::not_consistent;
use crate::topology::{peer, Topology};

verus! {

/// The solutions that `s` allows with a digit below `d` in cell `c`.
pub open spec fn solutions_below(s: Seq<u16>, c: int, d: int) -> Set<Seq<char>> {
    Set::new(|t: Seq<char>| is_solution(t) && compatible(t, s) && digit_value(t[c]) < d)
}

/// Texts of a concatenation: the union of the texts; distinct parts with no
/// common text stay distinct.
pub proof fn lemma_texts_append(a: Seq<String>, b: Seq<String>)
    ensures
        texts(a + b) == texts(a).union(texts(b)),
        distinct(a) && distinct(b) && texts(a).disjoint(texts(b)) ==> distinct(a + b),
{
    let ab = a + b;
    assert forall|x: Seq<char>| texts(ab).contains(x) <==> texts(a).union(texts(b)).contains(x) by {
        if texts(ab).contains(x) {
            let k = choose|k: int| 0 <= k < ab.len() && #[trigger] ab[k]@ == x;
            if k < a.len() {
                assert(a[k]@ == x);
            } else {
                assert(b[k - a.len()]@ == x);
            }
        }
        if texts(a).contains(x) {
            let k = choose|k: int| 0 <= k < a.len() && #[trigger] a[k]@ == x;
            assert(ab[k]@ == x);
        }
        if texts(b).contains(x) {
            let k = choose|k: int| 0 <= k < b.len() && #[trigger] b[k]@ == x;
            assert(ab[k + a.len()]@ == x);
        }
    }
    assert(texts(ab) =~= texts(a).union(texts(b)));
    if distinct(a) && distinct(b) && texts(a).disjoint(texts(b)) {
        assert forall|p: int, q: int| 0 <= p < q < ab.len() implies ab[p]@ != ab[q]@ by {
            if p < a.len() && q >= a.len() {
                assert(texts(a).contains(ab[p]@));
                assert(texts(b).contains(b[q - a.len()]@));
            }
        }
    }
}

/// Candidates narrower than `b` allow only solutions that `b` allows.
pub proof fn lemma_narrower_compatible(a: Seq<u16>, b: Seq<u16>, t: Seq<char>)
    requires
        a.len() == 81,
        narrower(a, b),
        compatible(t, a),
    ensures
        compatible(t, b),
{
    assert forall|i: int| 0 <= i < 81 implies #[trigger] cand(b[i], digit_value(t[i])) by {
        assert(cand(a[i], digit_value(t[i])));
    }
}

/// A settled store with every cell resolved allows exactly one solution: its digits.
proof fn lemma_leaf(s: Seq<u16>, t: Seq<char>)
    requires
        settled(s),
        forall|i: int| 0 <= i < 81 ==> #[trigger] count(s[i]) == 1,
        t.len() == 81,
        forall|i: int| 0 <= i < 81 ==> is_digit_char(#[trigger] t[i]),
        compatible(t, s),
    ensures
        is_solution(t),
        solutions_in(s) == set![t],
{
    assert forall|i: int, j: int| #[trigger] peer(i, j) implies t[i] != t[j] by {
        assert(cand(s[i], digit_value(t[i])));
        assert(cand(s[j], digit_value(t[j])));
        assert(clean(s, i));
    }
    assert forall|u: Seq<char>| solutions_in(s).contains(u) <==> u == t by {
        if solutions_in(s).contains(u) {
            assert forall|i: int| 0 <= i < 81 implies u[i] == t[i] by {
                assert(cand(s[i], digit_value(t[i])));
                assert(cand(s[i], digit_value(u[i])));
                lemma_count_one(s[i], digit_value(t[i]), digit_value(u[i]));
                lemma_char_eq(u[i], t[i]);
            }
            assert(u =~= t);
        }
    }
    assert(solutions_in(s) =~= set![t]);
}

/// The first cell with the fewest candidates among those with more than one,
/// or `None` when every cell has at most one.
pub fn select_cell(grid: &CandidateGrid) -> (r: Option<usize>)
    ensures
        r is None ==> forall|i: int| 0 <= i < 81 ==> #[trigger] count(grid@[i]) <= 1,
        r matches Some(c) ==> {
            &&& c < 81
            &&& count(grid@[c as int]) > 1
            &&& forall|i: int|
                0 <= i < 81 && count(#[trigger] grid@[i]) > 1 ==> count(grid@[c as int]) <= count(
                    grid@[i],
                )
            &&& forall|i: int|
                0 <= i < c && count(#[trigger] grid@[i]) > 1 ==> count(grid@[c as int]) < count(
                    grid@[i],
                )
        },
{
    let mut best: Option<usize> = None;
    let mut best_count: u16 = 0;
    let mut i: usize = 0;
    while i < 81
        invariant
            i <= 81,
            grid@.len() == 81,
            best is None ==> forall|x: int| 0 <= x < i ==> #[trigger] count(grid@[x]) <= 1,
            best matches Some(c) ==> {
                &&& c < i
                &&& best_count == count(grid@[c as int])
                &&& count(grid@[c as int]) > 1
                &&& forall|x: int|
                    0 <= x < i && count(#[trigger] grid@[x]) > 1 ==> count(grid@[c as int])
                        <= count(grid@[x])
                &&& forall|x: int|
                    0 <= x < c && count(#[trigger] grid@[x]) > 1 ==> count(grid@[c as int])
                        < count(grid@[x])
            },
        decreases 81 - i,
    {
        let n = count_digits(grid.cells[i]);
        if n > 1 {
            match best {
                None => {
                    best = Some(i);
                    best_count = n;
                },
                Some(_) => {
                    if n < best_count {
                        best = Some(i);
                        best_count = n;
                    }
                },
            }
        }
        i = i + 1;
    }
    best
}

/// The digits that mask `m` allows, ascending.
pub fn candidate_digits(m: u16) -> (r: Vec<u16>)
    ensures
        forall|k: int| 0 <= k < r.len() ==> 1 <= #[trigger] r[k] <= 9 && cand(m, r[k] as int),
        forall|d: int| #[trigger] cand(m, d) ==> r@.contains(d as u16),
        forall|a: int, b: int| 0 <= a < b < r.len() ==> r[a] < r[b],
{
    let mut r: Vec<u16> = Vec::new();
    let mut d: u16 = 1;
    while d <= 9
        invariant
            1 <= d <= 10,
            forall|k: int| 0 <= k < r.len() ==> 1 <= #[trigger] r[k] < d && cand(m, r[k] as int),
            forall|e: int| 1 <= e < d && #[trigger] cand(m, e) ==> r@.contains(e as u16),
            forall|a: int, b: int| 0 <= a < b < r.len() ==> r[a] < r[b],
        decreases 10 - d,
    {
        if has_digit(m, d) {
            let ghost before = r@;
            r.push(d);
            proof {
                assert(r@[r.len() - 1] == d);
                assert forall|e: int| 1 <= e < d && #[trigger] cand(m, e) implies r@.contains(
                    e as u16,
                ) by {
                    let k = choose|k: int| 0 <= k < before.len() && before[k] == e as u16;
                    assert(r@[k] == e as u16);
                }
            }
        }
        d = d + 1;
    }
    r
}

/// The store with cell `c` set to digit `d`, propagated; `None` when that
/// contradicts. The store that comes back allows exactly the solutions of
/// `grid` with `d` in cell `c`, and has fewer candidates.
pub fn branch(
    grid: &CandidateGrid,
    topo: &Topology,
    c: usize,
    d: u16,
) -> (r: Option<CandidateGrid>)
    requires
        topo.wf(),
        settled(grid@),
        c < 81,
        1 <= d <= 9,
        cand(grid@[c as int], d as int),
        count(grid@[c as int]) > 1,
    ensures
        r is None ==> solutions_with(grid@, c as int, d as int) == Set::<Seq<char>>::empty(),
        r matches Some(next) ==> {
            &&& settled(next@)
            &&& total(next@) < total(grid@)
            &&& solutions_in(next@) == solutions_with(grid@, c as int, d as int)
        },
{
    let mut next = *grid;
    next.cells[c] = 1u16 << d;
    let ghost collapsed = next@;
    proof {
        lemma_has_single(d);
        lemma_count_single(d);
        assert forall|x: int| 0 <= x < 81 implies #[trigger] count(collapsed[x]) >= 1 by {
            if x != c {
                assert(collapsed[x] == grid@[x]);
            }
        }
        assert forall|x: int| 0 <= x < 81 implies count(#[trigger] collapsed[x]) <= count(
            grid@[x],
        ) by {
            if x != c {
                assert(collapsed[x] == grid@[x]);
            }
        }
        lemma_total_mono(collapsed, grid@, 81);
        assert(count(collapsed[c as int]) < count(grid@[c as int]));
    }
    let contradiction = not_consistent(&mut next, topo);
    proof {
        // a solution with `d` in cell `c` is exactly one that the collapsed store allows
        assert forall|t: Seq<char>| #[trigger] is_solution(t) implies (compatible(t, collapsed)
            <==> (compatible(t, grid@) && digit_value(t[c as int]) == d)) by {
            if compatible(t, collapsed) {
                assert(cand(collapsed[c as int], digit_value(t[c as int])));
                assert forall|x: int| 0 <= x < 81 implies #[trigger] cand(
                    grid@[x],
                    digit_value(t[x]),
                ) by {
                    assert(cand(collapsed[x], digit_value(t[x])));
                }
            }
            if compatible(t, grid@) && digit_value(t[c as int]) == d {
                assert forall|x: int| 0 <= x < 81 implies #[trigger] cand(
                    collapsed[x],
                    digit_value(t[x]),
                ) by {
                    assert(cand(grid@[x], digit_value(t[x])));
                }
            }
        }
    }
    if contradiction {
        proof {
            assert(solutions_with(grid@, c as int, d as int) =~= Set::<Seq<char>>::empty());
        }
        None
    } else {
        proof {
            assert forall|t: Seq<char>|
                solutions_in(next@).contains(t) <==> solutions_with(
                    grid@,
                    c as int,
                    d as int,
                ).contains(t) by {
                if solutions_in(next@).contains(t) {
                    lemma_narrower_compatible(next@, collapsed, t);
                }
            }
            assert(solutions_in(next@) =~= solutions_with(grid@, c as int, d as int));
        }
        Some(next)
    }
}

/// The single solution of a settled store whose cells are all resolved.
fn emit_leaf(grid: &CandidateGrid) -> (r: Vec<String>)
    requires
        settled(grid@),
        forall|i: int| 0 <= i < 81 ==> #[trigger] count(grid@[i]) <= 1,
    ensures
        texts(r@) == solutions_in(grid@),
        distinct(r@),
{
    proof {
        assert forall|i: int| 0 <= i < 81 implies #[trigger] count(grid@[i]) == 1 by {
            assert(nonempty(grid@));
        }
    }
    let t = sudoku_to_string(grid);
    proof {
        lemma_leaf(grid@, t@);
    }
    let r = vec![t];
    proof {
        assert forall|x: Seq<char>| texts(r@).contains(x) <==> x == t@ by {
            if x == t@ {
                assert(r@[0]@ == x);
            }
        }
        assert(texts(r@) =~= solutions_in(grid@));
    }
    r
}

/// Every solution that a settled store allows, each once, depth first in
/// ascending digit order.
pub fn non_parallel_search(grid: CandidateGrid, topo: &Topology) -> (r: Vec<String>)
    requires
        topo.wf(),
        settled(grid@),
    ensures
        texts(r@) == solutions_in(grid@),
        distinct(r@),
    decreases total(grid@),
{
    match select_cell(&grid) {
        None => emit_leaf(&grid),
        Some(c) => {
            let mut out: Vec<String> = Vec::new();
            let mut d: u16 = 1;
            proof {
                assert(texts(out@) =~= solutions_below(grid@, c as int, 1));
            }
            while d <= 9
                invariant
                    topo.wf(),
                    settled(grid@),
                    c < 81,
                    count(grid@[c as int]) > 1,
                    1 <= d <= 10,
                    texts(out@) == solutions_below(grid@, c as int, d as int),
                    distinct(out@),
                decreases 10 - d,
            {
                let ghost with_d = solutions_with(grid@, c as int, d as int);
                let mut found: Vec<String> = Vec::new();
                if has_digit(grid.cells[c], d) {
                    match branch(&grid, topo, c, d) {
                        Some(next) => {
                            found = non_parallel_search(next, topo);
                        },
                        None => {},
                    }
                } else {
                    proof {
                        assert forall|t: Seq<char>| !#[trigger] with_d.contains(t) by {
                            if with_d.contains(t) {
                                assert(cand(grid@[c as int], digit_value(t[c as int])));
                            }
                        }
                        assert(with_d =~= Set::<Seq<char>>::empty());
                    }
                }
                proof {
                    assert(texts(found@) == with_d) by {
                        if found@.len() == 0 {
                            assert(texts(found@) =~= Set::<Seq<char>>::empty());
                        }
                    }
                }
                let ghost prev = out@;
                let ghost got = found@;
                out.append(&mut found);
                proof {
                    lemma_texts_append(prev, got);
                    assert(texts(prev).disjoint(texts(got)));
                    assert(texts(out@) =~= solutions_below(grid@, c as int, d as int + 1));
                }
                d = d + 1;
            }
            proof {
                assert forall|t: Seq<char>|
                    #[trigger] solutions_in(grid@).contains(t) implies solutions_below(
                    grid@,
                    c as int,
                    10,
                ).contains(t) by {
                    assert(cand(grid@[c as int], digit_value(t[c as int])));
                }
                assert(solutions_below(grid@, c as int, 10) =~= solutions_in(grid@));
            }
            out
        },
    }
}

/// Every solution of a board, each once, found by the sequential search.
pub fn solve_non_parallel(board: &str) -> (r: Vec<String>)
    requires
        is_board(board@),
    ensures
        texts(r@) == solutions_of(board@),
        distinct(r@),
{
    let mut sudoku = initialize_sudoku(board);
    let ghost init = sudoku@;
    let topo = Topology::build_topology();
    let contradiction = not_consistent(&mut sudoku, &topo);
    proof {
        lemma_start(board@, init, sudoku@, contradiction);
    }
    if contradiction {
        return Vec::new();
    }
    non_parallel_search(sudoku, &topo)
}

/// The solutions that `s` allows with one of `digits` in cell `c`.
pub open spec fn solutions_with_any(s: Seq<u16>, c: int, digits: Seq<u16>) -> Set<Seq<char>> {
    Set::new(
        |t: Seq<char>|
            exists|k: int|
                0 <= k < digits.len() && #[trigger] solutions_with(s, c, digits[k] as int).contains(
                    t,
                ),
    )
}

/// Relies on rayon's `par_iter().flat_map(..).collect()`: the collected vector
/// holds every item that the closure returns for some digit of `digits`, and
/// nothing else. The closure calls `explore_branch`, whose contract gives
/// those items.
#[verifier::external_body]
fn par_flat_map_branches(
    grid: &CandidateGrid,
    topo: &Topology,
    c: usize,
    digits: &Vec<u16>,
) -> (r: Vec<String>)
    requires
        topo.wf(),
        settled(grid@),
        c < 81,
        count(grid@[c as int]) > 1,
        forall|k: int|
            0 <= k < digits.len() ==> 1 <= #[trigger] digits[k] <= 9 && cand(
                grid@[c as int],
                digits[k] as int,
            ),
    ensures
        texts(r@) == solutions_with_any(grid@, c as int, digits@),
{
    digits.par_iter().flat_map(|&d| explore_branch(grid, topo, c, d)).collect()
}

/// The solutions of `grid` with digit `d` in cell `c`, searched in parallel.
fn explore_branch(grid: &CandidateGrid, topo: &Topology, c: usize, d: u16) -> (r: Vec<String>)
    requires
        topo.wf(),
        settled(grid@),
        c < 81,
        1 <= d <= 9,
        cand(grid@[c as int], d as int),
        count(grid@[c as int]) > 1,
    ensures
        texts(r@) == solutions_with(grid@, c as int, d as int),
{
    match branch(grid, topo, c, d) {
        Some(next) => search(next, topo),
        None => {
            let r: Vec<String> = Vec::new();
            proof {
                assert(texts(r@) =~= Set::<Seq<char>>::empty());
            }
            r
        },
    }
}

/// Every solution that a settled store allows, with the branches of each
/// node explored in parallel on a work-stealing pool; in no fixed order.
pub fn search(grid: CandidateGrid, topo: &Topology) -> (r: Vec<String>)
    requires
        topo.wf(),
        settled(grid@),
    ensures
        texts(r@) == solutions_in(grid@),
{
    match select_cell(&grid) {
        None => emit_leaf(&grid),
        Some(c) => {
            let digits = candidate_digits(grid.cells[c]);
            let r = par_flat_map_branches(&grid, topo, c, &digits);
            proof {
                assert forall|x: Seq<char>| texts(r@).contains(x) <==> solutions_in(grid@).contains(
                    x,
                ) by {
                    if texts(r@).contains(x) {
                        assert(solutions_with_any(grid@, c as int, digits@).contains(x));
                        let k = choose|k: int|
                            0 <= k < digits.len() && #[trigger] solutions_with(
                                grid@,
                                c as int,
                                digits[k] as int,
                            ).contains(x);
                    }
                    if solutions_in(grid@).contains(x) {
                        let e = digit_value(x[c as int]);
                        assert(cand(grid@[c as int], e));
                        let k = choose|k: int| 0 <= k < digits.len() && digits@[k] == e as u16;
                        assert(solutions_with(grid@, c as int, digits[k] as int).contains(x));
                        assert(solutions_with_any(grid@, c as int, digits@).contains(x));
                    }
                }
                assert(texts(r@) =~= solutions_in(grid@));
            }
            r
        },
    }
}

/// Every solution of a board, found by the parallel search.
pub fn solve_par_rayon(board: &str) -> (r: Vec<String>)
    requires
        is_board(board@),
    ensures
        texts(r@) == solutions_of(board@),
{
    let mut sudoku = initialize_sudoku(board);
    let ghost init = sudoku@;
    let topo = Topology::build_topology();
    let contradiction = not_consistent(&mut sudoku, &topo);
    proof {
        lemma_start(board@, init, sudoku@, contradiction);
    }
    if contradiction {
        return Vec::new();
    }
    search(sudoku, &topo)
}

/// Relies on `rayon::scope`: every task spawned in the scope has finished when
/// `scope` returns, so slot `k` holds what the task for `digits[k]` returned.
/// Each task calls `explore_branch_scoped`, whose contract gives that value.
#[verifier::external_body]
fn scoped_branches(
    grid: &CandidateGrid,
    topo: &Topology,
    c: usize,
    digits: &Vec<u16>,
) -> (r: Vec<Vec<String>>)
    requires
        topo.wf(),
        settled(grid@),
        c < 81,
        count(grid@[c as int]) > 1,
        forall|k: int|
            0 <= k < digits.len() ==> 1 <= #[trigger] digits[k] <= 9 && cand(
                grid@[c as int],
                digits[k] as int,
            ),
    ensures
        r.len() == digits.len(),
        forall|k: int|
            0 <= k < r.len() ==> texts(#[trigger] r[k]@) == solutions_with(
                grid@,
                c as int,
                digits[k] as int,
            ),
        forall|k: int| 0 <= k < r.len() ==> distinct(#[trigger] r[k]@),
{
    let mut slots: Vec<Vec<String>> = digits.iter().map(|_| Vec::new()).collect();
    rayon::scope(|s| {
        for (slot, &d) in slots.iter_mut().zip(digits.iter()) {
            s.spawn(move |_| *slot = explore_branch_scoped(grid, topo, c, d));
        }
    });
    slots
}

/// The solutions of `grid` with digit `d` in cell `c`, each branch a task of its own.
fn explore_branch_scoped(
    grid: &CandidateGrid,
    topo: &Topology,
    c: usize,
    d: u16,
) -> (r: Vec<String>)
    requires
        topo.wf(),
        settled(grid@),
        c < 81,
        1 <= d <= 9,
        cand(grid@[c as int], d as int),
        count(grid@[c as int]) > 1,
    ensures
        texts(r@) == solutions_with(grid@, c as int, d as int),
        distinct(r@),
{
    match branch(grid, topo, c, d) {
        Some(next) => search_scoped(next, topo),
        None => {
            let r: Vec<String> = Vec::new();
            proof {
                assert(texts(r@) =~= Set::<Seq<char>>::empty());
            }
            r
        },
    }
}

/// Every solution that a settled store allows, each once. The branches of a
/// node run as tasks of a fixed pool and are joined before their results are
/// merged in ascending digit order.
pub fn search_scoped(grid: CandidateGrid, topo: &Topology) -> (r: Vec<String>)
    requires
        topo.wf(),
        settled(grid@),
    ensures
        texts(r@) == solutions_in(grid@),
        distinct(r@),
{
    match select_cell(&grid) {
        None => emit_leaf(&grid),
        Some(c) => {
            let digits = candidate_digits(grid.cells[c]);
            let mut slots = scoped_branches(&grid, topo, c, &digits);
            let ghost parts = slots@;
            let mut out: Vec<String> = Vec::new();
            let mut k: usize = 0;
            proof {
                assert(texts(out@) =~= solutions_with_any(grid@, c as int, digits@.subrange(0, 0)));
            }
            while k < digits.len()
                invariant
                    k <= digits.len(),
                    parts.len() == digits.len(),
                    slots@ == parts.subrange(k as int, parts.len() as int),
                    forall|x: int|
                        0 <= x < parts.len() ==> texts(#[trigger] parts[x]@) == solutions_with(
                            grid@,
                            c as int,
                            digits[x] as int,
                        ),
                    forall|x: int| 0 <= x < parts.len() ==> distinct(#[trigger] parts[x]@),
                    forall|a: int, b: int| 0 <= a < b < digits.len() ==> digits[a] < digits[b],
                    texts(out@) == solutions_with_any(grid@, c as int, digits@.subrange(0, k as int)),
                    distinct(out@),
                decreases digits.len() - k,
            {
                let mut part = slots.remove(0);
                assert(part == parts[k as int]);
                let ghost prev = out@;
                let ghost got = part@;
                out.append(&mut part);
                proof {
                    lemma_texts_append(prev, got);
                    assert forall|t: Seq<char>| texts(prev).contains(t) implies !texts(got).contains(t) by {
                        let x = choose|x: int|
                            0 <= x < k && #[trigger] solutions_with(
                                grid@,
                                c as int,
                                digits@.subrange(0, k as int)[x] as int,
                            ).contains(t);
                        assert(digits[x] < digits[k as int]);
                    }
                    assert(texts(prev).disjoint(texts(got)));
                    assert forall|t: Seq<char>| texts(out@).contains(t) <==> solutions_with_any(
                        grid@,
                        c as int,
                        digits@.subrange(0, k as int + 1),
                    ).contains(t) by {
                        if texts(prev).contains(t) {
                            let x = choose|x: int|
                                0 <= x < k && #[trigger] solutions_with(
                                    grid@,
                                    c as int,
                                    digits@.subrange(0, k as int)[x] as int,
                                ).contains(t);
                            assert(digits@.subrange(0, k as int + 1)[x] == digits[x]);
                        }
                        if texts(got).contains(t) {
                            assert(digits@.subrange(0, k as int + 1)[k as int] == digits[k as int]);
                        }
                        if solutions_with_any(grid@, c as int, digits@.subrange(0, k as int + 1)).contains(t) {
                            let x = choose|x: int|
                                0 <= x < k + 1 && #[trigger] solutions_with(
                                    grid@,
                                    c as int,
                                    digits@.subrange(0, k as int + 1)[x] as int,
                                ).contains(t);
                            if x < k {
                                assert(digits@.subrange(0, k as int)[x] == digits[x]);
                                assert(solutions_with_any(grid@, c as int, digits@.subrange(0, k as int)).contains(t));
                            }
                        }
                    }
                    assert(texts(out@) =~= solutions_with_any(grid@, c as int, digits@.subrange(0, k as int + 1)));
                }
                k = k + 1;
            }
            proof {
                assert(digits@.subrange(0, digits.len() as int) =~= digits@);
                assert forall|x: Seq<char>| solutions_in(grid@).contains(x) implies solutions_with_any(
                    grid@,
                    c as int,
                    digits@,
                ).contains(x) by {
                    let e = digit_value(x[c as int]);
                    assert(cand(grid@[c as int], e));
                    let j = choose|j: int| 0 <= j < digits.len() && digits@[j] == e as u16;
                    assert(solutions_with(grid@, c as int, digits[j] as int).contains(x));
                }
                assert(solutions_with_any(grid@, c as int, digits@) =~= solutions_in(grid@));
            }
            out
        },
    }
}

/// Every solution of a board, each once, found by the task-per-branch search.
pub fn solve_par_scoped(board: &str) -> (r: Vec<String>)
    requires
        is_board(board@),
    ensures
        texts(r@) == solutions_of(board@),
        distinct(r@),
{
    let mut sudoku = initialize_sudoku(board);
    let ghost init = sudoku@;
    let topo = Topology::build_topology();
    let contradiction = not_consistent(&mut sudoku, &topo);
    proof {
        lemma_start(board@, init, sudoku@, contradiction);
    }
    if contradiction {
        return Vec::new();
    }
    search_scoped(sudoku, &topo)
}

/// The solutions of a board are those that its propagated store allows, and
/// none when propagation finds a contradiction.
proof fn lemma_start(b: Seq<char>, init: Seq<u16>, s: Seq<u16>, contradiction: bool)
    requires
        init.len() == 81,
        forall|t: Seq<char>| is_solution(t) ==> (compatible(t, init) <==> completes(t, b)),
        narrower(s, init),
        s.len() == 81,
        forall|t: Seq<char>| is_solution(t) && compatible(t, init) ==> compatible(t, s),
        contradiction ==> forall|t: Seq<char>| is_solution(t) ==> !compatible(t, init),
    ensures
        contradiction ==> solutions_of(b) == Set::<Seq<char>>::empty(),
        solutions_in(s) == solutions_of(b),
        texts(Seq::<String>::empty()) == Set::<Seq<char>>::empty(),
        distinct(Seq::<String>::empty()),
{
    assert forall|t: Seq<char>| solutions_in(s).contains(t) <==> solutions_of(b).contains(t) by {
        if solutions_in(s).contains(t) {
            lemma_narrower_compatible(s, init, t);
        }
    }
    assert(solutions_in(s) =~= solutions_of(b));
    assert(texts(Seq::<String>::empty()) =~= Set::<Seq<char>>::empty());
    if contradiction {
        assert(solutions_of(b) =~= Set::<Seq<char>>::empty());
    }
}

} // verus!
