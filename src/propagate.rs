//! Peer elimination to a fixpoint.
use vstd::prelude::*;
use crate::board::{
    clean, compatible, digit_value, is_solution, lemma_total_mono, narrower, nonempty, settled,
    total, CandidateGrid,
};
use crate::candidates::{
    cand, count, count_digits, first_digit, has_digit, lemma_count_one,
    lemma_count_zero, remove_digit, subset,
};
use crate::topology::{peer, Topology};

verus! {

/// Removes the digit of every resolved cell from its peers, pass after pass,
/// until a pass removes nothing. Returns `true` as soon as a cell loses its
/// last candidate: then the store allows no solution.
///
/// Only candidates are removed, and never one that a solution allowed by the
/// store holds. On `false` the store is at the fixpoint; a store already there
/// is left as it is.
pub fn not_consistent(grid: &mut CandidateGrid, topo: &Topology) -> (r: bool)
    requires
        topo.wf(),
        nonempty(old(grid)@),
    ensures
        narrower(final(grid)@, old(grid)@),
        total(final(grid)@) <= total(old(grid)@),
        forall|t: Seq<char>|
            is_solution(t) && compatible(t, old(grid)@) ==> compatible(t, final(grid)@),
        r ==> forall|t: Seq<char>| is_solution(t) ==> !compatible(t, old(grid)@),
        !r ==> settled(final(grid)@),
        settled(old(grid)@) ==> !r && final(grid)@ == old(grid)@,
{
    let ghost s0 = grid@;
    loop
        invariant
            topo.wf(),
            s0 == old(grid)@,
            grid@.len() == 81,
            nonempty(grid@),
            narrower(grid@, s0),
            total(grid@) <= total(s0),
            forall|t: Seq<char>| is_solution(t) && compatible(t, s0) ==> compatible(t, grid@),
            settled(s0) ==> grid@ == s0,
        decreases total(grid@),
    {
        let ghost start = grid@;
        let mut changes = false;
        let mut i: usize = 0;
        while i < 81
            invariant
                topo.wf(),
                s0 == old(grid)@,
                i <= 81,
                grid@.len() == 81,
                nonempty(grid@),
                narrower(grid@, s0),
                narrower(grid@, start),
                total(start) <= total(s0),
                total(grid@) <= total(start),
                changes ==> total(grid@) < total(start),
                !changes ==> grid@ == start,
                !changes ==> forall|x: int| 0 <= x < i ==> #[trigger] clean(grid@, x),
                forall|t: Seq<char>| is_solution(t) && compatible(t, s0) ==> compatible(t, grid@),
                settled(s0) ==> grid@ == s0 && !changes,
            decreases 81 - i,
        {
            let m = grid.cells[i];
            if count_digits(m) == 1 {
                let d = first_digit(m);
                let peers = &topo.peers[i];
                let mut k: usize = 0;
                while k < peers.len()
                    invariant
                        topo.wf(),
                        s0 == old(grid)@,
                        i < 81,
                        1 <= d <= 9,
                        peers@ == topo.peers[i as int]@,
                        k <= peers.len(),
                        grid@.len() == 81,
                        grid@[i as int] == m,
                        count(m) == 1,
                        cand(m, d as int),
                        nonempty(grid@),
                        narrower(grid@, s0),
                        narrower(grid@, start),
                        total(start) <= total(s0),
                        total(grid@) <= total(start),
                        changes ==> total(grid@) < total(start),
                        !changes ==> grid@ == start,
                        !changes ==> forall|x: int| 0 <= x < i ==> #[trigger] clean(grid@, x),
                        !changes ==> forall|a: int|
                            0 <= a < k ==> !#[trigger] cand(grid@[peers[a] as int], d as int),
                        forall|t: Seq<char>|
                            is_solution(t) && compatible(t, s0) ==> compatible(t, grid@),
                        settled(s0) ==> grid@ == s0 && !changes,
                    decreases peers.len() - k,
                {
                    let j = peers[k];
                    assert(peer(i as int, j as int));
                    let mj = grid.cells[j];
                    if has_digit(mj, d) {
                        proof {
                            if settled(s0) {
                                assert(clean(s0, i as int));
                            }
                        }
                        let nm = remove_digit(mj, d);
                        let ghost before = grid@;
                        grid.cells[j] = nm;
                        proof {
                            lemma_remove_step(before, grid@, s0, start, i as int, j as int, d as int);
                        }
                        changes = true;
                        if count_digits(nm) == 0 {
                            proof {
                                lemma_count_zero(nm, 10);
                                assert forall|t: Seq<char>| is_solution(t) implies !compatible(
                                    t,
                                    s0,
                                ) by {
                                    if compatible(t, s0) {
                                        assert(cand(grid@[j as int], digit_value(t[j as int])));
                                    }
                                }
                                assert(total(grid@) <= total(s0));
                            }
                            return true;
                        }
                        proof {
                            assert forall|x: int| 0 <= x < 81 implies #[trigger] count(grid@[x])
                                >= 1 by {
                                if x != j {
                                    assert(grid@[x] == before[x]);
                                }
                            }
                        }
                    }
                    k = k + 1;
                }
                proof {
                    if !changes {
                        assert forall|e: int, x: int|
                            count(grid@[i as int]) == 1 && cand(grid@[i as int], e) && #[trigger] peer(
                                i as int,
                                x,
                            ) implies !#[trigger] cand(grid@[x], e) by {
                            lemma_count_one(m, d as int, e);
                            assert(topo.peers[i as int]@.contains(x as usize));
                            let a = choose|a: int| 0 <= a < peers.len() && peers@[a] == x as usize;
                            assert(!cand(grid@[peers[a] as int], d as int));
                        }
                        assert(clean(grid@, i as int));
                    }
                }
            }
            i = i + 1;
        }
        if !changes {
            return false;
        }
    }
}

/// One removal of digit `d` from cell `j`, a peer of cell `i` resolved to `d`,
/// keeps every fact that propagation maintains.
proof fn lemma_remove_step(
    before: Seq<u16>,
    after: Seq<u16>,
    s0: Seq<u16>,
    start: Seq<u16>,
    i: int,
    j: int,
    d: int,
)
    requires
        before.len() == 81,
        peer(i, j),
        count(before[i]) == 1,
        cand(before[i], d),
        cand(before[j], d),
        after == before.update(j, after[j]),
        forall|e: int| #[trigger] cand(after[j], e) == (cand(before[j], e) && e != d),
        count(after[j]) + 1 == count(before[j]),
        narrower(before, s0),
        narrower(before, start),
        total(before) <= total(start),
        forall|t: Seq<char>| is_solution(t) && compatible(t, s0) ==> compatible(t, before),
    ensures
        narrower(after, s0),
        narrower(after, start),
        total(after) < total(before),
        forall|t: Seq<char>| is_solution(t) && compatible(t, s0) ==> compatible(t, after),
{
    assert forall|x: int| 0 <= x < 81 implies subset(#[trigger] after[x], s0[x]) by {
        assert(subset(before[x], s0[x]));
    }
    assert forall|x: int| 0 <= x < 81 implies subset(#[trigger] after[x], start[x]) by {
        assert(subset(before[x], start[x]));
    }
    assert forall|x: int| 0 <= x < 81 implies count(#[trigger] after[x]) <= count(before[x]) by {}
    assert(count(after[j]) < count(before[j]));
    lemma_total_mono(after, before, 81);
    assert forall|t: Seq<char>| is_solution(t) && compatible(t, s0) implies compatible(t, after) by {
        assert(compatible(t, before));
        assert(cand(before[i], digit_value(t[i])));
        lemma_count_one(before[i], d, digit_value(t[i]));
        assert(t[i] != t[j]);
        assert(cand(before[j], digit_value(t[j])));
        assert forall|x: int| 0 <= x < 81 implies #[trigger] cand(after[x], digit_value(t[x])) by {
            assert(cand(before[x], digit_value(t[x])));
        }
    }
}

} // verus!
