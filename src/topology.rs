//! The fixed structure of the grid: cells `0..81` in row-major order, their
//! units (row, column, box) and their peers.
use vstd::prelude::*;
use vstd::string::*;

verus! {

/// Cell `j` lies in unit `kind` of cell `i`: its row (0), column (1) or box (2).
pub open spec fn in_unit(kind: int, i: int, j: int) -> bool {
    if kind == 0 {
        i / 9 == j / 9
    } else if kind == 1 {
        i % 9 == j % 9
    } else {
        i / 27 == j / 27 && (i % 9) / 3 == (j % 9) / 3
    }
}

/// Two distinct cells that share a unit.
pub open spec fn peer(i: int, j: int) -> bool {
    0 <= i < 81 && 0 <= j < 81 && i != j && (in_unit(0, i, j) || in_unit(1, i, j) || in_unit(
        2,
        i,
        j,
    ))
}

/// Strictly increasing cell indices.
pub open spec fn increasing(s: Seq<usize>) -> bool {
    forall|a: int, b: int| 0 <= a < b < s.len() ==> s[a] < s[b]
}

fn same_unit(kind: usize, i: usize, j: usize) -> (r: bool)
    requires
        kind < 3,
    ensures
        r == in_unit(kind as int, i as int, j as int),
{
    if kind == 0 {
        i / 9 == j / 9
    } else if kind == 1 {
        i % 9 == j % 9
    } else {
        i / 27 == j / 27 && (i % 9) / 3 == (j % 9) / 3
    }
}

/// The cells of unit `kind` of cell `i`, in grid order.
pub fn unit_cells(kind: usize, i: usize) -> (r: Vec<usize>)
    requires
        kind < 3,
    ensures
        forall|j: usize| r@.contains(j) <==> j < 81 && in_unit(kind as int, i as int, j as int),
        forall|a: int| 0 <= a < r.len() ==> r[a] < 81,
        increasing(r@),
{
    let mut r: Vec<usize> = Vec::new();
    let mut j: usize = 0;
    while j < 81
        invariant
            j <= 81,
            kind < 3,
            forall|x: usize| r@.contains(x) <==> x < j && in_unit(kind as int, i as int, x as int),
            forall|a: int| 0 <= a < r.len() ==> r[a] < j,
            increasing(r@),
        decreases 81 - j,
    {
        let ghost before = r@;
        if same_unit(kind, i, j) {
            r.push(j);
            assert(r@[r.len() - 1] == j);
        }
        proof {
            assert forall|x: usize|
                r@.contains(x) <==> x < j + 1 && in_unit(kind as int, i as int, x as int) by {
                if before.contains(x) {
                    let a = choose|a: int| 0 <= a < before.len() && before[a] == x;
                    assert(r@[a] == x);
                }
                if r@.contains(x) && x != j {
                    let a = choose|a: int| 0 <= a < r@.len() && r@[a] == x;
                    assert(a < before.len());
                    assert(before.contains(x));
                }
            }
        }
        j = j + 1;
    }
    r
}

/// For each cell its three units: row, column and box.
pub fn get_units() -> (r: Vec<Vec<Vec<usize>>>)
    ensures
        r.len() == 81,
        forall|i: int| 0 <= i < 81 ==> #[trigger] r[i].len() == 3,
        forall|i: int, k: int, j: usize|
            0 <= i < 81 && 0 <= k < 3 ==> (#[trigger] r[i][k]@.contains(j) <==> j < 81 && in_unit(
                k,
                i,
                j as int,
            )),
        forall|i: int, k: int, a: int|
            0 <= i < 81 && 0 <= k < 3 && 0 <= a < r[i][k].len() ==> #[trigger] r[i][k][a] < 81,
        forall|i: int, k: int| 0 <= i < 81 && 0 <= k < 3 ==> increasing(#[trigger] r[i][k]@),
{
    let mut r: Vec<Vec<Vec<usize>>> = Vec::new();
    let mut i: usize = 0;
    while i < 81
        invariant
            i <= 81,
            r.len() == i,
            forall|x: int| 0 <= x < i ==> #[trigger] r[x].len() == 3,
            forall|x: int, k: int, j: usize|
                0 <= x < i && 0 <= k < 3 ==> (#[trigger] r[x][k]@.contains(j) <==> j < 81 && in_unit(
                    k,
                    x,
                    j as int,
                )),
            forall|x: int, k: int, a: int|
                0 <= x < i && 0 <= k < 3 && 0 <= a < r[x][k].len() ==> #[trigger] r[x][k][a] < 81,
            forall|x: int, k: int| 0 <= x < i && 0 <= k < 3 ==> increasing(#[trigger] r[x][k]@),
        decreases 81 - i,
    {
        let row = unit_cells(0, i);
        let col = unit_cells(1, i);
        let bx = unit_cells(2, i);
        let units = vec![row, col, bx];
        r.push(units);
        i = i + 1;
    }
    r
}

/// For each cell its peers, each once: the cells of its units but itself.
pub fn get_peers() -> (r: Vec<Vec<usize>>)
    ensures
        r.len() == 81,
        forall|i: int, j: usize| 0 <= i < 81 ==> (#[trigger] r[i]@.contains(j) <==> peer(i, j as int)),
        forall|i: int, a: int| 0 <= i < 81 && 0 <= a < r[i].len() ==> peer(i, #[trigger] r[i][a] as int),
        forall|i: int| 0 <= i < 81 ==> (#[trigger] r[i]@).no_duplicates(),
{
    let units = get_units();
    let mut r: Vec<Vec<usize>> = Vec::new();
    let mut i: usize = 0;
    while i < 81
        invariant
            i <= 81,
            r.len() == i,
            units.len() == 81,
            forall|x: int| 0 <= x < 81 ==> #[trigger] units[x].len() == 3,
            forall|x: int, k: int, j: usize|
                0 <= x < 81 && 0 <= k < 3 ==> (#[trigger] units[x][k]@.contains(j) <==> j < 81
                    && in_unit(k, x, j as int)),
            forall|x: int, k: int, a: int|
                0 <= x < 81 && 0 <= k < 3 && 0 <= a < units[x][k].len() ==> #[trigger] units[x][k][a]
                    < 81,
            forall|x: int, j: usize| 0 <= x < i ==> (#[trigger] r[x]@.contains(j) <==> peer(x, j as int)),
            forall|x: int, a: int| 0 <= x < i && 0 <= a < r[x].len() ==> peer(x, #[trigger] r[x][a] as int),
            forall|x: int| 0 <= x < i ==> (#[trigger] r[x]@).no_duplicates(),
        decreases 81 - i,
    {
        let mut set: Vec<usize> = Vec::new();
        let mut k: usize = 0;
        while k < 3
            invariant
                i < 81,
                k <= 3,
                units.len() == 81,
                forall|x: int| 0 <= x < 81 ==> #[trigger] units[x].len() == 3,
                forall|x: int, kk: int, j: usize|
                    0 <= x < 81 && 0 <= kk < 3 ==> (#[trigger] units[x][kk]@.contains(j) <==> j < 81
                        && in_unit(kk, x, j as int)),
                forall|x: int, kk: int, a: int|
                    0 <= x < 81 && 0 <= kk < 3 && 0 <= a < units[x][kk].len() ==> #[trigger] units[x][kk][a]
                        < 81,
                forall|j: usize|
                    #[trigger] set@.contains(j) <==> (j < 81 && j != i && exists|kk: int|
                        0 <= kk < k && #[trigger] in_unit(kk, i as int, j as int)),
                forall|a: int| 0 <= a < set.len() ==> peer(i as int, #[trigger] set[a] as int),
                set@.no_duplicates(),
            decreases 3 - k,
        {
            assert(units[i as int].len() == 3);
            let unit = &units[i][k];
            let mut m: usize = 0;
            while m < unit.len()
                invariant
                    i < 81,
                    k < 3,
                    m <= unit.len(),
                    unit@ == units[i as int][k as int]@,
                    forall|j: usize| unit@.contains(j) <==> j < 81 && in_unit(k as int, i as int, j as int),
                    forall|a: int| 0 <= a < unit.len() ==> #[trigger] unit[a] < 81,
                    forall|j: usize|
                        #[trigger] set@.contains(j) <==> (j < 81 && j != i && ((exists|kk: int|
                            0 <= kk < k && #[trigger] in_unit(kk, i as int, j as int)) || (exists|a: int|
                            0 <= a < m && #[trigger] unit[a] == j))),
                    forall|a: int| 0 <= a < set.len() ==> peer(i as int, #[trigger] set[a] as int),
                    set@.no_duplicates(),
                decreases unit.len() - m,
            {
                let sq = unit[m];
                let ghost before = set@;
                if sq != i && !contains(&set, sq) {
                    assert(unit@.contains(sq));
                    set.push(sq);
                }
                proof {
                    assert(unit@[m as int] == sq);
                    assert forall|j: usize|
                        #[trigger] set@.contains(j) <==> (j < 81 && j != i && ((exists|kk: int|
                            0 <= kk < k && #[trigger] in_unit(kk, i as int, j as int)) || (exists|a: int|
                            0 <= a < m + 1 && #[trigger] unit[a] == j))) by {
                        if set@.contains(j) && j != sq {
                            if set@ != before {
                                let x = choose|x: int| 0 <= x < set@.len() && set@[x] == j;
                                assert(x < before.len());
                            }
                            assert(before.contains(j));
                        }
                        if before.contains(j) {
                            let x = choose|x: int| 0 <= x < before.len() && before[x] == j;
                            assert(set@[x] == j);
                        }
                        if j == sq && set@ != before {
                            assert(set@[set.len() - 1] == j);
                        }
                        if exists|a: int| 0 <= a < m && #[trigger] unit[a] == j {
                            let a = choose|a: int| 0 <= a < m && #[trigger] unit[a] == j;
                            assert(0 <= a < m + 1 && unit[a] == j);
                        }
                        if exists|a: int| 0 <= a < m + 1 && #[trigger] unit[a] == j {
                            let a = choose|a: int| 0 <= a < m + 1 && #[trigger] unit[a] == j;
                            if a < m {
                                assert(0 <= a < m && unit[a] == j);
                            }
                        }
                    }
                }
                m = m + 1;
            }
            proof {
                assert forall|j: usize|
                    #[trigger] set@.contains(j) <==> (j < 81 && j != i && exists|kk: int|
                        0 <= kk < k + 1 && #[trigger] in_unit(kk, i as int, j as int)) by {
                    if j < 81 && j != i && in_unit(k as int, i as int, j as int) {
                        assert(unit@.contains(j));
                        let a = choose|a: int| 0 <= a < unit.len() && unit@[a] == j;
                        assert(0 <= a < m && unit[a] == j);
                    }
                    if exists|a: int| 0 <= a < m && #[trigger] unit[a] == j {
                        let a = choose|a: int| 0 <= a < m && #[trigger] unit[a] == j;
                        assert(unit@.contains(unit@[a]));
                        assert(in_unit(k as int, i as int, j as int));
                    }
                }
            }
            k = k + 1;
        }
        proof {
            assert forall|j: usize| #[trigger] set@.contains(j) <==> peer(i as int, j as int) by {
                if peer(i as int, j as int) {
                    if in_unit(0, i as int, j as int) {
                    } else if in_unit(1, i as int, j as int) {
                    } else {
                        assert(in_unit(2, i as int, j as int));
                    }
                }
            }
        }
        r.push(set);
        i = i + 1;
    }
    r
}

fn contains(v: &Vec<usize>, x: usize) -> (r: bool)
    ensures
        r == v@.contains(x),
{
    let mut a: usize = 0;
    while a < v.len()
        invariant
            a <= v.len(),
            forall|b: int| 0 <= b < a ==> v[b] != x,
        decreases v.len() - a,
    {
        if v[a] == x {
            return true;
        }
        a = a + 1;
    }
    false
}

/// Every name made of one character of `a` followed by one of `b`, in order.
pub fn cross(a: &str, b: &str) -> (r: Vec<String>)
    ensures
        r@.len() == a@.len() * b@.len(),
        forall|x: int, y: int|
            0 <= x < a@.len() && 0 <= y < b@.len() ==> #[trigger] r@[x * b@.len() + y]@ == seq![
                a@[x],
                b@[y],
            ],
{
    let na = a.unicode_len();
    let nb = b.unicode_len();
    let mut r: Vec<String> = Vec::new();
    let mut x: usize = 0;
    while x < na
        invariant
            na == a@.len(),
            nb == b@.len(),
            x <= na,
            r@.len() == x * nb,
            forall|x1: int, y1: int|
                0 <= x1 < x && 0 <= y1 < nb ==> #[trigger] r@[x1 * nb + y1]@ == seq![a@[x1], b@[y1]],
        decreases na - x,
    {
        let mut y: usize = 0;
        let ghost done = r@;
        while y < nb
            invariant
                na == a@.len(),
                nb == b@.len(),
                x < na,
                y <= nb,
                r@.len() == x * nb + y,
                r@.subrange(0, x * nb) == done,
                done.len() == x * nb,
                forall|x1: int, y1: int|
                    0 <= x1 < x && 0 <= y1 < nb ==> #[trigger] done[x1 * nb + y1]@ == seq![
                        a@[x1],
                        b@[y1],
                    ],
                forall|y1: int| 0 <= y1 < y ==> #[trigger] r@[x * nb + y1]@ == seq![a@[x as int], b@[y1]],
            decreases nb - y,
        {
            let name = String::from_str(a.substring_char(x, x + 1)).concat(b.substring_char(y, y + 1));
            assert(name@ =~= seq![a@[x as int], b@[y as int]]);
            let ghost before = r@;
            r.push(name);
            assert(r@.subrange(0, x * nb) =~= before.subrange(0, x * nb));
            y = y + 1;
        }
        proof {
            assert forall|x1: int, y1: int|
                0 <= x1 < x + 1 && 0 <= y1 < nb implies #[trigger] r@[x1 * nb + y1]@ == seq![
                a@[x1],
                b@[y1],
            ] by {
                if x1 < x {
                    assert(x1 * nb + y1 < x * nb) by (nonlinear_arith)
                        requires
                            x1 < x,
                            y1 < nb,
                    ;
                    assert(r@.subrange(0, x * nb)[x1 * nb + y1] == r@[x1 * nb + y1]);
                } else {
                    assert(x1 * nb + y1 == x * nb + y1);
                }
            }
            assert((x + 1) * nb == x * nb + nb) by (nonlinear_arith);
        }
        x = x + 1;
    }
    r
}

/// The names of the 81 cells in grid order: row letter A to I, then column digit 1 to 9.
pub fn get_squares() -> (r: Vec<String>)
    ensures
        r@.len() == 81,
        forall|i: int|
            0 <= i < 81 ==> #[trigger] r@[i]@ == seq![
                "ABCDEFGHI"@[i / 9],
                "123456789"@[i % 9],
            ],
{
    proof {
        reveal_strlit("ABCDEFGHI");
        reveal_strlit("123456789");
    }
    let r = cross("ABCDEFGHI", "123456789");
    proof {
        assert forall|i: int| 0 <= i < 81 implies #[trigger] r@[i]@ == seq![
            "ABCDEFGHI"@[i / 9],
            "123456789"@[i % 9],
        ] by {
            assert(i == (i / 9) * 9 + i % 9);
            assert(r@[(i / 9) * 9 + i % 9]@ == seq!["ABCDEFGHI"@[i / 9], "123456789"@[i % 9]]);
        }
    }
    r
}

/// The grid's cell names, units and peers, computed once and shared by every
/// branch of a search.
pub struct Topology {
    pub squares: Vec<String>,
    pub units: Vec<Vec<Vec<usize>>>,
    pub peers: Vec<Vec<usize>>,
}

impl Topology {
    /// The cells are named in grid order; each cell's three units hold exactly
    /// its row, column and box, in grid order; the peer lists are exactly the
    /// peers of each cell.
    pub open spec fn wf(&self) -> bool {
        &&& self.squares@.len() == 81
        &&& forall|i: int|
            0 <= i < 81 ==> #[trigger] self.squares@[i]@ == seq![
                "ABCDEFGHI"@[i / 9],
                "123456789"@[i % 9],
            ]
        &&& self.units.len() == 81
        &&& forall|i: int| 0 <= i < 81 ==> #[trigger] self.units[i].len() == 3
        &&& forall|i: int, k: int, j: usize|
            0 <= i < 81 && 0 <= k < 3 ==> (#[trigger] self.units[i][k]@.contains(j) <==> j < 81
                && in_unit(k, i, j as int))
        &&& forall|i: int, k: int| 0 <= i < 81 && 0 <= k < 3 ==> increasing(#[trigger] self.units[i][k]@)
        &&& self.peers.len() == 81
        &&& forall|i: int, j: usize|
            0 <= i < 81 ==> (#[trigger] self.peers[i]@.contains(j) <==> peer(i, j as int))
        &&& forall|i: int, a: int|
            0 <= i < 81 && 0 <= a < self.peers[i].len() ==> peer(i, #[trigger] self.peers[i][a] as int)
    }

    pub fn build_topology() -> (r: Topology)
        ensures
            r.wf(),
    {
        Topology { squares: get_squares(), units: get_units(), peers: get_peers() }
    }
}

} // verus!
