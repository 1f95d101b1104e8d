use vstd::arithmetic::div_mod::{lemma_fundamental_div_mod, lemma_fundamental_div_mod_converse};
use vstd::prelude::*;

verus! {

/// A position given as exact integers: `(row, column)`.
pub open spec fn pos(p: (usize, usize)) -> (int, int) {
    (p.0 as int, p.1 as int)
}

/// Two positions are adjacent when each coordinate differs by at most one.
/// Every position is adjacent to itself.
pub open spec fn adjacent(p: (int, int), q: (int, int)) -> bool {
    -1 <= p.0 - q.0 <= 1 && -1 <= p.1 - q.1 <= 1
}

/// `p` comes strictly before `q` in row-major order.
pub open spec fn before(p: (int, int), q: (int, int)) -> bool {
    p.0 < q.0 || (p.0 == q.0 && p.1 < q.1)
}

/// The positions of `s` are strictly increasing in row-major order.
pub open spec fn row_major(s: Seq<(usize, usize)>) -> bool {
    forall|i: int, j: int| 0 <= i < j < s.len() ==> before(pos(#[trigger] s[i]), pos(#[trigger] s[j]))
}

/// The exact positions of a sequence of grid coordinates.
pub open spec fn positions(s: Seq<(usize, usize)>) -> Seq<(int, int)> {
    s.map_values(|x: (usize, usize)| pos(x))
}

/// Number of entries of `s` that belong to `m`.
pub open spec fn count_in(s: Seq<(int, int)>, m: Set<(int, int)>) -> nat
    decreases s.len(),
{
    if s.len() == 0 {
        0
    } else {
        count_in(s.drop_last(), m) + if m.contains(s.last()) {
            1nat
        } else {
            0nat
        }
    }
}

/// For a sequence without repeats, counting its entries in `m` is the size of
/// the overlap of its set of entries with `m`.
pub proof fn lemma_count_in(s: Seq<(int, int)>, m: Set<(int, int)>)
    requires
        s.no_duplicates(),
    ensures
        s.to_set().intersect(m).finite(),
        count_in(s, m) == s.to_set().intersect(m).len(),
    decreases s.len(),
{
    if s.len() == 0 {
        assert(s.to_set() =~= Set::empty());
        assert(s.to_set().intersect(m) =~= Set::empty());
    } else {
        let t = s.drop_last();
        let x = s.last();
        assert(t.no_duplicates()) by {
            assert forall|i: int, j: int| 0 <= i < t.len() && 0 <= j < t.len() && i != j implies t[i] != t[j] by {
                assert(t[i] == s[i] && t[j] == s[j]);
            }
        }
        lemma_count_in(t, m);
        assert(s.to_set() =~= t.to_set().insert(x)) by {
            assert forall|q: (int, int)| s.to_set().contains(q) <==> t.to_set().insert(x).contains(q) by {
                if s.contains(q) {
                    let i = choose|i: int| 0 <= i < s.len() && s[i] == q;
                    if i < s.len() - 1 {
                        assert(t[i] == q);
                    }
                }
                if t.contains(q) {
                    let i = choose|i: int| 0 <= i < t.len() && t[i] == q;
                    assert(s[i] == q);
                }
                if q == x {
                    assert(s[s.len() - 1] == q);
                }
            }
        }
        assert(!t.to_set().contains(x)) by {
            if t.contains(x) {
                let i = choose|i: int| 0 <= i < t.len() && t[i] == x;
                assert(s[i] == s[s.len() - 1]);
            }
        }
        if m.contains(x) {
            assert(s.to_set().intersect(m) =~= t.to_set().intersect(m).insert(x));
        } else {
            assert(s.to_set().intersect(m) =~= t.to_set().intersect(m));
        }
    }
}

/// The fixed rectangular extent of a grid.
#[derive(Default, Copy, Clone, Debug)]
pub struct Shape {
    pub nrows: usize,
    pub ncols: usize,
}

impl Shape {
    /// Both extents are positive and the number of cells fits in `usize`.
    pub open spec fn valid(self) -> bool {
        self.nrows > 0 && self.ncols > 0 && self.nrows * self.ncols <= usize::MAX
    }

    pub open spec fn size(self) -> int {
        self.nrows * self.ncols
    }

    pub open spec fn contains(self, p: (int, int)) -> bool {
        0 <= p.0 < self.nrows && 0 <= p.1 < self.ncols
    }

    /// Row-major index of a position.
    pub open spec fn index_of(self, p: (int, int)) -> int {
        p.0 * self.ncols + p.1
    }

    /// The position stored at a row-major index.
    pub open spec fn pos_at(self, k: int) -> (int, int) {
        (k / self.ncols as int, k % self.ncols as int)
    }

    /// `q` lies in the grid and in the 3x3 block centred on `p` (`p` itself included).
    pub open spec fn is_neighbour(self, p: (int, int), q: (int, int)) -> bool {
        self.contains(q) && adjacent(p, q)
    }

    /// The neighbourhood of `p`: the 3x3 block around it, clipped to the grid.
    pub open spec fn neighbourhood(self, p: (int, int)) -> Set<(int, int)> {
        Set::new(|q: (int, int)| self.is_neighbour(p, q))
    }

    /// All positions of the grid.
    pub open spec fn all(self) -> Set<(int, int)> {
        Set::new(|q: (int, int)| self.contains(q))
    }

    /// All positions of the grid in row-major order.
    pub open spec fn grid_seq(self) -> Seq<(int, int)> {
        Seq::new(self.size() as nat, |k: int| self.pos_at(k))
    }

    pub proof fn lemma_grid_seq(self)
        requires
            self.valid(),
        ensures
            self.grid_seq().no_duplicates(),
            self.grid_seq().to_set() == self.all(),
            self.all().finite(),
            self.all().len() == self.size(),
    {
        let g = self.grid_seq();
        assert forall|i: int, j: int| 0 <= i < g.len() && 0 <= j < g.len() && i != j implies g[i] != g[j] by {
            self.lemma_pos(i);
            self.lemma_pos(j);
        }
        assert forall|q: (int, int)| g.to_set().contains(q) <==> self.all().contains(q) by {
            if self.contains(q) {
                self.lemma_index(q);
                assert(g[self.index_of(q)] == q);
            }
            if g.contains(q) {
                let i = choose|i: int| 0 <= i < g.len() && g[i] == q;
                self.lemma_pos(i);
            }
        }
        assert(g.to_set() =~= self.all());
        g.unique_seq_to_set();
    }

    /// Facts about a row-major listing of a neighbourhood, as `neighbours` returns it.
    pub proof fn lemma_neighbour_list(self, p: (int, int), s: Seq<(usize, usize)>)
        requires
            row_major(s),
            forall|i: int| 0 <= i < s.len() ==> self.is_neighbour(p, pos(#[trigger] s[i])),
            forall|q: (int, int)| #[trigger] self.is_neighbour(p, q)
                ==> exists|i: int| 0 <= i < s.len() && pos(s[i]) == q,
        ensures
            positions(s).no_duplicates(),
            positions(s).to_set() == self.neighbourhood(p),
    {
        let t = positions(s);
        assert forall|i: int, j: int| 0 <= i < t.len() && 0 <= j < t.len() && i != j implies t[i] != t[j] by {
            if i < j {
                assert(before(pos(s[i]), pos(s[j])));
            } else {
                assert(before(pos(s[j]), pos(s[i])));
            }
        }
        assert forall|q: (int, int)| t.to_set().contains(q) <==> self.neighbourhood(p).contains(q) by {
            if self.is_neighbour(p, q) {
                let i = choose|i: int| 0 <= i < s.len() && pos(s[i]) == q;
                assert(t[i] == q);
            }
            if t.contains(q) {
                let i = choose|i: int| 0 <= i < t.len() && t[i] == q;
                assert(pos(s[i]) == q);
            }
        }
        assert(t.to_set() =~= self.neighbourhood(p));
    }

    /// A neighbourhood holds at most nine positions.
    pub proof fn lemma_neighbourhood_size(self, p: (int, int))
        ensures
            self.neighbourhood(p).finite(),
            self.neighbourhood(p).len() <= 9,
    {
        let (r, c) = p;
        let row0 = Set::empty().insert((r - 1, c - 1)).insert((r - 1, c)).insert((r - 1, c + 1));
        let row1 = row0.insert((r, c - 1)).insert((r, c)).insert((r, c + 1));
        let block = row1.insert((r + 1, c - 1)).insert((r + 1, c)).insert((r + 1, c + 1));
        assert(row0.len() <= 3);
        assert(row1.len() <= 6);
        assert(block.len() <= 9);
        assert(self.neighbourhood(p).subset_of(block));
        vstd::set_lib::lemma_len_subset(self.neighbourhood(p), block);
    }

    pub proof fn lemma_index(self, p: (int, int))
        requires
            self.ncols > 0,
            self.contains(p),
        ensures
            0 <= self.index_of(p) < self.size(),
            self.pos_at(self.index_of(p)) == p,
    {
        let n = self.ncols as int;
        let k = p.0 * n + p.1;
        lemma_fundamental_div_mod_converse(k, n, p.0, p.1);
        assert(0 <= k < self.nrows * n) by (nonlinear_arith)
            requires
                0 <= p.0 < self.nrows,
                0 <= p.1 < n,
                k == p.0 * n + p.1,
        ;
    }

    pub proof fn lemma_pos(self, k: int)
        requires
            self.ncols > 0,
            0 <= k < self.size(),
        ensures
            self.contains(self.pos_at(k)),
            self.index_of(self.pos_at(k)) == k,
    {
        let n = self.ncols as int;
        lemma_fundamental_div_mod(k, n);
        let q = k / n;
        let r = k % n;
        assert(0 <= r < n && 0 <= q < self.nrows) by (nonlinear_arith)
            requires
                k == n * q + r,
                n > 0,
                0 <= k < self.nrows * n,
                r == k % n,
                q == k / n,
        ;
        assert(q * n == n * q) by (nonlinear_arith);
    }

    /// Number of cells.
    pub fn ncells(&self) -> (r: usize)
        requires
            self.nrows * self.ncols <= usize::MAX,
        ensures
            r == self.size(),
    {
        self.nrows * self.ncols
    }

    /// Row-major index of an in-bounds position.
    pub(crate) fn idx(&self, irow: usize, icol: usize) -> (r: usize)
        requires
            self.valid(),
            irow < self.nrows,
            icol < self.ncols,
        ensures
            r == self.index_of(pos((irow, icol))),
            r < self.size(),
            self.pos_at(r as int) == pos((irow, icol)),
    {
        proof {
            self.lemma_index(pos((irow, icol)));
        }
        irow * self.ncols + icol
    }

    /// Every position of the grid, in row-major order.
    pub fn cells(&self) -> (r: Vec<(usize, usize)>)
        requires
            self.valid(),
        ensures
            r@.len() == self.size(),
            forall|k: int| 0 <= k < r@.len() ==> pos(#[trigger] r@[k]) == self.pos_at(k),
    {
        let mut r: Vec<(usize, usize)> = Vec::new();
        let mut ir: usize = 0;
        while ir < self.nrows
            invariant
                self.valid(),
                ir <= self.nrows,
                r@.len() == ir * self.ncols,
                forall|k: int| 0 <= k < r@.len() ==> pos(#[trigger] r@[k]) == self.pos_at(k),
            decreases self.nrows - ir,
        {
            let mut ic: usize = 0;
            while ic < self.ncols
                invariant
                    self.valid(),
                    ir < self.nrows,
                    ic <= self.ncols,
                    r@.len() == ir * self.ncols + ic,
                    forall|k: int| 0 <= k < r@.len() ==> pos(#[trigger] r@[k]) == self.pos_at(k),
                decreases self.ncols - ic,
            {
                proof {
                    self.lemma_index((ir as int, ic as int));
                }
                r.push((ir, ic));
                ic = ic + 1;
            }
            assert((ir + 1) * self.ncols == ir * self.ncols + self.ncols) by (nonlinear_arith);
            ir = ir + 1;
        }
        r
    }

    /// The neighbourhood of an in-bounds position (the position itself included),
    /// in row-major order.
    pub fn neighbours(&self, irow: usize, icol: usize) -> (r: Vec<(usize, usize)>)
        requires
            irow < self.nrows,
            icol < self.ncols,
        ensures
            row_major(r@),
            r@.len() <= 9,
            forall|i: int| 0 <= i < r@.len() ==> self.is_neighbour(pos((irow, icol)), pos(#[trigger] r@[i])),
            forall|q: (int, int)| #[trigger] self.is_neighbour(pos((irow, icol)), q)
                ==> exists|i: int| 0 <= i < r@.len() && pos(r@[i]) == q,
    {
        let ghost p = pos((irow, icol));
        let rlo = irow.saturating_sub(1);
        let rhi = if irow + 1 < self.nrows { irow + 1 } else { self.nrows - 1 };
        let clo = icol.saturating_sub(1);
        let chi = if icol + 1 < self.ncols { icol + 1 } else { self.ncols - 1 };
        let mut r: Vec<(usize, usize)> = Vec::new();
        let mut ir: usize = rlo;
        while ir <= rhi
            invariant
                rlo <= ir <= rhi + 1,
                rhi < self.nrows,
                clo <= chi < self.ncols,
                rlo as int == if irow == 0 { 0 } else { irow - 1 },
                rhi as int == if irow + 1 < self.nrows { irow + 1 } else { self.nrows - 1 },
                clo as int == if icol == 0 { 0 } else { icol - 1 },
                chi as int == if icol + 1 < self.ncols { icol + 1 } else { self.ncols - 1 },
                p == pos((irow, icol)),
                r@.len() <= 3 * (ir - rlo),
                row_major(r@),
                forall|i: int| 0 <= i < r@.len() ==> self.is_neighbour(p, pos(#[trigger] r@[i])),
                forall|i: int| 0 <= i < r@.len() ==> (#[trigger] r@[i]).0 < ir,
                forall|q: (int, int)| #[trigger] self.is_neighbour(p, q) && q.0 < ir
                    ==> exists|i: int| 0 <= i < r@.len() && pos(r@[i]) == q,
            decreases rhi + 1 - ir,
        {
            let mut ic: usize = clo;
            while ic <= chi
                invariant
                    rlo <= ir <= rhi,
                    rhi < self.nrows,
                    clo <= ic <= chi + 1,
                    chi < self.ncols,
                    rlo as int == if irow == 0 { 0 } else { irow - 1 },
                    rhi as int == if irow + 1 < self.nrows { irow + 1 } else { self.nrows - 1 },
                    clo as int == if icol == 0 { 0 } else { icol - 1 },
                    chi as int == if icol + 1 < self.ncols { icol + 1 } else { self.ncols - 1 },
                    p == pos((irow, icol)),
                    r@.len() <= 3 * (ir - rlo) + (ic - clo),
                    row_major(r@),
                    forall|i: int| 0 <= i < r@.len() ==> self.is_neighbour(p, pos(#[trigger] r@[i])),
                    forall|i: int| 0 <= i < r@.len() ==> before(pos(#[trigger] r@[i]), (ir as int, ic as int)),
                    forall|q: (int, int)| #[trigger] self.is_neighbour(p, q) && before(q, (ir as int, ic as int))
                        ==> exists|i: int| 0 <= i < r@.len() && pos(r@[i]) == q,
                decreases chi + 1 - ic,
            {
                let ghost old_r = r@;
                r.push((ir, ic));
                proof {
                    assert forall|q: (int, int)| #[trigger] self.is_neighbour(p, q) && before(q, (ir as int, ic + 1))
                        implies exists|i: int| 0 <= i < r@.len() && pos(r@[i]) == q by {
                        if q == (ir as int, ic as int) {
                            assert(pos(r@[old_r.len() as int]) == q);
                        } else {
                            let i = choose|i: int| 0 <= i < old_r.len() && pos(old_r[i]) == q;
                            assert(pos(r@[i]) == q);
                        }
                    }
                }
                ic = ic + 1;
            }
            proof {
                assert forall|q: (int, int)| #[trigger] self.is_neighbour(p, q) && q.0 < ir + 1
                    implies exists|i: int| 0 <= i < r@.len() && pos(r@[i]) == q by {
                    assert(before(q, (ir as int, ic as int)));
                }
            }
            ir = ir + 1;
        }
        proof {
            assert(r@.len() <= 9);
        }
        r
    }
}

} // verus!
