use vstd::prelude::*;

use crate::grid::{count_in, lemma_count_in, pos, positions, Shape};
use crate::sampling::{choose_positions, sample_indices};

verus! {

/// What occupies one grid position.
#[derive(Copy, Clone, Debug, PartialEq, Eq, Structural)]
pub enum Cell {
    /// No mine here and none in the neighbourhood.
    Clear,
    /// No mine here; the number of mines in the neighbourhood.
    Neighbouring(u8),
    Mine,
}

/// A mine count that the grid cannot hold.
#[derive(Copy, Clone, Debug, PartialEq, Eq, Structural)]
pub enum ConfigError {
    /// More mines were asked for than there are positions to place them on.
    TooManyMines { requested: usize, available: usize },
}

/// The set of exact positions listed in `s`; repeats collapse.
pub open spec fn mine_set(s: Seq<(usize, usize)>) -> Set<(int, int)> {
    Set::new(|q: (int, int)| exists|j: int| 0 <= j < s.len() && pos(s[j]) == q)
}

/// How a position is classified when the mines stand at `m`.
pub open spec fn classify(shape: Shape, m: Set<(int, int)>, p: (int, int)) -> Cell {
    if m.contains(p) {
        Cell::Mine
    } else {
        let n = shape.neighbourhood(p).intersect(m).len();
        if n == 0 {
            Cell::Clear
        } else {
            Cell::Neighbouring(n as u8)
        }
    }
}

/// The positions on which a mine may be placed when `p` and its neighbourhood
/// must stay free.
pub open spec fn eligible(shape: Shape, p: (int, int)) -> Set<(int, int)> {
    Set::new(|q: (int, int)| shape.contains(q) && !shape.is_neighbour(p, q))
}

/// A free cell is classified by the number `n` of mines in its neighbourhood:
/// `Clear` when `n` is zero, otherwise `Neighbouring(n)`, and `n` is at most eight.
pub proof fn lemma_free_cell(f: MineField, p: (int, int))
    requires
        f.wf(),
        f.spec_shape().contains(p),
        f.cell_at(p) != Cell::Mine,
    ensures
        ({
            let n = f.spec_shape().neighbourhood(p).intersect(f.mines()).len();
            &&& n <= 8
            &&& n == 0 ==> f.cell_at(p) == Cell::Clear
            &&& n > 0 ==> f.cell_at(p) == Cell::Neighbouring(n as u8)
        }),
{
    let shape = f.spec_shape();
    f.lemma_cell_at(p);
    shape.lemma_neighbourhood_size(p);
    let nb = shape.neighbourhood(p);
    let both = nb.intersect(f.mines());
    assert(both.subset_of(nb.remove(p)));
    vstd::set_lib::lemma_len_subset(both, nb.remove(p));
}

/// Mine placement on a grid,/// Mine placement on a grid, with each free cell's count of neighbouring mines.
pub struct MineField {
    shape: Shape,
    cells: Vec<Cell>,
    n_mines: usize,
}

impl MineField {
    pub closed spec fn spec_shape(self) -> Shape {
        self.shape
    }

    /// The cells in row-major order.
    pub closed spec fn spec_cells(self) -> Seq<Cell> {
        self.cells@
    }

    pub closed spec fn spec_nmines(self) -> nat {
        self.n_mines as nat
    }

    pub open spec fn cell_at(self, p: (int, int)) -> Cell {
        self.spec_cells()[self.spec_shape().index_of(p)]
    }

    /// The positions that hold a mine.
    pub open spec fn mines(self) -> Set<(int, int)> {
        Set::new(|q: (int, int)| self.spec_shape().contains(q) && self.cell_at(q) == Cell::Mine)
    }

    /// One cell per position; the stored count is the number of mines; every
    /// cell is classified from the mine positions.
    pub open spec fn wf(self) -> bool {
        &&& self.spec_shape().valid()
        &&& self.spec_cells().len() == self.spec_shape().size()
        &&& self.mines().finite()
        &&& self.spec_nmines() == self.mines().len()
        &&& forall|k: int|
            0 <= k < self.spec_shape().size() ==> #[trigger] self.spec_cells()[k] == classify(
                self.spec_shape(),
                self.mines(),
                self.spec_shape().pos_at(k),
            )
    }

    pub proof fn lemma_cell_at(self, p: (int, int))
        requires
            self.wf(),
            self.spec_shape().contains(p),
        ensures
            self.cell_at(p) == classify(self.spec_shape(), self.mines(), p),
            0 <= self.spec_shape().index_of(p) < self.spec_shape().size(),
    {
        self.spec_shape().lemma_index(p);
    }

    /// Builds the field with mines at the given positions (repeats collapse).
    pub fn new(nrows: usize, ncols: usize, mines: &[(usize, usize)]) -> (r: MineField)
        requires
            nrows > 0,
            ncols > 0,
            nrows * ncols <= usize::MAX,
            forall|i: int| 0 <= i < mines@.len() ==> (#[trigger] mines@[i]).0 < nrows && mines@[i].1 < ncols,
        ensures
            r.wf(),
            r.spec_shape() == (Shape { nrows, ncols }),
            r.mines() == mine_set(mines@),
            r.spec_nmines() == mine_set(mines@).len(),
            forall|p: (int, int)| #[trigger] r.spec_shape().contains(p)
                ==> r.cell_at(p) == classify(r.spec_shape(), mine_set(mines@), p),
    {
        let shape = Shape { nrows, ncols };
        let n = nrows * ncols;
        let mut mask: Vec<bool> = Vec::new();
        let mut k: usize = 0;
        while k < n
            invariant
                k <= n,
                mask@.len() == k,
                forall|j: int| 0 <= j < k ==> !(#[trigger] mask@[j]),
            decreases n - k,
        {
            mask.push(false);
            k = k + 1;
        }
        let mut n_mines: usize = 0;
        let ghost mut seen: Set<(int, int)> = Set::empty();
        let mut i: usize = 0;
        while i < mines.len()
            invariant
                shape == (Shape { nrows, ncols }),
                shape.valid(),
                n == shape.size(),
                i <= mines@.len(),
                mask@.len() == n,
                seen.finite(),
                n_mines == seen.len(),
                n_mines <= i,
                forall|j: int| 0 <= j < mines@.len() ==> (#[trigger] mines@[j]).0 < nrows && mines@[j].1 < ncols,
                forall|q: (int, int)| #[trigger] seen.contains(q)
                    <==> exists|j: int| 0 <= j < i && pos(mines@[j]) == q,
                forall|j: int| 0 <= j < n ==> (#[trigger] mask@[j] <==> seen.contains(shape.pos_at(j))),
            decreases mines@.len() - i,
        {
            let (ir, ic) = mines[i];
            let ki = shape.idx(ir, ic);
            let ghost q = pos((ir, ic));
            let ghost old_seen = seen;
            let ghost old_mask = mask@;
            if !mask[ki] {
                mask.set(ki, true);
                n_mines = n_mines + 1;
                proof {
                    seen = seen.insert(q);
                }
            }
            proof {
                assert(seen == old_seen.insert(q));
                assert forall|j: int| 0 <= j < n implies (#[trigger] mask@[j] <==> seen.contains(shape.pos_at(j))) by {
                    shape.lemma_pos(j);
                    if j != ki {
                        assert(mask@[j] == old_mask[j]);
                    }
                }
                assert forall|x: (int, int)| #[trigger] seen.contains(x)
                    <==> exists|j: int| 0 <= j < i + 1 && pos(mines@[j]) == x by {
                    if x == q {
                        assert(pos(mines@[i as int]) == x);
                    }
                    if exists|j: int| 0 <= j < i + 1 && pos(mines@[j]) == x {
                        let j = choose|j: int| 0 <= j < i + 1 && pos(mines@[j]) == x;
                        if j < i {
                            assert(old_seen.contains(x));
                        }
                    }
                }
            }
            i = i + 1;
        }
        assert(seen =~= mine_set(mines@));
        let mut cells: Vec<Cell> = Vec::new();
        let mut k: usize = 0;
        while k < n
            invariant
                shape == (Shape { nrows, ncols }),
                shape.valid(),
                n == shape.size(),
                k <= n,
                mask@.len() == n,
                cells@.len() == k,
                forall|j: int| 0 <= j < n ==> (#[trigger] mask@[j] <==> seen.contains(shape.pos_at(j))),
                forall|j: int| 0 <= j < k ==> #[trigger] cells@[j] == classify(shape, seen, shape.pos_at(j)),
            decreases n - k,
        {
            let ir = k / ncols;
            let ic = k % ncols;
            proof {
                shape.lemma_pos(k as int);
            }
            if mask[k] {
                cells.push(Cell::Mine);
            } else {
                let ghost p = pos((ir, ic));
                let nbs = shape.neighbours(ir, ic);
                let ghost ps = positions(nbs@);
                let mut cnt: usize = 0;
                let mut t: usize = 0;
                while t < nbs.len()
                    invariant
                        shape.valid(),
                        mask@.len() == n,
                        n == shape.size(),
                        ps == positions(nbs@),
                        t <= nbs@.len(),
                        nbs@.len() <= 9,
                        cnt <= t,
                        cnt == count_in(ps.take(t as int), seen),
                        forall|i: int| 0 <= i < nbs@.len() ==> shape.is_neighbour(p, pos(#[trigger] nbs@[i])),
                        forall|j: int| 0 <= j < n ==> (#[trigger] mask@[j] <==> seen.contains(shape.pos_at(j))),
                    decreases nbs@.len() - t,
                {
                    let (a, b) = nbs[t];
                    let kk = shape.idx(a, b);
                    assert(ps.take(t + 1).drop_last() =~= ps.take(t as int));
                    assert(ps[t as int] == pos((a, b)));
                    if mask[kk] {
                        cnt = cnt + 1;
                    }
                    t = t + 1;
                }
                proof {
                    assert(ps.take(nbs@.len() as int) =~= ps);
                    shape.lemma_neighbour_list(p, nbs@);
                    lemma_count_in(ps, seen);
                    assert(ps.to_set().intersect(seen) == shape.neighbourhood(p).intersect(seen));
                }
                if cnt == 0 {
                    cells.push(Cell::Clear);
                } else {
                    cells.push(Cell::Neighbouring(cnt as u8));
                }
            }
            k = k + 1;
        }
        let r = MineField { shape, cells, n_mines };
        proof {
            assert forall|q: (int, int)| r.mines().contains(q) <==> seen.contains(q) by {
                if shape.contains(q) {
                    shape.lemma_index(q);
                }
                if seen.contains(q) {
                    let j = choose|j: int| 0 <= j < mines@.len() && pos(mines@[j]) == q;
                    assert(shape.contains(q));
                }
            }
            assert(r.mines() =~= seen);
            assert forall|p: (int, int)| #[trigger] r.spec_shape().contains(p)
                implies r.cell_at(p) == classify(r.spec_shape(), mine_set(mines@), p) by {
                shape.lemma_index(p);
            }
        }
        r
    }

    /// A field with `nmines` mines on distinct positions drawn at random, or an
    /// error when the grid has fewer positions than that.
    pub fn with_rand_mines(nrows: usize, ncols: usize, nmines: usize) -> (r: Result<MineField, ConfigError>)
        requires
            nrows > 0,
            ncols > 0,
            nrows * ncols <= usize::MAX,
        ensures
            r is Err <==> nmines > nrows * ncols,
            r is Err ==> r == Err::<MineField, ConfigError>(
                ConfigError::TooManyMines { requested: nmines, available: (nrows * ncols) as usize },
            ),
            r matches Ok(f) ==> {
                &&& f.wf()
                &&& f.spec_shape() == (Shape { nrows, ncols })
                &&& f.spec_nmines() == nmines
                &&& f.mines().len() == nmines
            },
    {
        let shape = Shape { nrows, ncols };
        let n = nrows * ncols;
        if nmines > n {
            return Err(ConfigError::TooManyMines { requested: nmines, available: n });
        }
        let idxs = sample_indices(n, nmines);
        let mut ms: Vec<(usize, usize)> = Vec::new();
        let mut t: usize = 0;
        while t < idxs.len()
            invariant
                shape == (Shape { nrows, ncols }),
                shape.valid(),
                n == shape.size(),
                t <= idxs@.len(),
                ms@.len() == t,
                forall|i: int| 0 <= i < idxs@.len() ==> #[trigger] idxs@[i] < n,
                forall|j: int| 0 <= j < t ==> pos(#[trigger] ms@[j]) == shape.pos_at(idxs@[j] as int),
                forall|j: int| 0 <= j < t ==> shape.contains(pos(#[trigger] ms@[j])),
            decreases idxs@.len() - t,
        {
            let k = idxs[t];
            proof {
                shape.lemma_pos(k as int);
            }
            ms.push((k / ncols, k % ncols));
            t = t + 1;
        }
        proof {
            let ps = positions(ms@);
            assert forall|i: int, j: int| 0 <= i < ps.len() && 0 <= j < ps.len() && i != j implies ps[i] != ps[j] by {
                shape.lemma_pos(idxs@[i] as int);
                shape.lemma_pos(idxs@[j] as int);
                assert(idxs@[i] != idxs@[j]);
            }
            ps.unique_seq_to_set();
            assert forall|q: (int, int)| mine_set(ms@).contains(q) <==> ps.to_set().contains(q) by {
                if mine_set(ms@).contains(q) {
                    let j = choose|j: int| 0 <= j < ms@.len() && pos(ms@[j]) == q;
                    assert(ps[j] == q);
                }
                if ps.contains(q) {
                    let j = choose|j: int| 0 <= j < ps.len() && ps[j] == q;
                    assert(pos(ms@[j]) == q);
                }
            }
            assert(mine_set(ms@) =~= ps.to_set());
        }
        Ok(MineField::new(nrows, ncols, ms.as_slice()))
    }

    /// A field with `nmines` mines on distinct positions drawn at random among
    /// those outside the neighbourhood of `(irow, icol)`, or an error when there
    /// are fewer such positions than that.
    pub fn with_rand_mines_avoiding(nrows: usize, ncols: usize, nmines: usize, irow: usize, icol: usize) -> (r:
        Result<MineField, ConfigError>)
        requires
            nrows > 0,
            ncols > 0,
            nrows * ncols <= usize::MAX,
            irow < nrows,
            icol < ncols,
        ensures
            eligible(Shape { nrows, ncols }, pos((irow, icol))).finite(),
            r is Err <==> nmines > eligible(Shape { nrows, ncols }, pos((irow, icol))).len(),
            r is Err ==> r == Err::<MineField, ConfigError>(
                ConfigError::TooManyMines {
                    requested: nmines,
                    available: eligible(Shape { nrows, ncols }, pos((irow, icol))).len() as usize,
                },
            ),
            r matches Ok(f) ==> {
                &&& f.wf()
                &&& f.spec_shape() == (Shape { nrows, ncols })
                &&& f.spec_nmines() == nmines
                &&& f.mines().len() == nmines
                &&& forall|q: (int, int)| #[trigger] f.spec_shape().is_neighbour(pos((irow, icol)), q)
                    ==> f.cell_at(q) != Cell::Mine
            },
    {
        let shape = Shape { nrows, ncols };
        let ghost p = pos((irow, icol));
        let ghost g = shape.grid_seq();
        let ghost e = eligible(shape, p);
        let n = nrows * ncols;
        let mut cands: Vec<(usize, usize)> = Vec::new();
        let mut k: usize = 0;
        while k < n
            invariant
                shape == (Shape { nrows, ncols }),
                shape.valid(),
                n == shape.size(),
                irow < nrows,
                icol < ncols,
                p == pos((irow, icol)),
                g == shape.grid_seq(),
                e == eligible(shape, p),
                k <= n,
                cands@.len() == count_in(g.take(k as int), e),
                cands@.len() <= k,
                forall|j: int| 0 <= j < cands@.len() ==> e.contains(pos(#[trigger] cands@[j])),
                forall|j: int| 0 <= j < cands@.len() ==> shape.index_of(pos(#[trigger] cands@[j])) < k,
                forall|i: int, j: int| 0 <= i < j < cands@.len()
                    ==> shape.index_of(pos(#[trigger] cands@[i])) < shape.index_of(pos(#[trigger] cands@[j])),
            decreases n - k,
        {
            let ir = k / ncols;
            let ic = k % ncols;
            proof {
                shape.lemma_pos(k as int);
                assert(g.take(k + 1).drop_last() =~= g.take(k as int));
                assert(g[k as int] == pos((ir, ic)));
            }
            let near = ir + 1 >= irow && ir <= irow + 1 && ic + 1 >= icol && ic <= icol + 1;
            if !near {
                cands.push((ir, ic));
            }
            k = k + 1;
        }
        proof {
            assert(g.take(n as int) =~= g);
            shape.lemma_grid_seq();
            lemma_count_in(g, e);
            assert(g.to_set().intersect(e) =~= e);
            assert forall|i: int, j: int| 0 <= i < cands@.len() && 0 <= j < cands@.len() && i != j implies cands@[i]
                != cands@[j] by {
                if i < j {
                    assert(shape.index_of(pos(cands@[i])) < shape.index_of(pos(cands@[j])));
                } else {
                    assert(shape.index_of(pos(cands@[j])) < shape.index_of(pos(cands@[i])));
                }
            }
        }
        let n_cands = cands.len();
        if nmines > n_cands {
            return Err(ConfigError::TooManyMines { requested: nmines, available: n_cands });
        }
        let ghost cs = cands@;
        let chosen = choose_positions(cands, nmines);
        proof {
            let ps = positions(chosen@);
            assert forall|i: int| 0 <= i < chosen@.len() implies e.contains(pos(#[trigger] chosen@[i])) by {
                let j = choose|j: int| 0 <= j < cs.len() && cs[j] == chosen@[i];
            }
            assert forall|i: int, j: int| 0 <= i < ps.len() && 0 <= j < ps.len() && i != j implies ps[i] != ps[j] by {
                assert(chosen@[i] != chosen@[j]);
            }
            ps.unique_seq_to_set();
            assert forall|q: (int, int)| mine_set(chosen@).contains(q) <==> ps.to_set().contains(q) by {
                if mine_set(chosen@).contains(q) {
                    let j = choose|j: int| 0 <= j < chosen@.len() && pos(chosen@[j]) == q;
                    assert(ps[j] == q);
                }
                if ps.contains(q) {
                    let j = choose|j: int| 0 <= j < ps.len() && ps[j] == q;
                    assert(pos(chosen@[j]) == q);
                }
            }
            assert(mine_set(chosen@) =~= ps.to_set());
        }
        let f = MineField::new(nrows, ncols, chosen.as_slice());
        proof {
            assert forall|q: (int, int)| #[trigger] f.spec_shape().is_neighbour(p, q) implies f.cell_at(q) != Cell::Mine by {
                if f.cell_at(q) == Cell::Mine {
                    assert(f.mines().contains(q));
                    let j = choose|j: int| 0 <= j < chosen@.len() && pos(chosen@[j]) == q;
                    assert(e.contains(pos(chosen@[j])));
                }
            }
        }
        Ok(f)
    }

    /// The cell at an in-bounds position.
    pub fn get(&self, irow: usize, icol: usize) -> (r: Cell)
        requires
            self.wf(),
            irow < self.spec_shape().nrows,
            icol < self.spec_shape().ncols,
        ensures
            r == self.cell_at(pos((irow, icol))),
    {
        let k = self.shape.idx(irow, icol);
        self.cells[k]
    }

    pub fn nrows(&self) -> (r: usize)
        ensures
            r == self.spec_shape().nrows,
    {
        self.shape.nrows
    }

    pub fn ncols(&self) -> (r: usize)
        ensures
            r == self.spec_shape().ncols,
    {
        self.shape.ncols
    }

    /// Total number of mines.
    pub fn nmines(&self) -> (r: usize)
        ensures
            r == self.spec_nmines(),
    {
        self.n_mines
    }

    pub fn shape(&self) -> (r: &Shape)
        ensures
            *r == self.spec_shape(),
    {
        &self.shape
    }
}

} // verus!
