use vstd::prelude::*;

use crate::field::{Cell, MineField};
use crate::grid::{count_in, lemma_count_in, pos, positions, Shape};

verus! {

/// What the player sees at one position.
#[derive(Copy, Clone, Debug, PartialEq, Eq, Structural)]
pub enum CellState {
    Hidden,
    Flagged,
    Visible(Cell),
}

#[derive(Copy, Clone, Debug, PartialEq, Eq, Structural)]
pub enum Outcome {
    Won,
    Lost,
    Ongoing,
}

/// The state of position `q` in the row-major state sequence `s`.
pub open spec fn state_in(shape: Shape, s: Seq<CellState>, q: (int, int)) -> CellState {
    s[shape.index_of(q)]
}

/// `s` holds every neighbour of each clear cell of the field that it holds.
pub open spec fn closed(f: MineField, s: Set<(int, int)>) -> bool {
    forall|x: (int, int), q: (int, int)|
        #![trigger s.contains(x), f.spec_shape().is_neighbour(x, q)]
        s.contains(x) && f.spec_shape().contains(x) && f.cell_at(x) == Cell::Clear && f.spec_shape().is_neighbour(
            x,
            q,
        ) ==> s.contains(q)
}

/// `q` is uncovered by a reveal started at `p`: it lies in every closed set
/// that holds `p`.
pub open spec fn in_closure(f: MineField, p: (int, int), q: (int, int)) -> bool {
    forall|s: Set<(int, int)>| #[trigger] closed(f, s) && s.contains(p) ==> s.contains(q)
}

/// The states after revealing `p`: every position of its closure shows its cell.
pub open spec fn revealed(f: MineField, s: Seq<CellState>, p: (int, int)) -> Seq<CellState> {
    Seq::new(
        s.len(),
        |k: int|
            if in_closure(f, p, f.spec_shape().pos_at(k)) {
                CellState::Visible(f.spec_cells()[k])
            } else {
                s[k]
            },
    )
}

/// Flagging toggles between hidden and flagged; a visible cell stays as it is.
pub open spec fn toggled(c: CellState) -> CellState {
    match c {
        CellState::Hidden => CellState::Flagged,
        CellState::Flagged => CellState::Hidden,
        CellState::Visible(v) => CellState::Visible(v),
    }
}

/// The states after toggling the flag at `p`.
pub open spec fn flag_toggled(shape: Shape, s: Seq<CellState>, p: (int, int)) -> Seq<CellState> {
    s.update(shape.index_of(p), toggled(s[shape.index_of(p)]))
}

/// Number of states that are not visible.
pub open spec fn covered(s: Seq<CellState>) -> nat
    decreases s.len(),
{
    if s.len() == 0 {
        0
    } else {
        covered(s.drop_last()) + if s.last() is Visible {
            0nat
        } else {
            1nat
        }
    }
}

/// Number of flagged states.
pub open spec fn flagged(s: Seq<CellState>) -> nat
    decreases s.len(),
{
    if s.len() == 0 {
        0
    } else {
        flagged(s.drop_last()) + if s.last() == CellState::Flagged {
            1nat
        } else {
            0nat
        }
    }
}

/// Some state shows a mine.
pub open spec fn shows_mine(s: Seq<CellState>) -> bool {
    exists|k: int| 0 <= k < s.len() && s[k] == CellState::Visible(Cell::Mine)
}

/// The positions flagged in `s`.
pub open spec fn flagged_set(shape: Shape, s: Seq<CellState>) -> Set<(int, int)> {
    Set::new(|q: (int, int)| shape.contains(q) && state_in(shape, s, q) == CellState::Flagged)
}

/// The chord at `p` applies: `p` shows a count equal to the number of flags
/// in its neighbourhood.
pub open spec fn chord_applies(f: MineField, s: Seq<CellState>, p: (int, int)) -> bool {
    match state_in(f.spec_shape(), s, p) {
        CellState::Visible(Cell::Neighbouring(n)) => f.spec_shape().neighbourhood(p).intersect(
            flagged_set(f.spec_shape(), s),
        ).len() == n,
        _ => false,
    }
}

/// The states after a chord at `p`: the closure of every hidden neighbour is uncovered.
pub open spec fn chorded(f: MineField, s: Seq<CellState>, p: (int, int)) -> Seq<CellState> {
    Seq::new(
        s.len(),
        |k: int|
            if exists|q: (int, int)|
                f.spec_shape().is_neighbour(p, q) && state_in(f.spec_shape(), s, q) == CellState::Hidden
                    && #[trigger] in_closure(f, q, f.spec_shape().pos_at(k)) {
                CellState::Visible(f.spec_cells()[k])
            } else {
                s[k]
            },
    )
}

/// Some hidden position among the first `t` of `qs` has `x` in its closure.
pub open spec fn hit(f: MineField, s: Seq<CellState>, qs: Seq<(usize, usize)>, t: int, x: (int, int)) -> bool {
    exists|j: int|
        0 <= j < t && state_in(f.spec_shape(), s, pos(qs[j])) == CellState::Hidden && #[trigger] in_closure(
            f,
            pos(qs[j]),
            x,
        )
}

/// The states after revealing the hidden ones among the first `t` of `qs`.
pub open spec fn partly_chorded(f: MineField, s: Seq<CellState>, qs: Seq<(usize, usize)>, t: int) -> Seq<
    CellState,
> {
    Seq::new(
        s.len(),
        |k: int|
            if hit(f, s, qs, t, f.spec_shape().pos_at(k)) {
                CellState::Visible(f.spec_cells()[k])
            } else {
                s[k]
            },
    )
}

/// A visibility overlay that fits the field: one state per cell, each visible
/// state shows the cell underneath, and the neighbours of a visible clear cell
/// are visible.
pub open spec fn consistent(f: MineField, s: Seq<CellState>) -> bool {
    &&& f.wf()
    &&& s.len() == f.spec_shape().size()
    &&& forall|k: int|
        0 <= k < s.len() ==> (#[trigger] s[k] matches CellState::Visible(c) ==> c == f.spec_cells()[k])
    &&& forall|x: (int, int), q: (int, int)|
        #![trigger state_in(f.spec_shape(), s, x), f.spec_shape().is_neighbour(x, q)]
        f.spec_shape().contains(x) && state_in(f.spec_shape(), s, x) == CellState::Visible(Cell::Clear)
            && f.spec_shape().is_neighbour(x, q) ==> state_in(f.spec_shape(), s, q) is Visible
}

pub proof fn lemma_closure_step(f: MineField, p: (int, int), x: (int, int), q: (int, int))
    requires
        in_closure(f, p, x),
        f.spec_shape().contains(x),
        f.cell_at(x) == Cell::Clear,
        f.spec_shape().is_neighbour(x, q),
    ensures
        in_closure(f, p, q),
{
    assert forall|s: Set<(int, int)>| #[trigger] closed(f, s) && s.contains(p) implies s.contains(q) by {
        assert(s.contains(x));
    }
}

/// In a consistent overlay, the closure of a visible position is visible.
pub proof fn lemma_closure_visible(f: MineField, s: Seq<CellState>, p: (int, int), x: (int, int))
    requires
        consistent(f, s),
        f.spec_shape().contains(p),
        state_in(f.spec_shape(), s, p) is Visible,
        in_closure(f, p, x),
    ensures
        f.spec_shape().contains(x),
        state_in(f.spec_shape(), s, x) == CellState::Visible(f.cell_at(x)),
{
    let shape = f.spec_shape();
    let v = Set::new(|q: (int, int)| shape.contains(q) && state_in(shape, s, q) is Visible);
    assert forall|y: (int, int), q: (int, int)|
        #![trigger v.contains(y), shape.is_neighbour(y, q)]
        v.contains(y) && shape.contains(y) && f.cell_at(y) == Cell::Clear && shape.is_neighbour(y, q) implies v.contains(
            q,
        ) by {
        shape.lemma_index(y);
        assert(s[shape.index_of(y)] matches CellState::Visible(c) ==> c == f.spec_cells()[shape.index_of(y)]);
    }
    assert(closed(f, v));
    assert(v.contains(x));
    shape.lemma_index(x);
}

/// Revealing is idempotent: revealing `p` a second time changes no state.
/// (`Board::reveal_cell` leaves the field alone and returns its cell at `p`,
/// so both calls return the same cell.)
pub proof fn lemma_reveal_idempotent(f: MineField, s: Seq<CellState>, p: (int, int))
    ensures
        revealed(f, revealed(f, s, p), p) == revealed(f, s, p),
{
    assert(revealed(f, revealed(f, s, p), p) =~= revealed(f, s, p));
}

/// The flood fill from `p` is the connected clear region around `p` together
/// with its bordering ring: it holds `p`; it holds every neighbour of each
/// clear cell it holds; everything else it holds is `p` itself or a neighbour
/// of a clear cell it holds; and it holds no mine unless `p` is one.
pub proof fn lemma_flood_fill(f: MineField, p: (int, int))
    requires
        f.wf(),
        f.spec_shape().contains(p),
    ensures
        in_closure(f, p, p),
        forall|x: (int, int), q: (int, int)|
            #![trigger in_closure(f, p, x), f.spec_shape().is_neighbour(x, q)]
            in_closure(f, p, x) && f.spec_shape().contains(x) && f.cell_at(x) == Cell::Clear
                && f.spec_shape().is_neighbour(x, q) ==> in_closure(f, p, q),
        forall|q: (int, int)| #[trigger]
            in_closure(f, p, q) ==> f.spec_shape().contains(q) && (q == p || exists|x: (int, int)|
                in_closure(f, p, x) && f.spec_shape().contains(x) && f.cell_at(x) == Cell::Clear
                    && #[trigger] f.spec_shape().is_neighbour(x, q)),
        f.cell_at(p) != Cell::Mine ==> forall|q: (int, int)| #[trigger]
            in_closure(f, p, q) ==> f.cell_at(q) != Cell::Mine,
{
    let shape = f.spec_shape();
    assert forall|x: (int, int), q: (int, int)|
        #![trigger in_closure(f, p, x), shape.is_neighbour(x, q)]
        in_closure(f, p, x) && shape.contains(x) && f.cell_at(x) == Cell::Clear && shape.is_neighbour(x, q) implies in_closure(
            f,
            p,
            q,
        ) by {
        lemma_closure_step(f, p, x, q);
    }
    let ring = Set::new(
        |q: (int, int)|
            shape.contains(q) && (q == p || exists|x: (int, int)|
                in_closure(f, p, x) && shape.contains(x) && f.cell_at(x) == Cell::Clear
                    && #[trigger] shape.is_neighbour(x, q)),
    );
    assert forall|y: (int, int), q: (int, int)|
        #![trigger ring.contains(y), shape.is_neighbour(y, q)]
        ring.contains(y) && shape.contains(y) && f.cell_at(y) == Cell::Clear && shape.is_neighbour(y, q) implies ring.contains(
            q,
        ) by {
        if y != p {
            let x = choose|x: (int, int)|
                in_closure(f, p, x) && shape.contains(x) && f.cell_at(x) == Cell::Clear
                    && #[trigger] shape.is_neighbour(x, y);
            lemma_closure_step(f, p, x, y);
        }
        assert(in_closure(f, p, y));
    }
    assert(closed(f, ring));
    assert forall|q: (int, int)| #[trigger] in_closure(f, p, q) implies shape.contains(q) && (q == p || exists|
        x: (int, int),
    |
        in_closure(f, p, x) && shape.contains(x) && f.cell_at(x) == Cell::Clear
            && #[trigger] shape.is_neighbour(x, q)) by {
        assert(ring.contains(q));
    }
    if f.cell_at(p) != Cell::Mine {
        assert forall|q: (int, int)| #[trigger] in_closure(f, p, q) implies f.cell_at(q) != Cell::Mine by {
            assert(ring.contains(q));
            if q != p {
                let x = choose|x: (int, int)|
                    in_closure(f, p, x) && shape.contains(x) && f.cell_at(x) == Cell::Clear
                        && #[trigger] shape.is_neighbour(x, q);
                f.lemma_cell_at(x);
                if f.cell_at(q) == Cell::Mine {
                    let both = shape.neighbourhood(x).intersect(f.mines());
                    assert(both.contains(q));
                    assert(both.finite());
                    assert(both.len() != 0);
                }
            }
        }
    }
}

/// Flagging a hidden cell twice leaves it hidden, and flagging a visible cell
/// changes nothing.
pub proof fn lemma_flag_round_trip(shape: Shape, s: Seq<CellState>, p: (int, int))
    requires
        0 <= shape.index_of(p) < s.len(),
    ensures
        state_in(shape, s, p) == CellState::Hidden ==> flag_toggled(shape, flag_toggled(shape, s, p), p) == s,
        state_in(shape, s, p) is Visible ==> flag_toggled(shape, s, p) == s,
{
    assert(state_in(shape, s, p) == CellState::Hidden ==> flag_toggled(shape, flag_toggled(shape, s, p), p) =~= s);
    assert(state_in(shape, s, p) is Visible ==> flag_toggled(shape, s, p) =~= s);
}

proof fn lemma_covered_update(s: Seq<CellState>, k: int, c: Cell)
    requires
        0 <= k < s.len(),
        !(s[k] is Visible),
    ensures
        covered(s.update(k, CellState::Visible(c))) + 1 == covered(s),
    decreases s.len(),
{
    let t = s.update(k, CellState::Visible(c));
    if k == s.len() - 1 {
        assert(t.drop_last() =~= s.drop_last());
    } else {
        assert(t.drop_last() =~= s.drop_last().update(k, CellState::Visible(c)));
        lemma_covered_update(s.drop_last(), k, c);
    }
}

/// A mine-hunting board: a minefield under a visibility overlay.
pub struct Board {
    field: MineField,
    state: Vec<CellState>,
}

impl Board {
    pub closed spec fn spec_field(self) -> MineField {
        self.field
    }

    /// The states in row-major order.
    pub closed spec fn states(self) -> Seq<CellState> {
        self.state@
    }

    pub open spec fn spec_shape(self) -> Shape {
        self.spec_field().spec_shape()
    }

    pub open spec fn state_at(self, p: (int, int)) -> CellState {
        state_in(self.spec_shape(), self.states(), p)
    }

    pub open spec fn wf(self) -> bool {
        consistent(self.spec_field(), self.states())
    }

    /// A board over `field` with every cell hidden.
    pub fn new(field: MineField) -> (r: Board)
        requires
            field.wf(),
        ensures
            r.wf(),
            r.spec_field() == field,
            r.states().len() == field.spec_shape().size(),
            forall|k: int| 0 <= k < r.states().len() ==> #[trigger] r.states()[k] == CellState::Hidden,
    {
        let n = field.shape().ncells();
        let mut state: Vec<CellState> = Vec::new();
        let mut k: usize = 0;
        while k < n
            invariant
                k <= n,
                state@.len() == k,
                forall|j: int| 0 <= j < k ==> #[trigger] state@[j] == CellState::Hidden,
            decreases n - k,
        {
            state.push(CellState::Hidden);
            k = k + 1;
        }
        let r = Board { field, state };
        proof {
            let shape = field.spec_shape();
            assert forall|x: (int, int), q: (int, int)|
                #![trigger state_in(shape, state@, x), shape.is_neighbour(x, q)]
                shape.contains(x) && state_in(shape, state@, x) == CellState::Visible(Cell::Clear)
                    && shape.is_neighbour(x, q) implies state_in(shape, state@, q) is Visible by {
                shape.lemma_index(x);
            }
        }
        r
    }

    /// Total number of mines.
    pub fn nmines(&self) -> (r: usize)
        ensures
            r == self.spec_field().spec_nmines(),
    {
        self.field.nmines()
    }

    /// The state at an in-bounds position.
    pub fn get(&self, irow: usize, icol: usize) -> (r: CellState)
        requires
            self.wf(),
            irow < self.spec_shape().nrows,
            icol < self.spec_shape().ncols,
        ensures
            r == self.state_at(pos((irow, icol))),
    {
        let k = self.field.shape().idx(irow, icol);
        self.state[k]
    }

    /// Uncovers `(irow, icol)`; when that cell is clear, uncovers its
    /// neighbours in turn, spreading through the connected clear region.
    /// Returns the cell at `(irow, icol)`.
    #[verifier::rlimit(60)]
    pub fn reveal_cell(&mut self, irow: usize, icol: usize) -> (r: Cell)
        requires
            old(self).wf(),
            irow < old(self).spec_shape().nrows,
            icol < old(self).spec_shape().ncols,
        ensures
            final(self).wf(),
            final(self).spec_field() == old(self).spec_field(),
            final(self).states() == revealed(old(self).spec_field(), old(self).states(), pos((irow, icol))),
            r == old(self).spec_field().cell_at(pos((irow, icol))),
    {
        let ghost f = self.field;
        let ghost s0 = self.state@;
        let ghost p = pos((irow, icol));
        let shape = *self.field.shape();
        let cell = self.field.get(irow, icol);
        let mut work: Vec<(usize, usize)> = Vec::new();
        work.push((irow, icol));
        while work.len() > 0
            invariant
                self.field == f,
                f.wf(),
                shape == f.spec_shape(),
                irow < shape.nrows,
                icol < shape.ncols,
                p == pos((irow, icol)),
                s0.len() == shape.size(),
                self.state@.len() == shape.size(),
                forall|k: int|
                    0 <= k < self.state@.len() ==> (#[trigger] self.state@[k] matches CellState::Visible(c) ==> c
                        == f.spec_cells()[k]),
                forall|k: int|
                    0 <= k < self.state@.len() ==> #[trigger] self.state@[k] == s0[k] || (in_closure(
                        f,
                        p,
                        shape.pos_at(k),
                    ) && self.state@[k] == CellState::Visible(f.spec_cells()[k])),
                forall|i: int|
                    0 <= i < work@.len() ==> shape.contains(pos(#[trigger] work@[i])) && in_closure(
                        f,
                        p,
                        pos(work@[i]),
                    ),
                (work@.len() > 0 && work@[0] == (irow, icol)) || state_in(shape, self.state@, p) is Visible,
                forall|x: (int, int), q: (int, int)|
                    #![trigger state_in(shape, self.state@, x), shape.is_neighbour(x, q)]
                    shape.contains(x) && state_in(shape, self.state@, x) == CellState::Visible(Cell::Clear)
                        && shape.is_neighbour(x, q) ==> state_in(shape, self.state@, q) is Visible || exists|i: int|
                        0 <= i < work@.len() && pos(work@[i]) == q,
            decreases 10 * covered(self.state@) + work@.len(),
        {
            let ghost pre = self.state@;
            let ghost wpre = work@;
            let (ir, ic) = work.pop().unwrap();
            let ghost x = pos((ir, ic));
            let k = shape.idx(ir, ic);
            assert(work@ =~= wpre.drop_last());
            match self.state[k] {
                CellState::Visible(_) => {
                    proof {
                        assert forall|y: (int, int), q: (int, int)|
                            #![trigger state_in(shape, self.state@, y), shape.is_neighbour(y, q)]
                            shape.contains(y) && state_in(shape, self.state@, y) == CellState::Visible(Cell::Clear)
                                && shape.is_neighbour(y, q) implies state_in(shape, self.state@, q) is Visible
                            || exists|i: int| 0 <= i < work@.len() && pos(work@[i]) == q by {
                            if !(state_in(shape, pre, q) is Visible) {
                                let i = choose|i: int| 0 <= i < wpre.len() && pos(wpre[i]) == q;
                                if i < wpre.len() - 1 {
                                    assert(pos(work@[i]) == q);
                                } else {
                                    shape.lemma_index(q);
                                }
                            }
                        }
                    }
                },
                _ => {
                    let c = self.field.get(ir, ic);
                    self.state.set(k, CellState::Visible(c));
                    proof {
                        lemma_covered_update(pre, k as int, c);
                    }
                    let ghost mid = self.state@;
                    let ghost wmid = work@;
                    let ghost mut added: Seq<(usize, usize)> = Seq::empty();
                    if let Cell::Clear = c {
                        let mut nbs = shape.neighbours(ir, ic);
                        proof {
                            added = nbs@;
                            assert forall|i: int| 0 <= i < nbs@.len() implies in_closure(
                                f,
                                p,
                                pos(#[trigger] nbs@[i]),
                            ) by {
                                lemma_closure_step(f, p, x, pos(nbs@[i]));
                            }
                        }
                        work.append(&mut nbs);
                        proof {
                            assert forall|i: int|
                                0 <= i < work@.len() implies shape.contains(pos(#[trigger] work@[i])) && in_closure(
                                    f,
                                    p,
                                    pos(work@[i]),
                                ) by {
                                if i >= wmid.len() {
                                    assert(work@[i] == added[i - wmid.len()]);
                                } else {
                                    assert(work@[i] == wmid[i]);
                                }
                            }
                        }
                    }
                    proof {
                        assert(work@ =~= wmid + added);
                        assert forall|y: (int, int), q: (int, int)|
                            #![trigger state_in(shape, self.state@, y), shape.is_neighbour(y, q)]
                            shape.contains(y) && state_in(shape, self.state@, y) == CellState::Visible(Cell::Clear)
                                && shape.is_neighbour(y, q) implies state_in(shape, self.state@, q) is Visible
                            || exists|i: int| 0 <= i < work@.len() && pos(work@[i]) == q by {
                            shape.lemma_index(y);
                            shape.lemma_index(q);
                            if y == x {
                                assert(c == Cell::Clear);
                                let i = choose|i: int| 0 <= i < added.len() && pos(added[i]) == q;
                                assert(work@[wmid.len() + i] == added[i]);
                            } else {
                                assert(state_in(shape, pre, y) == CellState::Visible(Cell::Clear));
                                if !(state_in(shape, pre, q) is Visible) && q != x {
                                    let i = choose|i: int| 0 <= i < wpre.len() && pos(wpre[i]) == q;
                                    assert(pos(work@[i]) == q);
                                }
                            }
                        }
                    }
                },
            }
            proof {
                shape.lemma_index(p);
                if wpre.len() > 1 {
                    assert(work@[0] == wpre[0]);
                } else if !(state_in(shape, pre, p) is Visible) {
                    assert(x == p);
                }
            }
        }
        proof {
            assert forall|k: int| 0 <= k < s0.len() implies #[trigger] self.state@[k] == revealed(f, s0, p)[k] by {
                if in_closure(f, p, shape.pos_at(k)) {
                    shape.lemma_pos(k);
                    lemma_closure_visible(f, self.state@, p, shape.pos_at(k));
                }
            }
            assert(self.state@ =~= revealed(f, s0, p));
        }
        cell
    }

    /// Chord at `(irow, icol)`: when it shows `Neighbouring(n)` and exactly `n`
    /// of its neighbours are flagged, every hidden neighbour is revealed.
    /// Otherwise nothing changes.
    #[verifier::rlimit(60)]
    pub fn reveal_around(&mut self, irow: usize, icol: usize)
        requires
            old(self).wf(),
            irow < old(self).spec_shape().nrows,
            icol < old(self).spec_shape().ncols,
        ensures
            final(self).wf(),
            final(self).spec_field() == old(self).spec_field(),
            final(self).states() == if chord_applies(old(self).spec_field(), old(self).states(), pos((irow, icol))) {
                chorded(old(self).spec_field(), old(self).states(), pos((irow, icol)))
            } else {
                old(self).states()
            },
    {
        let ghost f = self.field;
        let ghost s0 = self.state@;
        let ghost p = pos((irow, icol));
        let shape = *self.field.shape();
        if let CellState::Visible(Cell::Neighbouring(n)) = self.get(irow, icol) {
            let nbs = shape.neighbours(irow, icol);
            let ghost ps = positions(nbs@);
            let ghost fl = flagged_set(shape, s0);
            let mut cnt: usize = 0;
            let mut t: usize = 0;
            while t < nbs.len()
                invariant
                    self.wf(),
                    self.field == f,
                    self.state@ == s0,
                    shape == f.spec_shape(),
                    ps == positions(nbs@),
                    fl == flagged_set(shape, s0),
                    t <= nbs@.len(),
                    cnt <= t,
                    cnt == count_in(ps.take(t as int), fl),
                    forall|i: int| 0 <= i < nbs@.len() ==> shape.is_neighbour(p, pos(#[trigger] nbs@[i])),
                decreases nbs@.len() - t,
            {
                let (a, b) = nbs[t];
                assert(ps.take(t + 1).drop_last() =~= ps.take(t as int));
                assert(ps[t as int] == pos((a, b)));
                if let CellState::Flagged = self.get(a, b) {
                    cnt = cnt + 1;
                }
                t = t + 1;
            }
            proof {
                assert(ps.take(nbs@.len() as int) =~= ps);
                shape.lemma_neighbour_list(p, nbs@);
                lemma_count_in(ps, fl);
            }
            if cnt == n as usize {
                let mut t: usize = 0;
                assert(self.state@ =~= partly_chorded(f, s0, nbs@, 0));
                while t < nbs.len()
                    invariant
                        self.wf(),
                        self.field == f,
                        shape == f.spec_shape(),
                        s0.len() == shape.size(),
                        t <= nbs@.len(),
                        self.state@ == partly_chorded(f, s0, nbs@, t as int),
                        forall|i: int| 0 <= i < nbs@.len() ==> shape.is_neighbour(p, pos(#[trigger] nbs@[i])),
                    decreases nbs@.len() - t,
                {
                    let (a, b) = nbs[t];
                    let ghost q = pos((a, b));
                    let ghost cur = self.state@;
                    proof {
                        shape.lemma_index(q);
                    }
                    if let CellState::Hidden = self.get(a, b) {
                        self.reveal_cell(a, b);
                    }
                    proof {
                        assert forall|k: int| 0 <= k < s0.len() implies #[trigger] self.state@[k] == partly_chorded(
                            f,
                            s0,
                            nbs@,
                            t + 1,
                        )[k] by {
                            let x = shape.pos_at(k);
                            shape.lemma_pos(k);
                            if state_in(shape, s0, q) == CellState::Hidden && in_closure(f, q, x) {
                                assert(in_closure(f, pos(nbs@[t as int]), x));
                                assert(hit(f, s0, nbs@, t + 1, x));
                                if state_in(shape, cur, q) != CellState::Hidden {
                                    lemma_closure_visible(f, cur, q, x);
                                }
                            } else {
                                if hit(f, s0, nbs@, t + 1, x) {
                                    let j = choose|j: int|
                                        0 <= j < t + 1 && state_in(shape, s0, pos(nbs@[j])) == CellState::Hidden
                                            && #[trigger] in_closure(f, pos(nbs@[j]), x);
                                    assert(j != t);
                                    assert(hit(f, s0, nbs@, t as int, x));
                                }
                            }
                        }
                        assert(self.state@ =~= partly_chorded(f, s0, nbs@, t + 1));
                    }
                    t = t + 1;
                }
                proof {
                    assert forall|k: int| 0 <= k < s0.len() implies #[trigger] self.state@[k] == chorded(f, s0, p)[k] by {
                        let x = shape.pos_at(k);
                        if hit(f, s0, nbs@, nbs@.len() as int, x) {
                            let j = choose|j: int|
                                0 <= j < nbs@.len() && state_in(shape, s0, pos(nbs@[j])) == CellState::Hidden
                                    && #[trigger] in_closure(f, pos(nbs@[j]), x);
                            assert(shape.is_neighbour(p, pos(nbs@[j])));
                        }
                        if exists|q: (int, int)|
                            shape.is_neighbour(p, q) && state_in(shape, s0, q) == CellState::Hidden
                                && #[trigger] in_closure(f, q, x) {
                            let q = choose|q: (int, int)|
                                shape.is_neighbour(p, q) && state_in(shape, s0, q) == CellState::Hidden
                                    && #[trigger] in_closure(f, q, x);
                            let i = choose|i: int| 0 <= i < nbs@.len() && pos(nbs@[i]) == q;
                            assert(in_closure(f, pos(nbs@[i]), x));
                        }
                    }
                    assert(self.state@ =~= chorded(f, s0, p));
                }
            }
        }
    }

    /// Toggles a flag: hidden becomes flagged and flagged becomes hidden; a
    /// visible cell is left as it is.
    pub fn toggle_flag(&mut self, irow: usize, icol: usize)
        requires
            old(self).wf(),
            irow < old(self).spec_shape().nrows,
            icol < old(self).spec_shape().ncols,
        ensures
            final(self).wf(),
            final(self).spec_field() == old(self).spec_field(),
            final(self).states() == flag_toggled(old(self).spec_shape(), old(self).states(), pos((irow, icol))),
    {
        let k = self.field.shape().idx(irow, icol);
        let next = match self.state[k] {
            CellState::Hidden => CellState::Flagged,
            CellState::Flagged => CellState::Hidden,
            other => other,
        };
        let ghost pre = self.state@;
        self.state.set(k, next);
        proof {
            let shape = self.spec_shape();
            assert forall|x: (int, int), q: (int, int)|
                #![trigger state_in(shape, self.state@, x), shape.is_neighbour(x, q)]
                shape.contains(x) && state_in(shape, self.state@, x) == CellState::Visible(Cell::Clear)
                    && shape.is_neighbour(x, q) implies state_in(shape, self.state@, q) is Visible by {
                shape.lemma_index(x);
                shape.lemma_index(q);
                assert(state_in(shape, pre, x) == CellState::Visible(Cell::Clear));
                assert(state_in(shape, pre, q) is Visible);
            }
        }
    }

    /// Number of flagged cells.
    pub fn nflagged(&self) -> (r: usize)
        requires
            self.wf(),
        ensures
            r == flagged(self.states()),
    {
        let mut n: usize = 0;
        let mut k: usize = 0;
        while k < self.state.len()
            invariant
                k <= self.state@.len(),
                n <= k,
                n == flagged(self.state@.take(k as int)),
            decreases self.state@.len() - k,
        {
            assert(self.state@.take(k + 1).drop_last() =~= self.state@.take(k as int));
            if let CellState::Flagged = self.state[k] {
                n = n + 1;
            }
            k = k + 1;
        }
        assert(self.state@.take(k as int) =~= self.state@);
        n
    }

    /// `Lost` when some mine is visible; otherwise `Won` when the cells that are
    /// not visible are exactly as many as the mines; otherwise `Ongoing`.
    pub fn outcome(&self) -> (r: Outcome)
        requires
            self.wf(),
        ensures
            r == Outcome::Lost <==> shows_mine(self.states()),
            r == Outcome::Won <==> !shows_mine(self.states()) && covered(self.states())
                == self.spec_field().spec_nmines(),
            r == Outcome::Ongoing <==> !shows_mine(self.states()) && covered(self.states())
                != self.spec_field().spec_nmines(),
    {
        let n_mines = self.field.nmines();
        let mut n_hidden: usize = 0;
        let mut k: usize = 0;
        while k < self.state.len()
            invariant
                k <= self.state@.len(),
                n_hidden <= k,
                n_hidden == covered(self.state@.take(k as int)),
                forall|j: int| 0 <= j < k ==> self.state@[j] != CellState::Visible(Cell::Mine),
            decreases self.state@.len() - k,
        {
            assert(self.state@.take(k + 1).drop_last() =~= self.state@.take(k as int));
            match self.state[k] {
                CellState::Visible(Cell::Mine) => {
                    return Outcome::Lost;
                },
                CellState::Visible(_) => {},
                _ => {
                    n_hidden = n_hidden + 1;
                },
            }
            k = k + 1;
        }
        assert(self.state@.take(k as int) =~= self.state@);
        if n_hidden == n_mines {
            Outcome::Won
        } else {
            Outcome::Ongoing
        }
    }

    pub fn shape(&self) -> (r: &Shape)
        ensures
            *r == self.spec_shape(),
    {
        self.field.shape()
    }
}

} // verus!
