use vstd::prelude::*;

use crate::board::{
    chord_applies, chorded, covered, flag_toggled, revealed, shows_mine, Board, CellState, Outcome,
};
use crate::field::{eligible, Cell, ConfigError, MineField};
use crate::grid::{pos, Shape};

verus! {

/// Every state hidden.
pub open spec fn all_hidden(n: nat) -> Seq<CellState> {
    Seq::new(n, |k: int| CellState::Hidden)
}

/// Every hidden state turned into a flag.
pub open spec fn hidden_flagged(s: Seq<CellState>) -> Seq<CellState> {
    Seq::new(
        s.len(),
        |k: int|
            if s[k] == CellState::Hidden {
                CellState::Flagged
            } else {
                s[k]
            },
    )
}

/// One game, from before the first click to its end. Times are milliseconds
/// on a clock that the caller reads.
pub enum BoardState {
    /// No mines placed yet: the shape and the number of mines to place.
    Waiting(Shape, usize),
    /// In play, with the time of the first reveal.
    Initialized(Board, u64),
    /// Won, with the time the game took.
    Won(Board, u64),
    Lost(Board),
}

impl BoardState {
    pub open spec fn wf(self) -> bool {
        match self {
            BoardState::Waiting(shape, _) => shape.valid(),
            BoardState::Initialized(b, _) => b.wf(),
            BoardState::Won(b, _) => b.wf(),
            BoardState::Lost(b) => b.wf(),
        }
    }

    pub open spec fn spec_shape(self) -> Shape {
        match self {
            BoardState::Waiting(shape, _) => shape,
            BoardState::Initialized(b, _) => b.spec_shape(),
            BoardState::Won(b, _) => b.spec_shape(),
            BoardState::Lost(b) => b.spec_shape(),
        }
    }

    pub open spec fn spec_nmines(self) -> nat {
        match self {
            BoardState::Waiting(_, n) => n as nat,
            BoardState::Initialized(b, _) => b.spec_field().spec_nmines(),
            BoardState::Won(b, _) => b.spec_field().spec_nmines(),
            BoardState::Lost(b) => b.spec_field().spec_nmines(),
        }
    }

    pub open spec fn spec_state_at(self, p: (int, int)) -> CellState {
        match self {
            BoardState::Waiting(_, _) => CellState::Hidden,
            BoardState::Initialized(b, _) => b.state_at(p),
            BoardState::Won(b, _) => b.state_at(p),
            BoardState::Lost(b) => b.state_at(p),
        }
    }

    pub fn shape(&self) -> (r: &Shape)
        ensures
            *r == self.spec_shape(),
    {
        match self {
            BoardState::Waiting(shape, _) => shape,
            BoardState::Initialized(board, _) => board.shape(),
            BoardState::Won(board, _) => board.shape(),
            BoardState::Lost(board) => board.shape(),
        }
    }

    pub fn nmines(&self) -> (r: usize)
        ensures
            r == self.spec_nmines(),
    {
        match self {
            BoardState::Waiting(_, nmines) => *nmines,
            BoardState::Initialized(b, _) => b.nmines(),
            BoardState::Won(b, _) => b.nmines(),
            BoardState::Lost(b) => b.nmines(),
        }
    }

    /// The state at an in-bounds position; everything is hidden before the game starts.
    pub fn get(&self, irow: usize, icol: usize) -> (r: CellState)
        requires
            self.wf(),
            irow < self.spec_shape().nrows,
            icol < self.spec_shape().ncols,
        ensures
            r == self.spec_state_at(pos((irow, icol))),
    {
        match self {
            BoardState::Waiting(..) => CellState::Hidden,
            BoardState::Initialized(board, _) => board.get(irow, icol),
            BoardState::Won(board, _) => board.get(irow, icol),
            BoardState::Lost(board) => board.get(irow, icol),
        }
    }

    /// Reveals `(irow, icol)`. Before the game starts this places the mines
    /// at random away from that position and its neighbours, and the game
    /// starts at time `now`; it fails, and nothing changes, when too few
    /// positions are left for the mines. After the game has ended nothing changes.
    pub fn reveal_cell(&mut self, irow: usize, icol: usize, now: u64) -> (r: Result<(), ConfigError>)
        requires
            old(self).wf(),
            irow < old(self).spec_shape().nrows,
            icol < old(self).spec_shape().ncols,
        ensures
            final(self).wf(),
            match *old(self) {
                BoardState::Waiting(shape, n) => {
                    &&& (r is Err <==> n > eligible(shape, pos((irow, icol))).len())
                    &&& (r is Err ==> *final(self) == *old(self) && r == Err::<(), ConfigError>(
                        ConfigError::TooManyMines {
                            requested: n,
                            available: eligible(shape, pos((irow, icol))).len() as usize,
                        },
                    ))
                    &&& (r is Ok ==> (*final(self) matches BoardState::Initialized(b, t) && t == now
                        && b.spec_shape() == shape && b.spec_field().spec_nmines() == n && (forall|q: (int, int)|
                        #[trigger] shape.is_neighbour(pos((irow, icol)), q) ==> b.spec_field().cell_at(q)
                            != Cell::Mine) && b.states() == revealed(
                        b.spec_field(),
                        all_hidden(shape.size() as nat),
                        pos((irow, icol)),
                    )))
                },
                BoardState::Initialized(b, t) => r is Ok && (*final(self) matches BoardState::Initialized(b2, t2)
                    && t2 == t && b2.spec_field() == b.spec_field() && b2.states() == revealed(
                    b.spec_field(),
                    b.states(),
                    pos((irow, icol)),
                )),
                _ => r is Ok && *final(self) == *old(self),
            },
    {
        match self {
            BoardState::Waiting(shape, nmines) => {
                let nrows = shape.nrows;
                let ncols = shape.ncols;
                let n = *nmines;
                match MineField::with_rand_mines_avoiding(nrows, ncols, n, irow, icol) {
                    Ok(field) => {
                        let mut board = Board::new(field);
                        assert(board.states() =~= all_hidden(field.spec_shape().size() as nat));
                        board.reveal_cell(irow, icol);
                        *self = BoardState::Initialized(board, now);
                        Ok(())
                    },
                    Err(e) => Err(e),
                }
            },
            BoardState::Initialized(board, _) => {
                board.reveal_cell(irow, icol);
                Ok(())
            },
            _ => Ok(()),
        }
    }

    /// Ends the game when it is decided: `Lost` once a mine shows; `Won` once
    /// only mines are left covered, in which case every hidden cell is flagged
    /// and the time taken since the start is kept.
    pub fn update_win_lost(&mut self, now: u64)
        requires
            old(self).wf(),
        ensures
            final(self).wf(),
            match *old(self) {
                BoardState::Initialized(b, t) => if shows_mine(b.states()) {
                    *final(self) == BoardState::Lost(b)
                } else if covered(b.states()) == b.spec_field().spec_nmines() {
                    *final(self) matches BoardState::Won(b2, d) && d == (if now >= t {
                        now - t
                    } else {
                        0
                    }) && b2.spec_field() == b.spec_field() && b2.states() == hidden_flagged(b.states())
                } else {
                    *final(self) == *old(self)
                },
                _ => *final(self) == *old(self),
            },
    {
        let mut cur = BoardState::Waiting(Shape { nrows: 1, ncols: 1 }, 0);
        std::mem::swap(self, &mut cur);
        let next = match cur {
            BoardState::Initialized(mut board, start) => match board.outcome() {
                Outcome::Won => {
                    let ghost s0 = board.states();
                    let ghost f = board.spec_field();
                    let shape = *board.shape();
                    let n = shape.ncells();
                    let mut k: usize = 0;
                    while k < n
                        invariant
                            board.wf(),
                            board.spec_field() == f,
                            shape == f.spec_shape(),
                            n == shape.size(),
                            s0.len() == n,
                            k <= n,
                            board.states() == Seq::new(
                                s0.len(),
                                |j: int|
                                    if j < k && s0[j] == CellState::Hidden {
                                        CellState::Flagged
                                    } else {
                                        s0[j]
                                    },
                            ),
                        decreases n - k,
                    {
                        let ir = k / shape.ncols;
                        let ic = k % shape.ncols;
                        proof {
                            shape.lemma_pos(k as int);
                        }
                        let ghost pre = board.states();
                        if let CellState::Hidden = board.get(ir, ic) {
                            board.toggle_flag(ir, ic);
                        }
                        assert(board.states() =~= Seq::new(
                            s0.len(),
                            |j: int|
                                if j < k + 1 && s0[j] == CellState::Hidden {
                                    CellState::Flagged
                                } else {
                                    s0[j]
                                },
                        ));
                        k = k + 1;
                    }
                    assert(board.states() =~= hidden_flagged(s0));
                    BoardState::Won(board, now.saturating_sub(start))
                },
                Outcome::Lost => BoardState::Lost(board),
                Outcome::Ongoing => BoardState::Initialized(board, start),
            },
            other => other,
        };
        *self = next;
    }

    /// Toggles a flag while the game is in play; otherwise does nothing.
    pub fn toggle_flag(&mut self, irow: usize, icol: usize)
        requires
            old(self).wf(),
            irow < old(self).spec_shape().nrows,
            icol < old(self).spec_shape().ncols,
        ensures
            final(self).wf(),
            match *old(self) {
                BoardState::Initialized(b, t) => *final(self) matches BoardState::Initialized(b2, t2) && t2 == t
                    && b2.spec_field() == b.spec_field() && b2.states() == flag_toggled(
                    b.spec_shape(),
                    b.states(),
                    pos((irow, icol)),
                ),
                _ => *final(self) == *old(self),
            },
    {
        match self {
            BoardState::Initialized(board, _) => {
                board.toggle_flag(irow, icol);
            },
            _ => {},
        }
    }

    /// Chord at `(irow, icol)` while the game is in play; otherwise does nothing.
    pub fn reveal_around_nb(&mut self, irow: usize, icol: usize)
        requires
            old(self).wf(),
            irow < old(self).spec_shape().nrows,
            icol < old(self).spec_shape().ncols,
        ensures
            final(self).wf(),
            match *old(self) {
                BoardState::Initialized(b, t) => *final(self) matches BoardState::Initialized(b2, t2) && t2 == t
                    && b2.spec_field() == b.spec_field() && b2.states() == if chord_applies(
                    b.spec_field(),
                    b.states(),
                    pos((irow, icol)),
                ) {
                    chorded(b.spec_field(), b.states(), pos((irow, icol)))
                } else {
                    b.states()
                },
                _ => *final(self) == *old(self),
            },
    {
        match self {
            BoardState::Initialized(board, _) => {
                board.reveal_around(irow, icol);
            },
            _ => {},
        }
    }
}

} // verus!
