//! The alignment engine: the score grid, the traceback grid, the
//! backward walk and the reconstruction of the aligned sequences.

use vstd::prelude::*;

use crate::laws::lemma_opt_score_range;
use crate::laws::lemma_recon_len;
use crate::laws::lemma_strip_recon_x;
use crate::laws::lemma_strip_recon_y;
use crate::laws::lemma_tb_path_consumes;
use crate::model::gap_marker;
use crate::model::strip_gaps;
use crate::model::State;
use crate::model::cell_dir;
use crate::model::cell_score;
use crate::model::opt_score;
use crate::model::path_ops;
use crate::model::recon_x;
use crate::model::recon_y;
use crate::model::xs_used;
use crate::model::ys_used;
use crate::model::lemma_used_nonneg;
use crate::model::lemma_used_take_le;
use crate::model::lemma_used_take_succ;
use crate::model::tb_dir;
use crate::model::tb_path;

verus! {

/// Largest combined input length the engine accepts, so that every
/// score fits comfortably in an `i32`.
pub const MAX_TOTAL_LEN: usize = 100000000;

/// The state of one alignment request: the score grid, the traceback
/// grid, the walk cursor and the path recorded so far.
///
/// The grids have `xs_size + 1` rows and `ys_size + 1` columns; cell
/// `(i, j)` speaks of the prefixes `x[0..i)` and `y[0..j)`.
#[derive(Debug)]
pub struct Alignment {
    pub path: Vec<State>,
    pub cur_state: State,
    pub matrix: Vec<Vec<i32>>,
    pub trace: Vec<Vec<State>>,
    pub cur_xi: usize,
    pub cur_yj: usize,
}

impl Alignment {
    /// Number of rows of the grids.
    pub open spec fn rows(self) -> int {
        self.matrix@.len() as int
    }

    /// Number of columns of the grids.
    pub open spec fn cols(self) -> int {
        self.matrix@[0]@.len() as int
    }

    /// The two grids are rectangular, of equal dimensions, and not empty.
    pub open spec fn grids_wf(self) -> bool {
        &&& self.matrix@.len() >= 1
        &&& self.matrix@[0]@.len() >= 1
        &&& self.trace@.len() == self.matrix@.len()
        &&& forall|i: int|
            0 <= i < self.matrix@.len() ==> #[trigger] self.matrix@[i]@.len() == self.cols()
        &&& forall|i: int|
            0 <= i < self.trace@.len() ==> #[trigger] self.trace@[i]@.len() == self.cols()
    }

    /// The score stored at cell `(i, j)`.
    pub open spec fn cell(self, i: int, j: int) -> int {
        self.matrix@[i]@[j] as int
    }

    /// The traceback tag stored at cell `(i, j)`.
    pub open spec fn tcell(self, i: int, j: int) -> State {
        self.trace@[i]@[j]
    }

    /// Both grids hold exactly what the recurrence assigns to them for
    /// the sequences `x` and `y`.
    pub open spec fn grids_filled(self, x: Seq<char>, y: Seq<char>) -> bool {
        &&& self.rows() == x.len() + 1
        &&& self.cols() == y.len() + 1
        &&& forall|i: int, j: int|
            0 <= i < self.rows() && 0 <= j < self.cols() ==> #[trigger] self.cell(i, j)
                == opt_score(x, y, i, j)
        &&& forall|i: int, j: int|
            0 <= i < self.rows() && 0 <= j < self.cols() ==> #[trigger] self.tcell(i, j)
                == tb_dir(x, y, i, j)
    }

    /// Fresh engine state for sequences of the given lengths: zeroed
    /// score grid, traceback grid all `Start`, and the walk cursor one
    /// past the terminal cell, ready for its first `End` step.
    pub fn new(xs_size: usize, ys_size: usize) -> (r: Self)
        requires
            xs_size < usize::MAX,
            ys_size < usize::MAX,
        ensures
            r.grids_wf(),
            r.rows() == xs_size + 1,
            r.cols() == ys_size + 1,
            forall|i: int, j: int|
                0 <= i < r.rows() && 0 <= j < r.cols() ==> #[trigger] r.cell(i, j) == 0,
            forall|i: int, j: int|
                0 <= i < r.rows() && 0 <= j < r.cols() ==> #[trigger] r.tcell(i, j)
                    == State::Start,
            r.path@ =~= seq![State::End],
            r.cur_state == State::End,
            r.cur_xi == xs_size + 1,
            r.cur_yj == ys_size + 1,
    {
        let xs_size = xs_size + 1;
        let ys_size = ys_size + 1;

        let mut m: Vec<Vec<i32>> = Vec::new();
        let mut t: Vec<Vec<State>> = Vec::new();
        while m.len() < xs_size
            invariant
                t@.len() == m@.len(),
                m@.len() <= xs_size,
                forall|i: int|
                    0 <= i < m@.len() ==> #[trigger] m@[i]@.len() == ys_size,
                forall|i: int|
                    0 <= i < t@.len() ==> #[trigger] t@[i]@.len() == ys_size,
                forall|i: int, j: int|
                    0 <= i < m@.len() && 0 <= j < ys_size ==> #[trigger] m@[i]@[j] == 0,
                forall|i: int, j: int|
                    0 <= i < t@.len() && 0 <= j < ys_size ==> #[trigger] t@[i]@[j]
                        == State::Start,
            decreases xs_size - m@.len(),
        {
            let mut mrow: Vec<i32> = Vec::new();
            let mut trow: Vec<State> = Vec::new();
            while mrow.len() < ys_size
                invariant
                    trow@.len() == mrow@.len(),
                    mrow@.len() <= ys_size,
                    forall|j: int| 0 <= j < mrow@.len() ==> #[trigger] mrow@[j] == 0,
                    forall|j: int|
                        0 <= j < trow@.len() ==> #[trigger] trow@[j] == State::Start,
                decreases ys_size - mrow@.len(),
            {
                mrow.push(0);
                trow.push(State::Start);
            }
            m.push(mrow);
            t.push(trow);
        }

        let mut p: Vec<State> = Vec::new();
        p.push(State::End);

        Alignment {
            path: p,
            cur_state: State::End,
            matrix: m,
            trace: t,
            cur_xi: xs_size,
            cur_yj: ys_size,
        }
    }

    /// Score of cell `(i, j)` from its three predecessor cells and the
    /// two one-symbol slices at that cell, recording the winning
    /// direction in the traceback grid under the tie-break policy.
    pub fn calc_score(&mut self, char_xi: &str, char_yj: &str, i: usize, j: usize) -> (r: i32)
        requires
            old(self).grids_wf(),
            1 <= i < old(self).rows(),
            1 <= j < old(self).cols(),
            char_xi@.len() == 1,
            char_yj@.len() == 1,
            -1000000000 <= old(self).cell(i - 1, j - 1) <= 1000000000,
            -1000000000 <= old(self).cell(i as int, j - 1) <= 1000000000,
            -1000000000 <= old(self).cell(i - 1, j as int) <= 1000000000,
        ensures
            final(self).grids_wf(),
            final(self).matrix@ == old(self).matrix@,
            final(self).path@ == old(self).path@,
            final(self).cur_state == old(self).cur_state,
            final(self).cur_xi == old(self).cur_xi,
            final(self).cur_yj == old(self).cur_yj,
            final(self).trace@.len() == old(self).trace@.len(),
            forall|a: int|
                0 <= a < final(self).trace@.len() && a != i ==> #[trigger] final(self).trace@[a]
                    == old(self).trace@[a],
            final(self).trace@[i as int]@ == old(self).trace@[i as int]@.update(
                j as int,
                cell_dir(
                    old(self).cell(i - 1, j - 1),
                    old(self).cell(i as int, j - 1),
                    old(self).cell(i - 1, j as int),
                    char_xi@[0],
                    char_yj@[0],
                ),
            ),
            r as int == cell_score(
                old(self).cell(i - 1, j - 1),
                old(self).cell(i as int, j - 1),
                old(self).cell(i - 1, j as int),
                char_xi@[0],
                char_yj@[0],
            ),
    {
        let cx = char_xi.get_char(0);
        let cy = char_yj.get_char(0);
        let s: i32 = if cx == cy {
            2
        } else {
            -1
        };
        let diagonal_score = self.matrix[i - 1][j - 1] + s;
        let up_score = self.matrix[i][j - 1] - 2;
        let left_score = self.matrix[i - 1][j] - 2;

        if diagonal_score >= up_score && diagonal_score >= left_score {
            self.trace[i][j] = State::Diagonal;
        } else if diagonal_score < up_score && up_score >= left_score {
            self.trace[i][j] = State::Up;
        } else {
            self.trace[i][j] = State::Left;
        }

        let mut best = diagonal_score;
        if up_score > best {
            best = up_score;
        }
        if left_score > best {
            best = left_score;
        }
        best
    }

    /// Fill both grids completely: boundary row and column first, then
    /// every interior cell, row by row, by the recurrence.  Afterwards
    /// each cell holds the optimal score of its prefix pair and the
    /// direction that produced it.
    pub fn fill_wholematrix(&mut self, m: &str, n: &str)
        requires
            old(self).grids_wf(),
            m.is_ascii(),
            n.is_ascii(),
            old(self).rows() == m@.len() + 1,
            old(self).cols() == n@.len() + 1,
            m@.len() + n@.len() <= MAX_TOTAL_LEN,
        ensures
            final(self).grids_wf(),
            final(self).grids_filled(m@, n@),
            final(self).path@ == old(self).path@,
            final(self).cur_state == old(self).cur_state,
            final(self).cur_xi == old(self).cur_xi,
            final(self).cur_yj == old(self).cur_yj,
    {
        let x_len = self.matrix.len();
        let y_len = self.matrix[0].len();

        let mut x_idx: usize = 0;
        while x_idx < x_len
            invariant
                self.grids_wf(),
                self.rows() == x_len,
                self.cols() == y_len,
                x_idx <= x_len,
                x_len == m@.len() + 1,
                y_len == n@.len() + 1,
                m@.len() + n@.len() <= MAX_TOTAL_LEN,
                self.path@ == old(self).path@,
                self.cur_state == old(self).cur_state,
                self.cur_xi == old(self).cur_xi,
                self.cur_yj == old(self).cur_yj,
                forall|a: int|
                    0 <= a < x_idx ==> #[trigger] self.cell(a, 0) == opt_score(m@, n@, a, 0),
                forall|a: int|
                    0 <= a < x_idx ==> #[trigger] self.tcell(a, 0) == tb_dir(m@, n@, a, 0),
            decreases x_len - x_idx,
        {
            proof {
                assert(x_idx <= MAX_TOTAL_LEN);
            }
            let ghost pre = *self;
            self.matrix[x_idx][0] = (x_idx as i32) * -2;
            self.trace[x_idx][0] = if x_idx == 0 {
                State::Start
            } else {
                State::Left
            };
            proof {
                assert forall|a: int|
                    0 <= a < x_idx + 1 implies #[trigger] self.cell(a, 0) == opt_score(
                    m@,
                    n@,
                    a,
                    0,
                ) by {
                    if a < x_idx {
                        assert(pre.cell(a, 0) == opt_score(m@, n@, a, 0));
                        assert(self.matrix@[a] == pre.matrix@[a]);
                    } else {
                        assert(self.cell(a, 0) == -2 * a);
                        assert(opt_score(m@, n@, a, 0) == -2 * a);
                    }
                };
                assert forall|a: int|
                    0 <= a < x_idx + 1 implies #[trigger] self.tcell(a, 0) == tb_dir(
                    m@,
                    n@,
                    a,
                    0,
                ) by {
                    if a < x_idx {
                        assert(pre.tcell(a, 0) == tb_dir(m@, n@, a, 0));
                        assert(self.trace@[a] == pre.trace@[a]);
                    }
                };
            }
            x_idx = x_idx + 1;
        }

        let mut y_idx: usize = 1;
        while y_idx < y_len
            invariant
                self.grids_wf(),
                self.rows() == x_len,
                self.cols() == y_len,
                1 <= y_idx <= y_len,
                x_len == m@.len() + 1,
                y_len == n@.len() + 1,
                m@.len() + n@.len() <= MAX_TOTAL_LEN,
                self.path@ == old(self).path@,
                self.cur_state == old(self).cur_state,
                self.cur_xi == old(self).cur_xi,
                self.cur_yj == old(self).cur_yj,
                forall|a: int|
                    0 <= a < x_len ==> #[trigger] self.cell(a, 0) == opt_score(m@, n@, a, 0),
                forall|a: int|
                    0 <= a < x_len ==> #[trigger] self.tcell(a, 0) == tb_dir(m@, n@, a, 0),
                forall|b: int|
                    0 <= b < y_idx ==> #[trigger] self.cell(0, b) == opt_score(m@, n@, 0, b),
                forall|b: int|
                    0 <= b < y_idx ==> #[trigger] self.tcell(0, b) == tb_dir(m@, n@, 0, b),
            decreases y_len - y_idx,
        {
            proof {
                assert(y_idx <= MAX_TOTAL_LEN);
            }
            let ghost pre = *self;
            self.matrix[0][y_idx] = (y_idx as i32) * -2;
            self.trace[0][y_idx] = State::Up;
            proof {
                assert forall|a: int|
                    0 <= a < x_len implies #[trigger] self.cell(a, 0) == opt_score(
                    m@,
                    n@,
                    a,
                    0,
                ) by {
                    assert(pre.cell(a, 0) == opt_score(m@, n@, a, 0));
                    if a != 0 {
                        assert(self.matrix@[a] == pre.matrix@[a]);
                    } else {
                        assert(self.matrix@[0]@[0] == pre.matrix@[0]@[0]);
                    }
                };
                assert forall|a: int|
                    0 <= a < x_len implies #[trigger] self.tcell(a, 0) == tb_dir(
                    m@,
                    n@,
                    a,
                    0,
                ) by {
                    assert(pre.tcell(a, 0) == tb_dir(m@, n@, a, 0));
                    if a != 0 {
                        assert(self.trace@[a] == pre.trace@[a]);
                    } else {
                        assert(self.trace@[0]@[0] == pre.trace@[0]@[0]);
                    }
                };
                assert forall|b: int|
                    0 <= b < y_idx + 1 implies #[trigger] self.cell(0, b) == opt_score(
                    m@,
                    n@,
                    0,
                    b,
                ) by {
                    if b < y_idx {
                        assert(pre.cell(0, b) == opt_score(m@, n@, 0, b));
                        assert(self.matrix@[0]@[b] == pre.matrix@[0]@[b]);
                    } else {
                        assert(self.cell(0, b) == -2 * b);
                        assert(opt_score(m@, n@, 0, b) == -2 * b);
                    }
                };
                assert forall|b: int|
                    0 <= b < y_idx + 1 implies #[trigger] self.tcell(0, b) == tb_dir(
                    m@,
                    n@,
                    0,
                    b,
                ) by {
                    if b < y_idx {
                        assert(pre.tcell(0, b) == tb_dir(m@, n@, 0, b));
                        assert(self.trace@[0]@[b] == pre.trace@[0]@[b]);
                    }
                };
            }
            y_idx = y_idx + 1;
        }

        let mut i: usize = 1;
        while i < x_len
            invariant
                self.grids_wf(),
                self.rows() == x_len,
                self.cols() == y_len,
                1 <= i <= x_len,
                x_len == m@.len() + 1,
                y_len == n@.len() + 1,
                m.is_ascii(),
                n.is_ascii(),
                m@.len() + n@.len() <= MAX_TOTAL_LEN,
                self.path@ == old(self).path@,
                self.cur_state == old(self).cur_state,
                self.cur_xi == old(self).cur_xi,
                self.cur_yj == old(self).cur_yj,
                forall|a: int|
                    0 <= a < x_len ==> #[trigger] self.cell(a, 0) == opt_score(m@, n@, a, 0),
                forall|a: int|
                    0 <= a < x_len ==> #[trigger] self.tcell(a, 0) == tb_dir(m@, n@, a, 0),
                forall|b: int|
                    0 <= b < y_len ==> #[trigger] self.cell(0, b) == opt_score(m@, n@, 0, b),
                forall|b: int|
                    0 <= b < y_len ==> #[trigger] self.tcell(0, b) == tb_dir(m@, n@, 0, b),
                forall|a: int, b: int|
                    1 <= a < i && 1 <= b < y_len ==> #[trigger] self.cell(a, b) == opt_score(
                        m@,
                        n@,
                        a,
                        b,
                    ),
                forall|a: int, b: int|
                    1 <= a < i && 1 <= b < y_len ==> #[trigger] self.tcell(a, b) == tb_dir(
                        m@,
                        n@,
                        a,
                        b,
                    ),
            decreases x_len - i,
        {
            let mut j: usize = 1;
            while j < y_len
                invariant
                    self.grids_wf(),
                    self.rows() == x_len,
                    self.cols() == y_len,
                    1 <= i < x_len,
                    1 <= j <= y_len,
                    x_len == m@.len() + 1,
                    y_len == n@.len() + 1,
                    m.is_ascii(),
                    n.is_ascii(),
                    m@.len() + n@.len() <= MAX_TOTAL_LEN,
                    self.path@ == old(self).path@,
                    self.cur_state == old(self).cur_state,
                    self.cur_xi == old(self).cur_xi,
                    self.cur_yj == old(self).cur_yj,
                    forall|a: int|
                        0 <= a < x_len ==> #[trigger] self.cell(a, 0) == opt_score(m@, n@, a, 0),
                    forall|a: int|
                        0 <= a < x_len ==> #[trigger] self.tcell(a, 0) == tb_dir(m@, n@, a, 0),
                    forall|b: int|
                        0 <= b < y_len ==> #[trigger] self.cell(0, b) == opt_score(m@, n@, 0, b),
                    forall|b: int|
                        0 <= b < y_len ==> #[trigger] self.tcell(0, b) == tb_dir(m@, n@, 0, b),
                    forall|a: int, b: int|
                        1 <= a < i && 1 <= b < y_len ==> #[trigger] self.cell(a, b) == opt_score(
                            m@,
                            n@,
                            a,
                            b,
                        ),
                    forall|a: int, b: int|
                        1 <= a < i && 1 <= b < y_len ==> #[trigger] self.tcell(a, b) == tb_dir(
                            m@,
                            n@,
                            a,
                            b,
                        ),
                    forall|b: int|
                        1 <= b < j ==> #[trigger] self.cell(i as int, b) == opt_score(
                            m@,
                            n@,
                            i as int,
                            b,
                        ),
                    forall|b: int|
                        1 <= b < j ==> #[trigger] self.tcell(i as int, b) == tb_dir(
                            m@,
                            n@,
                            i as int,
                            b,
                        ),
                decreases y_len - j,
            {
                proof {
                    lemma_opt_score_range(m@, n@, i - 1, j - 1);
                    lemma_opt_score_range(m@, n@, i as int, j - 1);
                    lemma_opt_score_range(m@, n@, i - 1, j as int);
                }
                let cx = m.substring_ascii(i - 1, i);
                let cy = n.substring_ascii(j - 1, j);
                let ghost pre = *self;
                let s = self.calc_score(cx, cy, i, j);
                let ghost mid = *self;
                self.matrix[i][j] = s;
                proof {
                    assert(cx@[0] == m@[i - 1]);
                    assert(cy@[0] == n@[j - 1]);
                    assert forall|a: int|
                        0 <= a < x_len && a != i implies #[trigger] self.matrix@[a]
                            == pre.matrix@[a] by {
                        assert(mid.matrix@[a] == pre.matrix@[a]);
                    };
                    assert(self.matrix@[i as int]@ == pre.matrix@[i as int]@.update(
                        j as int,
                        s,
                    ));
                    assert forall|a: int|
                        0 <= a < x_len && a != i implies #[trigger] self.trace@[a]
                            == pre.trace@[a] by {
                        assert(mid.trace@[a] == pre.trace@[a]);
                    };
                    assert(self.trace@[i as int]@ == pre.trace@[i as int]@.update(
                        j as int,
                        tb_dir(m@, n@, i as int, j as int),
                    ));
                    assert(self.cell(i as int, j as int) == opt_score(m@, n@, i as int, j as int));
                    assert(self.tcell(i as int, j as int) == tb_dir(m@, n@, i as int, j as int));
                    assert forall|a: int, b: int|
                        1 <= a < i && 1 <= b < y_len implies #[trigger] self.cell(a, b)
                            == opt_score(m@, n@, a, b) by {
                        assert(pre.cell(a, b) == opt_score(m@, n@, a, b));
                    };
                    assert forall|a: int, b: int|
                        1 <= a < i && 1 <= b < y_len implies #[trigger] self.tcell(a, b) == tb_dir(
                            m@,
                            n@,
                            a,
                            b,
                        ) by {
                        assert(pre.tcell(a, b) == tb_dir(m@, n@, a, b));
                    };
                    assert forall|b: int|
                        1 <= b < j + 1 implies #[trigger] self.cell(i as int, b) == opt_score(
                            m@,
                            n@,
                            i as int,
                            b,
                        ) by {
                        if b < j {
                            assert(pre.cell(i as int, b) == opt_score(m@, n@, i as int, b));
                        }
                    };
                    assert forall|b: int|
                        1 <= b < j + 1 implies #[trigger] self.tcell(i as int, b) == tb_dir(
                            m@,
                            n@,
                            i as int,
                            b,
                        ) by {
                        if b < j {
                            assert(pre.tcell(i as int, b) == tb_dir(m@, n@, i as int, b));
                        }
                    };
                    assert forall|a: int|
                        0 <= a < x_len implies #[trigger] self.cell(a, 0) == opt_score(
                        m@,
                        n@,
                        a,
                        0,
                    ) by {
                        assert(pre.cell(a, 0) == opt_score(m@, n@, a, 0));
                    };
                    assert forall|a: int|
                        0 <= a < x_len implies #[trigger] self.tcell(a, 0) == tb_dir(
                        m@,
                        n@,
                        a,
                        0,
                    ) by {
                        assert(pre.tcell(a, 0) == tb_dir(m@, n@, a, 0));
                    };
                    assert forall|b: int|
                        0 <= b < y_len implies #[trigger] self.cell(0, b) == opt_score(
                        m@,
                        n@,
                        0,
                        b,
                    ) by {
                        assert(pre.cell(0, b) == opt_score(m@, n@, 0, b));
                    };
                    assert forall|b: int|
                        0 <= b < y_len implies #[trigger] self.tcell(0, b) == tb_dir(
                        m@,
                        n@,
                        0,
                        b,
                    ) by {
                        assert(pre.tcell(0, b) == tb_dir(m@, n@, 0, b));
                    };
                }
                j = j + 1;
            }
            i = i + 1;
        }
    }

    /// One backward step of the traceback walk.  The walk begins in the
    /// `End` state one past the terminal cell; each step moves the
    /// cursor to the predecessor cell named by the current state, pushes
    /// that cell's traceback tag onto the path and makes it the current
    /// state.  A `Start` state ends the walk with `None`.
    pub fn traceback(&mut self) -> (r: Option<(usize, usize)>)
        requires
            old(self).grids_wf(),
            match old(self).cur_state {
                State::Start => true,
                State::Diagonal => 1 <= old(self).cur_xi < old(self).rows() && 1 <= old(
                    self,
                ).cur_yj < old(self).cols(),
                State::Up => old(self).cur_xi < old(self).rows() && 1 <= old(self).cur_yj < old(
                    self,
                ).cols(),
                State::Left => 1 <= old(self).cur_xi < old(self).rows() && old(self).cur_yj < old(
                    self,
                ).cols(),
                State::End => 1 <= old(self).cur_xi <= old(self).rows() && 1 <= old(
                    self,
                ).cur_yj <= old(self).cols(),
            },
        ensures
            final(self).matrix@ == old(self).matrix@,
            final(self).trace@ == old(self).trace@,
            match old(self).cur_state {
                State::Start => r is None && *final(self) == *old(self),
                State::Diagonal => {
                    &&& final(self).cur_xi == old(self).cur_xi - 1
                    &&& final(self).cur_yj == old(self).cur_yj - 1
                    &&& final(self).cur_state == old(self).tcell(
                        old(self).cur_xi - 1,
                        old(self).cur_yj - 1,
                    )
                    &&& final(self).path@ == old(self).path@.push(final(self).cur_state)
                    &&& r == Some((final(self).cur_xi, final(self).cur_yj))
                },
                State::Up => {
                    &&& final(self).cur_xi == old(self).cur_xi
                    &&& final(self).cur_yj == old(self).cur_yj - 1
                    &&& final(self).cur_state == old(self).tcell(
                        old(self).cur_xi as int,
                        old(self).cur_yj - 1,
                    )
                    &&& final(self).path@ == old(self).path@.push(final(self).cur_state)
                    &&& r == Some((final(self).cur_xi, final(self).cur_yj))
                },
                State::Left => {
                    &&& final(self).cur_xi == old(self).cur_xi - 1
                    &&& final(self).cur_yj == old(self).cur_yj
                    &&& final(self).cur_state == old(self).tcell(
                        old(self).cur_xi - 1,
                        old(self).cur_yj as int,
                    )
                    &&& final(self).path@ == old(self).path@.push(final(self).cur_state)
                    &&& r == Some((final(self).cur_xi, final(self).cur_yj))
                },
                State::End => {
                    &&& final(self).cur_xi == old(self).cur_xi - 1
                    &&& final(self).cur_yj == old(self).cur_yj - 1
                    &&& final(self).cur_state == old(self).tcell(
                        old(self).cur_xi - 1,
                        old(self).cur_yj - 1,
                    )
                    &&& final(self).path@ == old(self).path@.push(final(self).cur_state)
                    &&& r == Some((final(self).cur_xi, final(self).cur_yj))
                },
            },
    {
        match self.cur_state {
            State::Start => None,
            State::Diagonal => {
                self.cur_xi = self.cur_xi - 1;
                self.cur_yj = self.cur_yj - 1;
                self.path.push(self.trace[self.cur_xi][self.cur_yj]);
                self.cur_state = self.trace[self.cur_xi][self.cur_yj];
                Some((self.cur_xi, self.cur_yj))
            },
            State::Up => {
                self.cur_yj = self.cur_yj - 1;
                self.path.push(self.trace[self.cur_xi][self.cur_yj]);
                self.cur_state = self.trace[self.cur_xi][self.cur_yj];
                Some((self.cur_xi, self.cur_yj))
            },
            State::Left => {
                self.cur_xi = self.cur_xi - 1;
                self.path.push(self.trace[self.cur_xi][self.cur_yj]);
                self.cur_state = self.trace[self.cur_xi][self.cur_yj];
                Some((self.cur_xi, self.cur_yj))
            },
            State::End => {
                self.cur_xi = self.cur_xi - 1;
                self.cur_yj = self.cur_yj - 1;
                self.path.push(self.trace[self.cur_xi][self.cur_yj]);
                self.cur_state = self.trace[self.cur_xi][self.cur_yj];
                Some((self.cur_xi, self.cur_yj))
            },
        }
    }

    /// Rebuild the two aligned, gapped output sequences from the
    /// recorded path, which lists `End` first, the productive
    /// operations in backward order, then `Start`.  The operations are
    /// replayed forward with one read cursor per input sequence.
    pub fn get_alignment(&self, m: &str, n: &str) -> (r: (String, String))
        requires
            m.is_ascii(),
            n.is_ascii(),
            m@.len() <= usize::MAX,
            n@.len() <= usize::MAX,
            self.path@.len() >= 2,
            self.path@[0] == State::End,
            self.path@.last() == State::Start,
            forall|k: int|
                1 <= k < self.path@.len() - 1 ==> (#[trigger] self.path@[k] is Diagonal
                    || self.path@[k] is Up || self.path@[k] is Left),
            xs_used(path_ops(self.path@)) <= m@.len(),
            ys_used(path_ops(self.path@)) <= n@.len(),
        ensures
            r.0@ == recon_x(m@, path_ops(self.path@)),
            r.1@ == recon_y(n@, path_ops(self.path@)),
    {
        let ghost ops = path_ops(self.path@);
        proof {
            assert(ops.len() == self.path@.len() - 2);
            assert forall|u: int|
                0 <= u < ops.len() implies ops[u] == self.path@[self.path@.len() - 2 - u] by {
                assert(ops[u] == self.path@.subrange(1, self.path@.len() - 1)[ops.len() - 1 - u]);
            };
            lemma_used_nonneg(ops);
        }
        let mut out_x = String::new();
        let mut out_y = String::new();
        let mut cur_x: usize = 0;
        let mut cur_y: usize = 0;
        let ops_len = self.path.len() - 2;
        let mut t: usize = 0;
        while t < ops_len
            invariant
                m.is_ascii(),
                n.is_ascii(),
                m@.len() <= usize::MAX,
                n@.len() <= usize::MAX,
                ops == path_ops(self.path@),
                ops.len() == ops_len,
                ops_len == self.path@.len() - 2,
                forall|u: int|
                    0 <= u < ops.len() ==> #[trigger] ops[u] == self.path@[self.path@.len() - 2
                        - u],
                forall|u: int|
                    0 <= u < ops.len() ==> (#[trigger] ops[u] is Diagonal || ops[u] is Up
                        || ops[u] is Left),
                xs_used(ops) <= m@.len(),
                ys_used(ops) <= n@.len(),
                t <= ops_len,
                cur_x == xs_used(ops.take(t as int)),
                cur_y == ys_used(ops.take(t as int)),
                out_x@ == recon_x(m@, ops.take(t as int)),
                out_y@ == recon_y(n@, ops.take(t as int)),
            decreases ops_len - t,
        {
            proof {
                lemma_used_take_succ(ops, t as int);
                lemma_used_take_le(ops, t + 1);
                lemma_used_nonneg(ops.take(t as int));
                assert(ops.take(t + 1).drop_last() =~= ops.take(t as int));
                assert(ops.take(t + 1).last() == ops[t as int]);
            }
            let op = self.path[self.path.len() - 2 - t];
            match op {
                State::Diagonal => {
                    let cm = m.substring_ascii(cur_x, cur_x + 1);
                    let cn = n.substring_ascii(cur_y, cur_y + 1);
                    out_x.append(cm);
                    out_y.append(cn);
                    proof {
                        assert(out_x@ =~= recon_x(m@, ops.take(t + 1)));
                        assert(out_y@ =~= recon_y(n@, ops.take(t + 1)));
                    }
                    cur_x = cur_x + 1;
                    cur_y = cur_y + 1;
                },
                State::Up => {
                    let cn = n.substring_ascii(cur_y, cur_y + 1);
                    out_x.append("-");
                    out_y.append(cn);
                    proof {
                        reveal_strlit("-");
                        assert(out_x@ =~= recon_x(m@, ops.take(t + 1)));
                        assert(out_y@ =~= recon_y(n@, ops.take(t + 1)));
                    }
                    cur_y = cur_y + 1;
                },
                State::Left => {
                    let cm = m.substring_ascii(cur_x, cur_x + 1);
                    out_x.append(cm);
                    out_y.append("-");
                    proof {
                        reveal_strlit("-");
                        assert(out_x@ =~= recon_x(m@, ops.take(t + 1)));
                        assert(out_y@ =~= recon_y(n@, ops.take(t + 1)));
                    }
                    cur_x = cur_x + 1;
                },
                State::Start => {
                    proof {
                        assert(false);
                    }
                },
                State::End => {
                    proof {
                        assert(false);
                    }
                },
            }
            t = t + 1;
        }
        proof {
            assert(ops.take(ops_len as int) =~= ops);
        }
        (out_x, out_y)
    }
}


/// Align `x` against `y` end to end under the built-in policy (+2 for
/// a match, -1 for a mismatch, -2 per gap) and return the two aligned,
/// gapped output strings together with the optimal score.
///
/// Empty inputs are accepted: they produce the trivial all-gap
/// alignment rather than an error.  The outputs always have equal
/// length, and stripping the gap markers gives the inputs back
/// whenever they do not themselves hold the gap marker.
pub fn align_strings(x: &str, y: &str) -> (r: (String, String, i32))
    requires
        x.is_ascii(),
        y.is_ascii(),
        x@.len() + y@.len() <= MAX_TOTAL_LEN,
    ensures
        r.0@ == recon_x(x@, tb_path(x@, y@, x@.len() as int, y@.len() as int)),
        r.1@ == recon_y(y@, tb_path(x@, y@, x@.len() as int, y@.len() as int)),
        r.2 as int == opt_score(x@, y@, x@.len() as int, y@.len() as int),
        r.0@.len() == r.1@.len(),
        (forall|k: int| 0 <= k < x@.len() ==> x@[k] != gap_marker()) ==> strip_gaps(r.0@) == x@,
        (forall|k: int| 0 <= k < y@.len() ==> y@[k] != gap_marker()) ==> strip_gaps(r.1@) == y@,
{
    broadcast use vstd::string::is_ascii_spec_bytes;

    let m_len = x.len();
    let n_len = y.len();
    let ghost gx = x@;
    let ghost gy = y@;
    let ghost mm = m_len as int;
    let ghost nn = n_len as int;
    proof {
        assert(mm == gx.len());
        assert(nn == gy.len());
    }
    let ghost tpath = tb_path(gx, gy, mm, nn);
    proof {
        lemma_tb_path_consumes(gx, gy, mm, nn);
    }

    let mut aln = Alignment::new(m_len, n_len);
    aln.fill_wholematrix(x, y);

    let mut more = true;
    while more
        invariant
            gx == x@,
            gy == y@,
            mm == gx.len(),
            nn == gy.len(),
            tpath == tb_path(gx, gy, mm, nn),
            aln.grids_wf(),
            aln.grids_filled(gx, gy),
            aln.rows() == mm + 1,
            aln.cols() == nn + 1,
            aln.cur_state is End ==> {
                &&& aln.cur_xi == mm + 1
                &&& aln.cur_yj == nn + 1
                &&& aln.path@ == seq![State::End]
                &&& more
            },
            aln.cur_state is Start ==> {
                &&& aln.cur_xi == 0
                &&& aln.cur_yj == 0
                &&& aln.path@ == seq![State::End] + tpath.reverse() + seq![State::Start]
            },
            (!(aln.cur_state is End) && !(aln.cur_state is Start)) ==> {
                &&& aln.cur_xi <= mm
                &&& aln.cur_yj <= nn
                &&& aln.cur_state == tb_dir(gx, gy, aln.cur_xi as int, aln.cur_yj as int)
                &&& more
                &&& 1 <= tb_path(gx, gy, aln.cur_xi as int, aln.cur_yj as int).len()
                    <= tpath.len()
                &&& tpath.take(tb_path(gx, gy, aln.cur_xi as int, aln.cur_yj as int).len() as int)
                    == tb_path(gx, gy, aln.cur_xi as int, aln.cur_yj as int)
                &&& aln.path@ == seq![State::End] + tpath.skip(
                    tb_path(gx, gy, aln.cur_xi as int, aln.cur_yj as int).len() - 1,
                ).reverse()
            },
            !more ==> aln.cur_state is Start,
        decreases aln.cur_xi + aln.cur_yj + (if more {
            1int
        } else {
            0int
        }),
    {
        let ghost pre = aln;
        let step = aln.traceback();
        more = step.is_some();
        proof {
            assert(aln.matrix@ == pre.matrix@ && aln.trace@ == pre.trace@);
            assert forall|i2: int, j2: int|
                0 <= i2 < aln.rows() && 0 <= j2 < aln.cols() implies #[trigger] aln.cell(i2, j2)
                    == opt_score(gx, gy, i2, j2) by {
                assert(pre.cell(i2, j2) == opt_score(gx, gy, i2, j2));
            };
            assert forall|i2: int, j2: int|
                0 <= i2 < aln.rows() && 0 <= j2 < aln.cols() implies #[trigger] aln.tcell(i2, j2)
                    == tb_dir(gx, gy, i2, j2) by {
                assert(pre.tcell(i2, j2) == tb_dir(gx, gy, i2, j2));
            };
            if pre.cur_state is Start {
            } else if pre.cur_state is End {
                assert(aln.cur_xi == mm && aln.cur_yj == nn);
                assert(aln.cur_state == pre.tcell(mm, nn));
                assert(aln.cur_state == tb_dir(gx, gy, mm, nn));
                if mm == 0 && nn == 0 {
                    assert(aln.cur_state is Start);
                    assert(tpath.len() == 0);
                    assert(aln.path@ =~= seq![State::End] + tpath.reverse() + seq![
                        State::Start,
                    ]);
                } else {
                    assert(!(aln.cur_state is Start) && !(aln.cur_state is End));
                    let k = tb_path(gx, gy, mm, nn).len() as int;
                    assert(tpath.take(k) =~= tpath);
                    assert(tpath.last() == tb_dir(gx, gy, mm, nn));
                    assert(aln.path@ =~= seq![State::End] + tpath.skip(k - 1).reverse());
                }
            } else {
                let ci = pre.cur_xi as int;
                let cj = pre.cur_yj as int;
                let cp = tb_path(gx, gy, ci, cj);
                let k = cp.len() as int;
                let pi: int = if pre.cur_state is Diagonal {
                    ci - 1
                } else if pre.cur_state is Up {
                    ci
                } else {
                    ci - 1
                };
                let pj: int = if pre.cur_state is Diagonal {
                    cj - 1
                } else if pre.cur_state is Up {
                    cj - 1
                } else {
                    cj
                };
                let pp = tb_path(gx, gy, pi, pj);
                assert(cp == pp.push(pre.cur_state));
                assert(pp.len() == k - 1);
                assert(cp.drop_last() =~= pp);
                assert(tpath.take(k - 1) =~= pp) by {
                    assert(tpath.take(k) == cp);
                    assert(tpath.take(k).drop_last() =~= tpath.take(k - 1));
                };
                assert(aln.cur_xi == pi && aln.cur_yj == pj);
                assert(aln.cur_state == pre.tcell(pi, pj));
                assert(aln.cur_state == tb_dir(gx, gy, pi, pj));
                assert(aln.path@ == pre.path@.push(aln.cur_state));
                if pi == 0 && pj == 0 {
                    assert(aln.cur_state is Start);
                    assert(k == 1);
                    assert(tpath.skip(0) =~= tpath);
                    assert(aln.path@ =~= seq![State::End] + tpath.reverse() + seq![
                        State::Start,
                    ]);
                } else {
                    assert(!(aln.cur_state is Start) && !(aln.cur_state is End));
                    assert(k >= 2);
                    assert(pp.last() == tb_dir(gx, gy, pi, pj));
                    assert(tpath[k - 2] == pp[k - 2]);
                    assert(aln.path@ =~= seq![State::End] + tpath.skip(k - 2).reverse());
                }
            }
        }
    }

    proof {
        assert(aln.cur_state is Start);
        assert(aln.path@ == seq![State::End] + tpath.reverse() + seq![State::Start]);
        assert(aln.path@.len() == tpath.len() + 2);
        assert(aln.path@[0] == State::End);
        assert(aln.path@.last() == State::Start);
        assert forall|t: int|
            1 <= t < aln.path@.len() - 1 implies (#[trigger] aln.path@[t] is Diagonal
                || aln.path@[t] is Up || aln.path@[t] is Left) by {
            assert(aln.path@[t] == tpath.reverse()[t - 1]);
            assert(tpath.reverse()[t - 1] == tpath[tpath.len() - t]);
        };
        assert(path_ops(aln.path@) =~= tpath);
    }

    let score = aln.matrix[m_len][n_len];
    proof {
        assert(aln.cell(mm, nn) == opt_score(gx, gy, mm, nn));
    }
    let (out_x, out_y) = aln.get_alignment(x, y);
    proof {
        lemma_recon_len(gx, gy, tpath);
        if forall|k: int| 0 <= k < gx.len() ==> gx[k] != gap_marker() {
            lemma_strip_recon_x(gx, tpath);
            assert(gx.take(xs_used(tpath)) =~= gx);
        }
        if forall|k: int| 0 <= k < gy.len() ==> gy[k] != gap_marker() {
            lemma_strip_recon_y(gy, tpath);
            assert(gy.take(ys_used(tpath)) =~= gy);
        }
    }
    (out_x, out_y, score)
}

} // verus!
