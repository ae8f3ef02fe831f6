//! The mathematical model of the alignment: the scoring rule, the
//! dynamic-programming recurrence, the tie-break policy, the traceback
//! path and the reconstruction of the gapped output sequences.

use vstd::prelude::*;

verus! {

/// One step of an alignment path, and the tag stored in each cell of the
/// traceback grid.  `Diagonal` consumes a symbol of both sequences,
/// `Up` consumes a symbol of Y only (a gap in X), `Left` consumes a
/// symbol of X only (a gap in Y).  `Start` and `End` are the sentinels at
/// the two extremities of a recorded path.
#[derive(Clone, Copy, Debug, PartialEq, Eq, Structural)]
pub enum State {
    Start,
    Diagonal,
    Up,
    Left,
    End,
}

/// Score of aligning one symbol against a gap.
pub open spec fn gap_penalty() -> int {
    -2
}

/// Score of aligning a symbol against an equal symbol.
pub open spec fn match_score() -> int {
    2
}

/// Score of aligning a symbol against a different symbol.
pub open spec fn mismatch_score() -> int {
    -1
}

/// The built-in substitution rule.
pub open spec fn sub_score(a: char, b: char) -> int {
    if a == b {
        match_score()
    } else {
        mismatch_score()
    }
}

pub open spec fn max2(a: int, b: int) -> int {
    if a >= b {
        a
    } else {
        b
    }
}

pub open spec fn min2(a: int, b: int) -> int {
    if a <= b {
        a
    } else {
        b
    }
}

pub open spec fn max3(a: int, b: int, c: int) -> int {
    max2(a, max2(b, c))
}

/// The tie-break policy over the three candidate scores of a cell:
/// `Diagonal` whenever it is greatest or tied with the greatest;
/// otherwise `Up` whenever it is no worse than `Left`; otherwise `Left`.
/// `Up` is compared against `Left` only, never against a `Diagonal`
/// candidate that already lost.
pub open spec fn tie_break(d: int, u: int, l: int) -> State {
    if d >= u && d >= l {
        State::Diagonal
    } else if d < u && u >= l {
        State::Up
    } else {
        State::Left
    }
}

/// Value of an interior cell from its three predecessor cells and the
/// pair of symbols at that cell.
pub open spec fn cell_score(d: int, u: int, l: int, a: char, b: char) -> int {
    max3(d + sub_score(a, b), u + gap_penalty(), l + gap_penalty())
}

/// Traceback tag of an interior cell from its three predecessor cells
/// and the pair of symbols at that cell.
pub open spec fn cell_dir(d: int, u: int, l: int, a: char, b: char) -> State {
    tie_break(d + sub_score(a, b), u + gap_penalty(), l + gap_penalty())
}

/// The optimal score of aligning the prefix `x[0..i)` against the prefix
/// `y[0..j)`: the Needleman-Wunsch recurrence, with the boundary rows
/// seeded by the cumulative gap cost.
pub open spec fn opt_score(x: Seq<char>, y: Seq<char>, i: int, j: int) -> int
    recommends
        0 <= i <= x.len(),
        0 <= j <= y.len(),
    decreases i + j,
        when 0 <= i && 0 <= j
{
    if i <= 0 && j <= 0 {
        0
    } else if i <= 0 {
        -2 * j
    } else if j <= 0 {
        -2 * i
    } else {
        cell_score(
            opt_score(x, y, i - 1, j - 1),
            opt_score(x, y, i, j - 1),
            opt_score(x, y, i - 1, j),
            x[i - 1],
            y[j - 1],
        )
    }
}

/// The traceback tag of cell `(i, j)`: the recurrence case that produces
/// the optimal score there.  Boundary cells are forced (`Up` along the
/// top row, `Left` along the left column) and the origin holds `Start`.
pub open spec fn tb_dir(x: Seq<char>, y: Seq<char>, i: int, j: int) -> State
    recommends
        0 <= i <= x.len(),
        0 <= j <= y.len(),
{
    if i <= 0 && j <= 0 {
        State::Start
    } else if i <= 0 {
        State::Up
    } else if j <= 0 {
        State::Left
    } else {
        cell_dir(
            opt_score(x, y, i - 1, j - 1),
            opt_score(x, y, i, j - 1),
            opt_score(x, y, i - 1, j),
            x[i - 1],
            y[j - 1],
        )
    }
}

/// The alignment path from the origin to cell `(i, j)`, in forward
/// (origin to terminal) order, as chosen by the traceback tags.
pub open spec fn tb_path(x: Seq<char>, y: Seq<char>, i: int, j: int) -> Seq<State>
    recommends
        0 <= i <= x.len(),
        0 <= j <= y.len(),
    decreases i + j,
        when 0 <= i && 0 <= j
{
    if i <= 0 && j <= 0 {
        Seq::empty()
    } else {
        match tb_dir(x, y, i, j) {
            State::Diagonal => tb_path(x, y, i - 1, j - 1).push(State::Diagonal),
            State::Up => tb_path(x, y, i, j - 1).push(State::Up),
            State::Left => tb_path(x, y, i - 1, j).push(State::Left),
            _ => Seq::empty(),
        }
    }
}

/// Whether a sequence of operations holds productive steps only.
pub open spec fn productive(ops: Seq<State>) -> bool {
    forall|k: int|
        0 <= k < ops.len() ==> (ops[k] is Diagonal || ops[k] is Up || ops[k] is Left)
}

/// How many symbols of X a sequence of operations consumes.
pub open spec fn xs_used(ops: Seq<State>) -> int
    decreases ops.len(),
{
    if ops.len() == 0 {
        0
    } else {
        xs_used(ops.drop_last()) + if ops.last() is Diagonal || ops.last() is Left {
            1int
        } else {
            0int
        }
    }
}

/// How many symbols of Y a sequence of operations consumes.
pub open spec fn ys_used(ops: Seq<State>) -> int
    decreases ops.len(),
{
    if ops.len() == 0 {
        0
    } else {
        ys_used(ops.drop_last()) + if ops.last() is Diagonal || ops.last() is Up {
            1int
        } else {
            0int
        }
    }
}

/// The gap marker written into the aligned output sequences.
pub open spec fn gap_marker() -> char {
    '-'
}

/// The aligned output for X: replay the operations with a read cursor
/// into `x`, copying a symbol on `Diagonal` and `Left` and writing a gap
/// marker on `Up`.
pub open spec fn recon_x(x: Seq<char>, ops: Seq<State>) -> Seq<char>
    decreases ops.len(),
{
    if ops.len() == 0 {
        Seq::empty()
    } else {
        let prefix = recon_x(x, ops.drop_last());
        match ops.last() {
            State::Diagonal => prefix.push(x[xs_used(ops.drop_last())]),
            State::Left => prefix.push(x[xs_used(ops.drop_last())]),
            State::Up => prefix.push(gap_marker()),
            _ => prefix,
        }
    }
}

/// The aligned output for Y: a symbol on `Diagonal` and `Up`, a gap
/// marker on `Left`.
pub open spec fn recon_y(y: Seq<char>, ops: Seq<State>) -> Seq<char>
    decreases ops.len(),
{
    if ops.len() == 0 {
        Seq::empty()
    } else {
        let prefix = recon_y(y, ops.drop_last());
        match ops.last() {
            State::Diagonal => prefix.push(y[ys_used(ops.drop_last())]),
            State::Up => prefix.push(y[ys_used(ops.drop_last())]),
            State::Left => prefix.push(gap_marker()),
            _ => prefix,
        }
    }
}

/// A sequence with its gap markers removed.
pub open spec fn strip_gaps(s: Seq<char>) -> Seq<char>
    decreases s.len(),
{
    if s.len() == 0 {
        Seq::empty()
    } else if s.last() == gap_marker() {
        strip_gaps(s.drop_last())
    } else {
        strip_gaps(s.drop_last()).push(s.last())
    }
}

/// The forward operations held by a recorded path, which lists `End`
/// first, then the operations in backward order, then `Start`.
pub open spec fn path_ops(path: Seq<State>) -> Seq<State> {
    path.subrange(1, path.len() - 1).reverse()
}

/// Both consumption counts are non-negative.
pub proof fn lemma_used_nonneg(ops: Seq<State>)
    ensures
        0 <= xs_used(ops),
        0 <= ys_used(ops),
    decreases ops.len(),
{
    if ops.len() > 0 {
        lemma_used_nonneg(ops.drop_last());
    }
}

/// Extending a prefix by one operation extends its consumption counts
/// by that operation's contribution.
pub proof fn lemma_used_take_succ(ops: Seq<State>, t: int)
    requires
        0 <= t < ops.len(),
    ensures
        xs_used(ops.take(t + 1)) == xs_used(ops.take(t)) + if ops[t] is Diagonal
            || ops[t] is Left {
            1int
        } else {
            0int
        },
        ys_used(ops.take(t + 1)) == ys_used(ops.take(t)) + if ops[t] is Diagonal
            || ops[t] is Up {
            1int
        } else {
            0int
        },
{
    assert(ops.take(t + 1).drop_last() =~= ops.take(t));
    assert(ops.take(t + 1).last() == ops[t]);
}

/// A prefix never consumes more than the whole.
pub proof fn lemma_used_take_le(ops: Seq<State>, t: int)
    requires
        0 <= t <= ops.len(),
    ensures
        xs_used(ops.take(t)) <= xs_used(ops),
        ys_used(ops.take(t)) <= ys_used(ops),
    decreases ops.len() - t,
{
    if t == ops.len() {
        assert(ops.take(t) =~= ops);
    } else {
        lemma_used_take_succ(ops, t);
        lemma_used_take_le(ops, t + 1);
    }
}

} // verus!
