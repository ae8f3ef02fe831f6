//! Laws of the alignment model: bounds on the optimal score, symmetry,
//! the gap-stripping round trip, equal output lengths, and the
//! degenerate identity and empty-sequence alignments.

use vstd::prelude::*;

use crate::model::State;
use crate::model::gap_marker;
use crate::model::lemma_used_nonneg;
use crate::model::max3;
use crate::model::recon_x;
use crate::model::recon_y;
use crate::model::strip_gaps;
use crate::model::productive;
use crate::model::tb_dir;
use crate::model::tb_path;
use crate::model::xs_used;
use crate::model::ys_used;
use crate::model::min2;
use crate::model::opt_score;
use crate::model::sub_score;

verus! {

/// The optimal score is at least the all-gap score and at most six
/// times the shorter length above it; the strong upper bound carries
/// the induction for the public bounds and the identity law.
pub proof fn lemma_opt_score_range(x: Seq<char>, y: Seq<char>, i: int, j: int)
    requires
        0 <= i,
        0 <= j,
    ensures
        -2 * (i + j) <= opt_score(x, y, i, j),
        opt_score(x, y, i, j) <= 6 * min2(i, j) + -2 * (i + j),
    decreases i + j,
{
    if i > 0 && j > 0 {
        lemma_opt_score_range(x, y, i - 1, j - 1);
        lemma_opt_score_range(x, y, i, j - 1);
        lemma_opt_score_range(x, y, i - 1, j);
        let d = opt_score(x, y, i - 1, j - 1) + sub_score(x[i - 1], y[j - 1]);
        let u = opt_score(x, y, i, j - 1) + -2;
        let l = opt_score(x, y, i - 1, j) + -2;
        assert(opt_score(x, y, i, j) == max3(d, u, l));
        assert(min2(i - 1, j - 1) == min2(i, j) - 1);
        assert(d <= 6 * min2(i, j) + -2 * (i + j));
        assert(min2(i, j - 1) <= min2(i, j));
        assert(u <= 6 * min2(i, j) + -2 * (i + j));
        assert(min2(i - 1, j) <= min2(i, j));
        assert(l <= 6 * min2(i, j) + -2 * (i + j));
    }
}

/// Score bound: the optimal score never exceeds the shorter input's
/// length times the match score (+2), and never falls below what
/// aligning every symbol of both inputs against a gap would cost
/// (-2 per symbol).
pub proof fn lemma_score_bounds(x: Seq<char>, y: Seq<char>)
    ensures
        opt_score(x, y, x.len() as int, y.len() as int) <= 2 * min2(
            x.len() as int,
            y.len() as int,
        ),
        opt_score(x, y, x.len() as int, y.len() as int) >= -2 * (x.len() + y.len()),
{
    lemma_opt_score_range(x, y, x.len() as int, y.len() as int);
}


/// Every traceback path holds productive operations only, and consumes
/// exactly the two prefixes it aligns: `i` symbols of X and `j` of Y.
pub proof fn lemma_tb_path_consumes(x: Seq<char>, y: Seq<char>, i: int, j: int)
    requires
        0 <= i,
        0 <= j,
    ensures
        productive(tb_path(x, y, i, j)),
        xs_used(tb_path(x, y, i, j)) == i,
        ys_used(tb_path(x, y, i, j)) == j,
    decreases i + j,
{
    let p = tb_path(x, y, i, j);
    if i <= 0 && j <= 0 {
    } else {
        let d = tb_dir(x, y, i, j);
        assert(d is Diagonal || d is Up || d is Left);
        let sub = if d is Diagonal {
            tb_path(x, y, i - 1, j - 1)
        } else if d is Up {
            tb_path(x, y, i, j - 1)
        } else {
            tb_path(x, y, i - 1, j)
        };
        if d is Diagonal {
            lemma_tb_path_consumes(x, y, i - 1, j - 1);
        } else if d is Up {
            lemma_tb_path_consumes(x, y, i, j - 1);
        } else {
            lemma_tb_path_consumes(x, y, i - 1, j);
        }
        assert(p == sub.push(d));
        assert(p.drop_last() =~= sub);
        assert(p.last() == d);
        assert forall|k: int|
            0 <= k < p.len() implies (p[k] is Diagonal || p[k] is Up || p[k] is Left) by {
            if k < p.len() - 1 {
                assert(p[k] == sub[k]);
            }
        };
    }
}


/// Equal output lengths: over productive operations, both rebuilt
/// outputs are exactly as long as the operation sequence, so the two
/// aligned outputs always have identical length.
pub proof fn lemma_recon_len(x: Seq<char>, y: Seq<char>, ops: Seq<State>)
    requires
        productive(ops),
    ensures
        recon_x(x, ops).len() == ops.len(),
        recon_y(y, ops).len() == ops.len(),
    decreases ops.len(),
{
    if ops.len() > 0 {
        let sub = ops.drop_last();
        assert forall|k: int|
            0 <= k < sub.len() implies (#[trigger] sub[k] is Diagonal || sub[k] is Up
                || sub[k] is Left) by {
            assert(sub[k] == ops[k]);
        };
        lemma_recon_len(x, y, sub);
    }
}

/// Gap-stripping round trip for X: removing the gap markers from the
/// rebuilt X output gives back exactly the consumed prefix of X.
pub proof fn lemma_strip_recon_x(x: Seq<char>, ops: Seq<State>)
    requires
        productive(ops),
        xs_used(ops) <= x.len(),
        forall|k: int| 0 <= k < x.len() ==> x[k] != gap_marker(),
    ensures
        strip_gaps(recon_x(x, ops)) == x.take(xs_used(ops)),
    decreases ops.len(),
{
    lemma_used_nonneg(ops);
    if ops.len() == 0 {
        assert(recon_x(x, ops) =~= Seq::<char>::empty());
        assert(x.take(0) =~= Seq::<char>::empty());
        assert(strip_gaps(recon_x(x, ops)) =~= Seq::<char>::empty());
    } else {
        let sub = ops.drop_last();
        lemma_used_nonneg(sub);
        assert forall|k: int|
            0 <= k < sub.len() implies (#[trigger] sub[k] is Diagonal || sub[k] is Up
                || sub[k] is Left) by {
            assert(sub[k] == ops[k]);
        };
        lemma_strip_recon_x(x, sub);
        let r = recon_x(x, ops);
        let rs = recon_x(x, sub);
        assert(ops.last() is Diagonal || ops.last() is Up || ops.last() is Left) by {
            assert(ops[ops.len() - 1] is Diagonal || ops[ops.len() - 1] is Up || ops[ops.len()
                - 1] is Left);
        };
        if ops.last() is Up {
            assert(r == rs.push(gap_marker()));
            assert(r.drop_last() =~= rs);
            assert(xs_used(ops) == xs_used(sub));
            assert(strip_gaps(r) == x.take(xs_used(ops)));
        } else {
            let c = x[xs_used(sub)];
            assert(xs_used(ops) == xs_used(sub) + 1);
            assert(xs_used(sub) < x.len());
            assert(c != gap_marker());
            assert(r == rs.push(c));
            assert(r.drop_last() =~= rs);
            assert(strip_gaps(r) == strip_gaps(rs).push(c));
            assert(x.take(xs_used(sub)).push(c) =~= x.take(xs_used(ops)));
        }
    }
}

/// Gap-stripping round trip for Y: removing the gap markers from the
/// rebuilt Y output gives back exactly the consumed prefix of Y.
pub proof fn lemma_strip_recon_y(y: Seq<char>, ops: Seq<State>)
    requires
        productive(ops),
        ys_used(ops) <= y.len(),
        forall|k: int| 0 <= k < y.len() ==> y[k] != gap_marker(),
    ensures
        strip_gaps(recon_y(y, ops)) == y.take(ys_used(ops)),
    decreases ops.len(),
{
    lemma_used_nonneg(ops);
    if ops.len() == 0 {
        assert(recon_y(y, ops) =~= Seq::<char>::empty());
        assert(y.take(0) =~= Seq::<char>::empty());
        assert(strip_gaps(recon_y(y, ops)) =~= Seq::<char>::empty());
    } else {
        let sub = ops.drop_last();
        lemma_used_nonneg(sub);
        assert forall|k: int|
            0 <= k < sub.len() implies (#[trigger] sub[k] is Diagonal || sub[k] is Up
                || sub[k] is Left) by {
            assert(sub[k] == ops[k]);
        };
        lemma_strip_recon_y(y, sub);
        let r = recon_y(y, ops);
        let rs = recon_y(y, sub);
        assert(ops.last() is Diagonal || ops.last() is Up || ops.last() is Left) by {
            assert(ops[ops.len() - 1] is Diagonal || ops[ops.len() - 1] is Up || ops[ops.len()
                - 1] is Left);
        };
        if ops.last() is Left {
            assert(r == rs.push(gap_marker()));
            assert(r.drop_last() =~= rs);
            assert(ys_used(ops) == ys_used(sub));
            assert(strip_gaps(r) == y.take(ys_used(ops)));
        } else {
            let c = y[ys_used(sub)];
            assert(ys_used(ops) == ys_used(sub) + 1);
            assert(ys_used(sub) < y.len());
            assert(c != gap_marker());
            assert(r == rs.push(c));
            assert(r.drop_last() =~= rs);
            assert(strip_gaps(r) == strip_gaps(rs).push(c));
            assert(y.take(ys_used(sub)).push(c) =~= y.take(ys_used(ops)));
        }
    }
}

/// Symmetry under mirroring, cell by cell: swapping the two inputs
/// swaps the roles of the two gap candidates, which the maximum does
/// not see.
pub proof fn lemma_opt_symm(x: Seq<char>, y: Seq<char>, i: int, j: int)
    requires
        0 <= i,
        0 <= j,
    ensures
        opt_score(x, y, i, j) == opt_score(y, x, j, i),
    decreases i + j,
{
    if i > 0 && j > 0 {
        lemma_opt_symm(x, y, i - 1, j - 1);
        lemma_opt_symm(x, y, i, j - 1);
        lemma_opt_symm(x, y, i - 1, j);
        assert(sub_score(x[i - 1], y[j - 1]) == sub_score(y[j - 1], x[i - 1]));
    }
}

/// Symmetry under mirroring: aligning (X, Y) and aligning (Y, X) give
/// the same optimal score.  The aligned output pair need not be the
/// exact swap of the other's: the tie-break prefers `Up` over `Left`
/// in both orientations, so a tied cell can break the mirror.
pub proof fn lemma_score_symmetry(x: Seq<char>, y: Seq<char>)
    ensures
        opt_score(x, y, x.len() as int, y.len() as int) == opt_score(
            y,
            x,
            y.len() as int,
            x.len() as int,
        ),
{
    lemma_opt_symm(x, y, x.len() as int, y.len() as int);
}

/// On the main diagonal of a self-alignment every cell scores twice
/// its index and points `Diagonal`.
proof fn lemma_identity_cells(x: Seq<char>, i: int)
    requires
        0 <= i <= x.len(),
    ensures
        opt_score(x, x, i, i) == 2 * i,
        tb_path(x, x, i, i) =~= Seq::new(i as nat, |k: int| State::Diagonal),
    decreases i,
{
    if i > 0 {
        lemma_identity_cells(x, i - 1);
        lemma_opt_score_range(x, x, i, i - 1);
        lemma_opt_score_range(x, x, i - 1, i);
        assert(sub_score(x[i - 1], x[i - 1]) == 2);
        let d = opt_score(x, x, i - 1, i - 1) + 2;
        let u = opt_score(x, x, i, i - 1) + -2;
        let l = opt_score(x, x, i - 1, i) + -2;
        assert(min2(i, i - 1) == i - 1);
        assert(u <= 2 * i - 6);
        assert(l <= 2 * i - 6);
        assert(d == 2 * i);
        assert(tb_dir(x, x, i, i) == State::Diagonal);
        assert(opt_score(x, x, i, i) == max3(d, u, l));
        assert(tb_path(x, x, i, i) == tb_path(x, x, i - 1, i - 1).push(State::Diagonal));
    }
}

/// Replaying an all-`Diagonal` path copies a prefix of each sequence
/// unchanged.
proof fn lemma_recon_all_diag(x: Seq<char>, c: int)
    requires
        0 <= c <= x.len(),
    ensures
        xs_used(Seq::new(c as nat, |k: int| State::Diagonal)) == c,
        ys_used(Seq::new(c as nat, |k: int| State::Diagonal)) == c,
        recon_x(x, Seq::new(c as nat, |k: int| State::Diagonal)) == x.take(c),
        recon_y(x, Seq::new(c as nat, |k: int| State::Diagonal)) == x.take(c),
    decreases c,
{
    let ops = Seq::new(c as nat, |k: int| State::Diagonal);
    if c == 0 {
        assert(recon_x(x, ops) =~= x.take(0));
        assert(recon_y(x, ops) =~= x.take(0));
    } else {
        lemma_recon_all_diag(x, c - 1);
        let sub = Seq::new((c - 1) as nat, |k: int| State::Diagonal);
        assert(ops.drop_last() =~= sub);
        assert(ops.last() == State::Diagonal);
        assert(recon_x(x, ops) == recon_x(x, sub).push(x[c - 1]));
        assert(x.take(c - 1).push(x[c - 1]) =~= x.take(c));
        assert(recon_y(x, ops) == recon_y(x, sub).push(x[c - 1]));
    }
}

/// Identity alignment: aligning a sequence with itself scores twice
/// its length, the chosen path is all `Diagonal`, and both rebuilt
/// outputs are the sequence itself, without gaps.
pub proof fn lemma_identity_alignment(x: Seq<char>)
    ensures
        opt_score(x, x, x.len() as int, x.len() as int) == 2 * x.len(),
        tb_path(x, x, x.len() as int, x.len() as int) == Seq::new(
            x.len(),
            |k: int| State::Diagonal,
        ),
        recon_x(x, tb_path(x, x, x.len() as int, x.len() as int)) == x,
        recon_y(x, tb_path(x, x, x.len() as int, x.len() as int)) == x,
{
    let n = x.len() as int;
    lemma_identity_cells(x, n);
    lemma_recon_all_diag(x, n);
    assert(x.take(n) =~= x);
}

/// Empty-sequence boundary: against an empty X the whole of Y is
/// aligned to gaps by `Up` steps, and symmetrically an empty Y gives
/// all `Left` steps; either way the score is -2 per aligned symbol.
pub proof fn lemma_empty_alignment(x: Seq<char>, y: Seq<char>)
    ensures
        opt_score(x, y, 0, y.len() as int) == -2 * y.len(),
        tb_path(x, y, 0, y.len() as int) =~= Seq::new(y.len(), |k: int| State::Up),
        opt_score(x, y, x.len() as int, 0) == -2 * x.len(),
        tb_path(x, y, x.len() as int, 0) =~= Seq::new(x.len(), |k: int| State::Left),
{
    lemma_empty_col(x, y, y.len() as int);
    lemma_empty_row(x, y, x.len() as int);
}

proof fn lemma_empty_col(x: Seq<char>, y: Seq<char>, j: int)
    requires
        0 <= j,
    ensures
        opt_score(x, y, 0, j) == -2 * j,
        tb_path(x, y, 0, j) =~= Seq::new(j as nat, |k: int| State::Up),
    decreases j,
{
    if j > 0 {
        lemma_empty_col(x, y, j - 1);
        assert(tb_dir(x, y, 0, j) == State::Up);
        assert(tb_path(x, y, 0, j) == tb_path(x, y, 0, j - 1).push(State::Up));
    }
}

proof fn lemma_empty_row(x: Seq<char>, y: Seq<char>, i: int)
    requires
        0 <= i,
    ensures
        opt_score(x, y, i, 0) == -2 * i,
        tb_path(x, y, i, 0) =~= Seq::new(i as nat, |k: int| State::Left),
    decreases i,
{
    if i > 0 {
        lemma_empty_row(x, y, i - 1);
        assert(tb_dir(x, y, i, 0) == State::Left);
        assert(tb_path(x, y, i, 0) == tb_path(x, y, i - 1, 0).push(State::Left));
    }
}

} // verus!
