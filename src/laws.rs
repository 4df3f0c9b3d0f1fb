use vstd::prelude::*;
use crate::merged::{Merged, x_side, y_side, all_appended, all_removed, all_kept, edit_count};
use crate::model::{CostModel, Trace, script, step, cell_cost, script_cost, diag_cost, left_cost, up_cost};

verus! {

/// Reading back along the first row appends `ys[..j]` in order.
proof fn lemma_first_row<X, Y>(c: CostModel<X, Y>, xs: Seq<X>, ys: Seq<Y>, j: nat)
    requires
        j <= ys.len(),
    ensures
        script(c, xs, ys, 0, j) == all_appended::<X, Y>(ys.take(j as int)),
    decreases j,
{
    if j > 0 {
        lemma_first_row(c, xs, ys, (j - 1) as nat);
        assert(all_appended::<X, Y>(ys.take(j as int)) =~= all_appended::<X, Y>(
            ys.take(j - 1),
        ).push(Merged::Append(ys[j - 1])));
    } else {
        assert(all_appended::<X, Y>(ys.take(0)) =~= Seq::empty());
    }
}

/// Reading back along the first column removes `xs[..i]` in order.
proof fn lemma_first_column<X, Y>(c: CostModel<X, Y>, xs: Seq<X>, ys: Seq<Y>, i: nat)
    requires
        i <= xs.len(),
    ensures
        script(c, xs, ys, i, 0) == all_removed::<X, Y>(xs.take(i as int)),
    decreases i,
{
    if i > 0 {
        lemma_first_column(c, xs, ys, (i - 1) as nat);
        assert(all_removed::<X, Y>(xs.take(i as int)) =~= all_removed::<X, Y>(
            xs.take(i - 1),
        ).push(Merged::Remove(xs[i - 1])));
    } else {
        assert(all_removed::<X, Y>(xs.take(0)) =~= Seq::empty());
    }
}

/// With nothing on the left, the script appends every element of `ys` in
/// order, whatever the costs.
pub proof fn lemma_left_degenerate<X, Y>(c: CostModel<X, Y>, xs: Seq<X>, ys: Seq<Y>)
    requires
        xs.len() == 0,
    ensures
        script(c, xs, ys, 0, ys.len()) == all_appended::<X, Y>(ys),
{
    lemma_first_row(c, xs, ys, ys.len());
    assert(ys.take(ys.len() as int) =~= ys);
}

/// With nothing on the right, the script removes every element of `xs` in
/// order, whatever the costs.
pub proof fn lemma_right_degenerate<X, Y>(c: CostModel<X, Y>, xs: Seq<X>, ys: Seq<Y>)
    requires
        ys.len() == 0,
    ensures
        script(c, xs, ys, xs.len(), 0) == all_removed::<X, Y>(xs),
{
    lemma_first_column(c, xs, ys, xs.len());
    assert(xs.take(xs.len() as int) =~= xs);
}

/// The script from `(i, j)` consumes exactly `xs[..i]` and `ys[..j]`, each in
/// its original order.
pub proof fn lemma_script_sides<X, Y>(c: CostModel<X, Y>, xs: Seq<X>, ys: Seq<Y>, i: nat, j: nat)
    requires
        i <= xs.len(),
        j <= ys.len(),
    ensures
        x_side(script(c, xs, ys, i, j)) == xs.take(i as int),
        y_side(script(c, xs, ys, i, j)) == ys.take(j as int),
    decreases i + j,
{
    let s = script(c, xs, ys, i, j);
    if i == 0 && j == 0 {
        assert(xs.take(0) =~= Seq::<X>::empty());
        assert(ys.take(0) =~= Seq::<Y>::empty());
    } else {
        let (pi, pj) = if i == 0 {
            (0nat, (j - 1) as nat)
        } else if j == 0 {
            ((i - 1) as nat, 0nat)
        } else {
            match step(c, xs, ys, i, j) {
                Trace::Keep => ((i - 1) as nat, (j - 1) as nat),
                Trace::Replace => ((i - 1) as nat, (j - 1) as nat),
                Trace::Append => (i, (j - 1) as nat),
                Trace::Remove => ((i - 1) as nat, j),
            }
        };
        lemma_script_sides(c, xs, ys, pi, pj);
        let p = script(c, xs, ys, pi, pj);
        assert(s.drop_last() =~= p);
        if pi < i {
            assert(xs.take(i as int) =~= xs.take(pi as int).push(xs[i - 1]));
        }
        if pj < j {
            assert(ys.take(j as int) =~= ys.take(pj as int).push(ys[j - 1]));
        }
    }
}

/// The script from `(i, j)` has between `max(i, j)` and `i + j` operations.
pub proof fn lemma_script_len<X, Y>(c: CostModel<X, Y>, xs: Seq<X>, ys: Seq<Y>, i: nat, j: nat)
    ensures
        i <= script(c, xs, ys, i, j).len() <= i + j,
        j <= script(c, xs, ys, i, j).len(),
    decreases i + j,
{
    if i == 0 && j == 0 {
    } else if i == 0 {
        lemma_script_len(c, xs, ys, 0, (j - 1) as nat);
    } else if j == 0 {
        lemma_script_len(c, xs, ys, (i - 1) as nat, 0);
    } else {
        lemma_script_len(c, xs, ys, (i - 1) as nat, (j - 1) as nat);
        lemma_script_len(c, xs, ys, i, (j - 1) as nat);
        lemma_script_len(c, xs, ys, (i - 1) as nat, j);
    }
}

/// The script read back from `(i, j)` costs exactly the table's minimum at
/// `(i, j)`.
pub proof fn lemma_script_cost<X, Y>(c: CostModel<X, Y>, xs: Seq<X>, ys: Seq<Y>, i: nat, j: nat)
    ensures
        script_cost(c, script(c, xs, ys, i, j)) == cell_cost(c, xs, ys, i, j),
    decreases i + j,
{
    let s = script(c, xs, ys, i, j);
    if i == 0 && j == 0 {
    } else {
        let (pi, pj) = if i == 0 {
            (0nat, (j - 1) as nat)
        } else if j == 0 {
            ((i - 1) as nat, 0nat)
        } else {
            match step(c, xs, ys, i, j) {
                Trace::Keep => ((i - 1) as nat, (j - 1) as nat),
                Trace::Replace => ((i - 1) as nat, (j - 1) as nat),
                Trace::Append => (i, (j - 1) as nat),
                Trace::Remove => ((i - 1) as nat, j),
            }
        };
        lemma_script_cost(c, xs, ys, pi, pj);
        assert(s.drop_last() =~= script(c, xs, ys, pi, pj));
    }
}

/// The least of three costs.
pub open spec fn min3(a: nat, b: nat, c: nat) -> nat {
    if a <= b && a <= c {
        a
    } else if b <= c {
        b
    } else {
        c
    }
}

/// The classical edit distance: the least number of substitutions,
/// insertions and deletions that turn `a` into `b`.
pub open spec fn levenshtein<T>(a: Seq<T>, b: Seq<T>) -> nat
    decreases a.len() + b.len(),
{
    if a.len() == 0 {
        b.len()
    } else if b.len() == 0 {
        a.len()
    } else {
        min3(
            levenshtein(a.drop_last(), b.drop_last()) + if a.last() == b.last() {
                0nat
            } else {
                1nat
            },
            levenshtein(a, b.drop_last()) + 1,
            levenshtein(a.drop_last(), b) + 1,
        )
    }
}

/// A model with plain equality and a cost of one for every edit.
pub open spec fn is_unit_model<T>(c: CostModel<T, T>) -> bool {
    &&& forall|x: T, y: T| #[trigger] (c.same)(x, y) == (x == y)
    &&& forall|x: T, y: T| #[trigger] (c.replace)(x, y) == 1
    &&& forall|y: T| #[trigger] (c.append)(y) == 1
    &&& forall|x: T| #[trigger] (c.remove)(x) == 1
}

proof fn lemma_unit_cost_counts_edits<T>(c: CostModel<T, T>, ops: Seq<Merged<T, T>>)
    requires
        is_unit_model(c),
    ensures
        script_cost(c, ops) == edit_count(ops),
    decreases ops.len(),
{
    if ops.len() > 0 {
        lemma_unit_cost_counts_edits(c, ops.drop_last());
    }
}

proof fn lemma_unit_cell_is_levenshtein<T>(c: CostModel<T, T>, xs: Seq<T>, ys: Seq<T>, i: nat, j: nat)
    requires
        is_unit_model(c),
        i <= xs.len(),
        j <= ys.len(),
    ensures
        cell_cost(c, xs, ys, i, j) == levenshtein(xs.take(i as int), ys.take(j as int)),
    decreases i + j,
{
    let a = xs.take(i as int);
    let b = ys.take(j as int);
    if i == 0 && j == 0 {
    } else if i == 0 {
        lemma_unit_cell_is_levenshtein(c, xs, ys, 0, (j - 1) as nat);
        assert(ys.take(j - 1) =~= b.drop_last());
        assert(xs.take(0) =~= a);
    } else if j == 0 {
        lemma_unit_cell_is_levenshtein(c, xs, ys, (i - 1) as nat, 0);
        assert(xs.take(i - 1) =~= a.drop_last());
        assert(ys.take(0) =~= b);
    } else {
        lemma_unit_cell_is_levenshtein(c, xs, ys, (i - 1) as nat, (j - 1) as nat);
        lemma_unit_cell_is_levenshtein(c, xs, ys, i, (j - 1) as nat);
        lemma_unit_cell_is_levenshtein(c, xs, ys, (i - 1) as nat, j);
        assert(xs.take(i - 1) =~= a.drop_last());
        assert(ys.take(j - 1) =~= b.drop_last());
        assert(a.last() == xs[i - 1]);
        assert(b.last() == ys[j - 1]);
    }
}

/// With plain equality and unit costs, the number of replacements, appends
/// and removals in the script equals the Levenshtein distance of the two
/// sequences.
pub proof fn lemma_unit_costs_give_levenshtein<T>(c: CostModel<T, T>, xs: Seq<T>, ys: Seq<T>)
    requires
        is_unit_model(c),
    ensures
        edit_count(script(c, xs, ys, xs.len(), ys.len())) == levenshtein(xs, ys),
{
    lemma_script_cost(c, xs, ys, xs.len(), ys.len());
    lemma_unit_cost_counts_edits(c, script(c, xs, ys, xs.len(), ys.len()));
    lemma_unit_cell_is_levenshtein(c, xs, ys, xs.len(), ys.len());
    assert(xs.take(xs.len() as int) =~= xs);
    assert(ys.take(ys.len() as int) =~= ys);
}

proof fn lemma_diagonal_kept<T>(c: CostModel<T, T>, s: Seq<T>, i: nat)
    requires
        forall|x: T, y: T| #[trigger] (c.same)(x, y) == (x == y),
        i <= s.len(),
    ensures
        cell_cost(c, s, s, i, i) == 0,
        script(c, s, s, i, i) == all_kept(s.take(i as int)),
    decreases i,
{
    if i == 0 {
        assert(all_kept(s.take(0)) =~= Seq::empty());
    } else {
        lemma_diagonal_kept(c, s, (i - 1) as nat);
        assert((c.same)(s[i - 1], s[i - 1]));
        assert(diag_cost(c, s, s, i, i) == 0);
        assert(step(c, s, s, i, i) == Trace::Keep);
        assert(all_kept(s.take(i as int)) =~= all_kept(s.take(i - 1)).push(
            Merged::Keep(s[i - 1], s[i - 1]),
        ));
    }
}

/// Aligning a sequence with itself under plain equality keeps every element,
/// in order, whatever the costs.
pub proof fn lemma_identical_all_kept<T>(c: CostModel<T, T>, s: Seq<T>)
    requires
        forall|x: T, y: T| #[trigger] (c.same)(x, y) == (x == y),
    ensures
        script(c, s, s, s.len(), s.len()) == all_kept(s),
{
    lemma_diagonal_kept(c, s, s.len());
    assert(s.take(s.len() as int) =~= s);
}

/// Ties between candidates are broken in one fixed order: the diagonal (keep
/// or replace) before the left (append), the left before the upper (remove).
pub proof fn lemma_tie_break<X, Y>(c: CostModel<X, Y>, xs: Seq<X>, ys: Seq<Y>, i: nat, j: nat)
    requires
        0 < i <= xs.len(),
        0 < j <= ys.len(),
    ensures
        diag_cost(c, xs, ys, i, j) == left_cost(c, xs, ys, i, j) == up_cost(c, xs, ys, i, j)
            ==> step(c, xs, ys, i, j) == if (c.same)(xs[i - 1], ys[j - 1]) {
            Trace::Keep
        } else {
            Trace::Replace
        },
        left_cost(c, xs, ys, i, j) == up_cost(c, xs, ys, i, j) < diag_cost(c, xs, ys, i, j)
            ==> step(c, xs, ys, i, j) == Trace::Append,
{
}

/// Every `Keep` of a script pairs two elements that the model calls the same.
pub open spec fn keeps_are_same<X, Y>(c: CostModel<X, Y>, ops: Seq<Merged<X, Y>>) -> bool {
    forall|k: int|
        0 <= k < ops.len() ==> match #[trigger] ops[k] {
            Merged::Keep(x, y) => (c.same)(x, y),
            _ => true,
        }
}

/// A script that turns `xs` into `ys`: it consumes both in order and keeps
/// only pairs that are the same.
pub open spec fn is_alignment<X, Y>(c: CostModel<X, Y>, ops: Seq<Merged<X, Y>>, xs: Seq<X>, ys: Seq<Y>) -> bool {
    &&& x_side(ops) == xs
    &&& y_side(ops) == ys
    &&& keeps_are_same(c, ops)
}

/// Every `Keep` of the script pairs elements that the model calls the same.
pub proof fn lemma_script_keeps_same<X, Y>(c: CostModel<X, Y>, xs: Seq<X>, ys: Seq<Y>, i: nat, j: nat)
    ensures
        keeps_are_same(c, script(c, xs, ys, i, j)),
    decreases i + j,
{
    let s = script(c, xs, ys, i, j);
    if i == 0 && j == 0 {
    } else {
        let (pi, pj) = if i == 0 {
            (0nat, (j - 1) as nat)
        } else if j == 0 {
            ((i - 1) as nat, 0nat)
        } else {
            match step(c, xs, ys, i, j) {
                Trace::Keep => ((i - 1) as nat, (j - 1) as nat),
                Trace::Replace => ((i - 1) as nat, (j - 1) as nat),
                Trace::Append => (i, (j - 1) as nat),
                Trace::Remove => ((i - 1) as nat, j),
            }
        };
        lemma_script_keeps_same(c, xs, ys, pi, pj);
        let p = script(c, xs, ys, pi, pj);
        assert forall|k: int| 0 <= k < s.len() implies match #[trigger] s[k] {
            Merged::Keep(x, y) => (c.same)(x, y),
            _ => true,
        } by {
            if k < p.len() {
                assert(s[k] == p[k]);
            }
        }
    }
}

/// A table cell is no more than any of its candidates.
proof fn lemma_cell_at_most_candidates<X, Y>(c: CostModel<X, Y>, xs: Seq<X>, ys: Seq<Y>, i: nat, j: nat)
    ensures
        j > 0 ==> cell_cost(c, xs, ys, i, j) <= left_cost(c, xs, ys, i, j),
        i > 0 ==> cell_cost(c, xs, ys, i, j) <= up_cost(c, xs, ys, i, j),
        i > 0 && j > 0 ==> cell_cost(c, xs, ys, i, j) <= cell_cost(
            c,
            xs,
            ys,
            (i - 1) as nat,
            (j - 1) as nat,
        ) + (c.replace)(xs[i - 1], ys[j - 1]),
        i > 0 && j > 0 && (c.same)(xs[i - 1], ys[j - 1]) ==> cell_cost(c, xs, ys, i, j) <= cell_cost(
            c,
            xs,
            ys,
            (i - 1) as nat,
            (j - 1) as nat,
        ),
{
}

proof fn lemma_alignment_cost_at_least_cell<X, Y>(
    c: CostModel<X, Y>,
    xs: Seq<X>,
    ys: Seq<Y>,
    ops: Seq<Merged<X, Y>>,
    i: nat,
    j: nat,
)
    requires
        i <= xs.len(),
        j <= ys.len(),
        is_alignment(c, ops, xs.take(i as int), ys.take(j as int)),
    ensures
        cell_cost(c, xs, ys, i, j) <= script_cost(c, ops),
    decreases ops.len(),
{
    if ops.len() == 0 {
        assert(xs.take(i as int).len() == 0);
        assert(ys.take(j as int).len() == 0);
    } else {
        let p = ops.drop_last();
        let last = ops.last();
        assert(keeps_are_same(c, p)) by {
            assert forall|k: int| 0 <= k < p.len() implies match #[trigger] p[k] {
                Merged::Keep(x, y) => (c.same)(x, y),
                _ => true,
            } by {
                assert(p[k] == ops[k]);
            }
        }
        assert(ops[ops.len() - 1] == last);
        lemma_cell_at_most_candidates(c, xs, ys, i, j);
        match last {
            Merged::Keep(x, y) => {
                assert(x_side(p).push(x).drop_last() =~= x_side(p));
                assert(x_side(p).push(x)[x_side(p).len() as int] == x);
                assert(xs.take(i as int)[i - 1] == xs[i - 1]);
                assert(y_side(p).push(y).drop_last() =~= y_side(p));
                assert(y_side(p).push(y)[y_side(p).len() as int] == y);
                assert(ys.take(j as int)[j - 1] == ys[j - 1]);
                assert(xs.take(i as int).drop_last() =~= xs.take(i - 1));
                assert(ys.take(j as int).drop_last() =~= ys.take(j - 1));
                lemma_alignment_cost_at_least_cell(c, xs, ys, p, (i - 1) as nat, (j - 1) as nat);
            },
            Merged::Replace(x, y) => {
                assert(x_side(p).push(x).drop_last() =~= x_side(p));
                assert(x_side(p).push(x)[x_side(p).len() as int] == x);
                assert(xs.take(i as int)[i - 1] == xs[i - 1]);
                assert(y_side(p).push(y).drop_last() =~= y_side(p));
                assert(y_side(p).push(y)[y_side(p).len() as int] == y);
                assert(ys.take(j as int)[j - 1] == ys[j - 1]);
                assert(xs.take(i as int).drop_last() =~= xs.take(i - 1));
                assert(ys.take(j as int).drop_last() =~= ys.take(j - 1));
                lemma_alignment_cost_at_least_cell(c, xs, ys, p, (i - 1) as nat, (j - 1) as nat);
            },
            Merged::Append(y) => {
                assert(y_side(p).push(y).drop_last() =~= y_side(p));
                assert(y_side(p).push(y)[y_side(p).len() as int] == y);
                assert(ys.take(j as int)[j - 1] == ys[j - 1]);
                assert(ys.take(j as int).drop_last() =~= ys.take(j - 1));
                lemma_alignment_cost_at_least_cell(c, xs, ys, p, i, (j - 1) as nat);
            },
            Merged::Remove(x) => {
                assert(x_side(p).push(x).drop_last() =~= x_side(p));
                assert(x_side(p).push(x)[x_side(p).len() as int] == x);
                assert(xs.take(i as int)[i - 1] == xs[i - 1]);
                assert(xs.take(i as int).drop_last() =~= xs.take(i - 1));
                lemma_alignment_cost_at_least_cell(c, xs, ys, p, (i - 1) as nat, j);
            },
        }
    }
}

/// The script is an alignment of `xs` with `ys`, and no alignment of the two
/// costs less under the same model.
pub proof fn lemma_script_is_optimal<X, Y>(
    c: CostModel<X, Y>,
    xs: Seq<X>,
    ys: Seq<Y>,
    ops: Seq<Merged<X, Y>>,
)
    requires
        is_alignment(c, ops, xs, ys),
    ensures
        is_alignment(c, script(c, xs, ys, xs.len(), ys.len()), xs, ys),
        script_cost(c, script(c, xs, ys, xs.len(), ys.len())) <= script_cost(c, ops),
{
    lemma_script_sides(c, xs, ys, xs.len(), ys.len());
    lemma_script_keeps_same(c, xs, ys, xs.len(), ys.len());
    lemma_script_cost(c, xs, ys, xs.len(), ys.len());
    assert(xs.take(xs.len() as int) =~= xs);
    assert(ys.take(ys.len() as int) =~= ys);
    lemma_alignment_cost_at_least_cell(c, xs, ys, ops, xs.len(), ys.len());
}

} // verus!
