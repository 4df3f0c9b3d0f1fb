use vstd::prelude::*;
use crate::merged::Merged;

verus! {

/// The caller's policy as mathematical functions: when two elements count as
/// the same, and what each kind of operation costs.
#[verifier::reject_recursive_types(X)]
#[verifier::reject_recursive_types(Y)]
pub struct CostModel<X, Y> {
    pub same: spec_fn(X, Y) -> bool,
    pub replace: spec_fn(X, Y) -> nat,
    pub append: spec_fn(Y) -> nat,
    pub remove: spec_fn(X) -> nat,
}

/// Which operation produced the minimum at a table cell.
#[derive(Clone, Copy, Debug, PartialEq, Eq, Structural)]
pub enum Trace {
    Replace,
    Append,
    Remove,
    Keep,
}

/// Minimum cost of aligning `xs[..i]` with `ys[..j]`.
///
/// The first row and column are running sums of append and remove costs. An
/// inner cell takes the least of the diagonal (keep or replace), left
/// (append) and upper (remove) candidates.
pub open spec fn cell_cost<X, Y>(c: CostModel<X, Y>, xs: Seq<X>, ys: Seq<Y>, i: nat, j: nat) -> nat
    decreases i + j,
{
    if i == 0 && j == 0 {
        0
    } else if i == 0 {
        cell_cost(c, xs, ys, 0, (j - 1) as nat) + (c.append)(ys[j - 1])
    } else if j == 0 {
        cell_cost(c, xs, ys, (i - 1) as nat, 0) + (c.remove)(xs[i - 1])
    } else {
        let x = xs[i - 1];
        let y = ys[j - 1];
        let diag = cell_cost(c, xs, ys, (i - 1) as nat, (j - 1) as nat)
            + if (c.same)(x, y) { 0nat } else { (c.replace)(x, y) };
        let left = cell_cost(c, xs, ys, i, (j - 1) as nat) + (c.append)(y);
        let up = cell_cost(c, xs, ys, (i - 1) as nat, j) + (c.remove)(x);
        if diag <= left && diag <= up {
            diag
        } else if left <= up {
            left
        } else {
            up
        }
    }
}

/// Diagonal candidate of an inner cell: keep when the elements are the same,
/// replace otherwise.
pub open spec fn diag_cost<X, Y>(c: CostModel<X, Y>, xs: Seq<X>, ys: Seq<Y>, i: nat, j: nat) -> nat
    recommends
        i > 0,
        j > 0,
{
    cell_cost(c, xs, ys, (i - 1) as nat, (j - 1) as nat) + if (c.same)(xs[i - 1], ys[j - 1]) {
        0nat
    } else {
        (c.replace)(xs[i - 1], ys[j - 1])
    }
}

/// Left candidate of a cell: append `ys[j - 1]`.
pub open spec fn left_cost<X, Y>(c: CostModel<X, Y>, xs: Seq<X>, ys: Seq<Y>, i: nat, j: nat) -> nat
    recommends
        j > 0,
{
    cell_cost(c, xs, ys, i, (j - 1) as nat) + (c.append)(ys[j - 1])
}

/// Upper candidate of a cell: remove `xs[i - 1]`.
pub open spec fn up_cost<X, Y>(c: CostModel<X, Y>, xs: Seq<X>, ys: Seq<Y>, i: nat, j: nat) -> nat
    recommends
        i > 0,
{
    cell_cost(c, xs, ys, (i - 1) as nat, j) + (c.remove)(xs[i - 1])
}

/// The operation recorded at a cell. Ties go to the diagonal first, then to
/// the left, then to the upper candidate.
pub open spec fn step<X, Y>(c: CostModel<X, Y>, xs: Seq<X>, ys: Seq<Y>, i: nat, j: nat) -> Trace {
    if i == 0 {
        Trace::Append
    } else if j == 0 {
        Trace::Remove
    } else {
        let diag = diag_cost(c, xs, ys, i, j);
        let left = left_cost(c, xs, ys, i, j);
        let up = up_cost(c, xs, ys, i, j);
        if diag <= left && diag <= up {
            if (c.same)(xs[i - 1], ys[j - 1]) {
                Trace::Keep
            } else {
                Trace::Replace
            }
        } else if left <= up {
            Trace::Append
        } else {
            Trace::Remove
        }
    }
}

/// The script read back from the cell `(i, j)` to the origin, in forward order.
pub open spec fn script<X, Y>(c: CostModel<X, Y>, xs: Seq<X>, ys: Seq<Y>, i: nat, j: nat) -> Seq<
    Merged<X, Y>,
>
    decreases i + j,
{
    if i == 0 && j == 0 {
        Seq::empty()
    } else if i == 0 {
        script(c, xs, ys, 0, (j - 1) as nat).push(Merged::Append(ys[j - 1]))
    } else if j == 0 {
        script(c, xs, ys, (i - 1) as nat, 0).push(Merged::Remove(xs[i - 1]))
    } else {
        match step(c, xs, ys, i, j) {
            Trace::Keep => script(c, xs, ys, (i - 1) as nat, (j - 1) as nat).push(
                Merged::Keep(xs[i - 1], ys[j - 1]),
            ),
            Trace::Replace => script(c, xs, ys, (i - 1) as nat, (j - 1) as nat).push(
                Merged::Replace(xs[i - 1], ys[j - 1]),
            ),
            Trace::Append => script(c, xs, ys, i, (j - 1) as nat).push(Merged::Append(ys[j - 1])),
            Trace::Remove => script(c, xs, ys, (i - 1) as nat, j).push(Merged::Remove(xs[i - 1])),
        }
    }
}

/// Total cost of a script under a model: keeping is free.
pub open spec fn script_cost<X, Y>(c: CostModel<X, Y>, ops: Seq<Merged<X, Y>>) -> nat
    decreases ops.len(),
{
    if ops.len() == 0 {
        0
    } else {
        script_cost(c, ops.drop_last()) + match ops.last() {
            Merged::Replace(x, y) => (c.replace)(x, y),
            Merged::Append(y) => (c.append)(y),
            Merged::Remove(x) => (c.remove)(x),
            Merged::Keep(_, _) => 0nat,
        }
    }
}

/// A function of two references that may be called on any pair and always
/// gives one answer for the same pair.
pub open spec fn functional2<X, Y, T, F: Fn(&X, &Y) -> T>(f: F) -> bool {
    &&& forall|x: X, y: Y| call_requires(f, (&x, &y))
    &&& forall|x: X, y: Y, r1: T, r2: T|
        #[trigger] call_ensures(f, (&x, &y), r1) && #[trigger] call_ensures(f, (&x, &y), r2) ==> r1
            == r2
}

/// A function of one reference that may be called on any value and always
/// gives one answer for the same value.
pub open spec fn functional1<X, T, F: Fn(&X) -> T>(f: F) -> bool {
    &&& forall|x: X| call_requires(f, (&x,))
    &&& forall|x: X, r1: T, r2: T|
        #[trigger] call_ensures(f, (&x,), r1) && #[trigger] call_ensures(f, (&x,), r2) ==> r1 == r2
}

/// The answer of a two-argument function on a pair.
pub open spec fn result2<X, Y, T, F: Fn(&X, &Y) -> T>(f: F, x: X, y: Y) -> T {
    choose|r: T| call_ensures(f, (&x, &y), r)
}

/// The answer of a one-argument function on a value.
pub open spec fn result1<X, T, F: Fn(&X) -> T>(f: F, x: X) -> T {
    choose|r: T| call_ensures(f, (&x,), r)
}

/// The model of four caller-supplied functions.
pub open spec fn model_of<X, Y, S, R, A, D>(
    is_same: S,
    cost_of_replace: R,
    cost_of_append: A,
    cost_of_remove: D,
) -> CostModel<X, Y> where
    S: Fn(&X, &Y) -> bool,
    R: Fn(&X, &Y) -> u32,
    A: Fn(&Y) -> u32,
    D: Fn(&X) -> u32,
 {
    CostModel {
        same: |x: X, y: Y| result2(is_same, x, y),
        replace: |x: X, y: Y| result2(cost_of_replace, x, y) as nat,
        append: |y: Y| result1(cost_of_append, y) as nat,
        remove: |x: X| result1(cost_of_remove, x) as nat,
    }
}

/// What a call of a functional two-argument function returned is its answer.
pub proof fn lemma_result2<X, Y, T, F: Fn(&X, &Y) -> T>(f: F, x: X, y: Y, r: T)
    requires
        functional2(f),
        call_ensures(f, (&x, &y), r),
    ensures
        result2(f, x, y) == r,
{
}

/// What a call of a functional one-argument function returned is its answer.
pub proof fn lemma_result1<X, T, F: Fn(&X) -> T>(f: F, x: X, r: T)
    requires
        functional1(f),
        call_ensures(f, (&x,), r),
    ensures
        result1(f, x) == r,
{
}

} // verus!

verus! {

/// Every cost of a model built from `u32` functions is at most `u32::MAX`,
/// so a cell costs at most `(i + j) * u32::MAX`.
pub proof fn lemma_cell_cost_bound<X, Y>(c: CostModel<X, Y>, xs: Seq<X>, ys: Seq<Y>, i: nat, j: nat)
    requires
        i <= xs.len(),
        j <= ys.len(),
        forall|x: X, y: Y| #[trigger] (c.replace)(x, y) <= 0xffff_ffff,
        forall|y: Y| #[trigger] (c.append)(y) <= 0xffff_ffff,
        forall|x: X| #[trigger] (c.remove)(x) <= 0xffff_ffff,
    ensures
        cell_cost(c, xs, ys, i, j) <= (i + j) * 0xffff_ffff,
    decreases i + j,
{
    if i == 0 && j == 0 {
    } else if i == 0 {
        lemma_cell_cost_bound(c, xs, ys, 0, (j - 1) as nat);
    } else if j == 0 {
        lemma_cell_cost_bound(c, xs, ys, (i - 1) as nat, 0);
    } else {
        lemma_cell_cost_bound(c, xs, ys, (i - 1) as nat, (j - 1) as nat);
        lemma_cell_cost_bound(c, xs, ys, i, (j - 1) as nat);
        lemma_cell_cost_bound(c, xs, ys, (i - 1) as nat, j);
    }
}

} // verus!
