use vstd::prelude::*;
use std::collections::VecDeque;
use crate::merged::{Merged, x_side, y_side, all_appended, all_removed};
use crate::model::{Trace, script, script_cost, step, model_of, functional1, functional2, cell_cost, diag_cost, left_cost, up_cost, lemma_result1, lemma_result2, lemma_cell_cost_bound};
use crate::laws::{is_alignment, lemma_script_is_optimal, lemma_script_keeps_same, lemma_script_sides, lemma_script_len, lemma_left_degenerate, lemma_right_degenerate};

verus! {

/// Aligns `xs` with `ys` at least total cost and returns the edit script.
///
/// `is_same` decides whether a pair may be kept at no cost; the three cost
/// functions price a replacement, an append and a removal. The first row and
/// column of the cost table are running sums of the append and remove costs
/// of the prefix, so that every cell holds the true least cost of aligning
/// the two prefixes. Ties prefer keep or replace, then append, then remove.
/// Each element of `xs` and `ys` moves into exactly one operation.
///
/// Costs are non-negative whole numbers; the table holds their sums as
/// `u128`, which no pair of sequences can overflow. The four functions must
/// accept every argument and answer the same way each time they are asked.
pub fn merge<X, Y>(
    xs: VecDeque<X>,
    ys: VecDeque<Y>,
    is_same: impl Fn(&X, &Y) -> bool,
    cost_of_replace: impl Fn(&X, &Y) -> u32,
    cost_of_append: impl Fn(&Y) -> u32,
    cost_of_remove: impl Fn(&X) -> u32,
) -> (res: VecDeque<Merged<X, Y>>)
    requires
        functional2(is_same),
        functional2(cost_of_replace),
        functional1(cost_of_append),
        functional1(cost_of_remove),
    ensures
        res@ == script(
            model_of(is_same, cost_of_replace, cost_of_append, cost_of_remove),
            xs@,
            ys@,
            xs@.len(),
            ys@.len(),
        ),
        xs@.len() == 0 ==> res@ == all_appended::<X, Y>(ys@),
        ys@.len() == 0 ==> res@ == all_removed::<X, Y>(xs@),
        x_side(res@) == xs@,
        y_side(res@) == ys@,
        xs@.len() <= res@.len() <= xs@.len() + ys@.len(),
        ys@.len() <= res@.len(),
        is_alignment(
            model_of(is_same, cost_of_replace, cost_of_append, cost_of_remove),
            res@,
            xs@,
            ys@,
        ),
        forall|ops: Seq<Merged<X, Y>>|
            is_alignment(
                model_of(is_same, cost_of_replace, cost_of_append, cost_of_remove),
                ops,
                xs@,
                ys@,
            ) ==> script_cost(model_of(is_same, cost_of_replace, cost_of_append, cost_of_remove), res@)
                <= #[trigger] script_cost(
                model_of(is_same, cost_of_replace, cost_of_append, cost_of_remove),
                ops,
            ),
{
    let ghost c = model_of::<X, Y, _, _, _, _>(is_same, cost_of_replace, cost_of_append, cost_of_remove);
    let ghost xs0 = xs@;
    let ghost ys0 = ys@;
    let ghost m = xs@.len();
    let ghost n = ys@.len();
    proof {
        if m == 0 {
            lemma_left_degenerate(c, xs0, ys0);
        }
        if n == 0 {
            lemma_right_degenerate(c, xs0, ys0);
        }
        lemma_script_sides(c, xs0, ys0, m, n);
        lemma_script_len(c, xs0, ys0, m, n);
        lemma_script_keeps_same(c, xs0, ys0, m, n);
        assert(xs0.take(m as int) =~= xs0);
        assert(ys0.take(n as int) =~= ys0);
        assert(is_alignment(c, script(c, xs0, ys0, m, n), xs0, ys0));
        assert forall|ops: Seq<Merged<X, Y>>| is_alignment(c, ops, xs0, ys0) implies script_cost(
            c,
            script(c, xs0, ys0, m, n),
        ) <= #[trigger] script_cost(c, ops) by {
            lemma_script_is_optimal(c, xs0, ys0, ops);
        }
    }
    let mut xs = xs;
    let mut ys = ys;
    if xs.len() == 0 {
        let mut res: VecDeque<Merged<X, Y>> = VecDeque::new();
        while ys.len() > 0
            invariant
                all_appended::<X, Y>(ys@) + res@ == all_appended::<X, Y>(ys0),
            decreases ys@.len(),
        {
            let y = ys.pop_back().unwrap();
            proof {
                assert(all_appended::<X, Y>(ys@) + (seq![Merged::Append(y)] + res@)
                    =~= all_appended::<X, Y>(ys0));
            }
            res.push_front(Merged::Append(y));
        }
        assert(res@ =~= all_appended::<X, Y>(ys0));
        return res;
    }
    if ys.len() == 0 {
        let mut res: VecDeque<Merged<X, Y>> = VecDeque::new();
        while xs.len() > 0
            invariant
                all_removed::<X, Y>(xs@) + res@ == all_removed::<X, Y>(xs0),
            decreases xs@.len(),
        {
            let x = xs.pop_back().unwrap();
            proof {
                assert(all_removed::<X, Y>(xs@) + (seq![Merged::Remove(x)] + res@)
                    =~= all_removed::<X, Y>(xs0));
            }
            res.push_front(Merged::Remove(x));
        }
        assert(res@ =~= all_removed::<X, Y>(xs0));
        return res;
    }
    let traces = fill_table(&xs, &ys, &is_same, &cost_of_replace, &cost_of_append, &cost_of_remove);
    let mut res: VecDeque<Merged<X, Y>> = VecDeque::new();
    let mut i: usize = xs.len();
    let mut j: usize = ys.len();
    while i > 0 || j > 0
        invariant
            c == model_of::<X, Y, _, _, _, _>(is_same, cost_of_replace, cost_of_append, cost_of_remove),
            m == xs0.len(),
            n == ys0.len(),
            i <= m,
            j <= n,
            xs@ == xs0.take(i as int),
            ys@ == ys0.take(j as int),
            traces@.len() == m + 1,
            forall|a: int| 0 <= a <= m ==> (#[trigger] traces@[a])@.len() == n + 1,
            forall|a: int, b: int|
                0 <= a <= m && 0 <= b <= n ==> traces@[a]@[b] == step(c, xs0, ys0, a as nat, b as nat),
            script(c, xs0, ys0, i as nat, j as nat) + res@ == script(c, xs0, ys0, m, n),
        decreases i + j,
    {
        let t = traces[i][j];
        if i > 0 && j > 0 && (t == Trace::Keep || t == Trace::Replace) {
            let x = xs.pop_back().unwrap();
            let y = ys.pop_back().unwrap();
            let op = if t == Trace::Keep { Merged::Keep(x, y) } else { Merged::Replace(x, y) };
            proof {
                assert(script(c, xs0, ys0, (i - 1) as nat, (j - 1) as nat) + (seq![op] + res@)
                    =~= script(c, xs0, ys0, i as nat, j as nat) + res@);
                assert(xs@ =~= xs0.take(i - 1));
                assert(ys@ =~= ys0.take(j - 1));
            }
            res.push_front(op);
            i -= 1;
            j -= 1;
        } else if i == 0 || (j > 0 && t == Trace::Append) {
            let y = ys.pop_back().unwrap();
            proof {
                assert(script(c, xs0, ys0, i as nat, (j - 1) as nat) + (seq![Merged::Append(y)] + res@)
                    =~= script(c, xs0, ys0, i as nat, j as nat) + res@);
                assert(ys@ =~= ys0.take(j - 1));
            }
            res.push_front(Merged::Append(y));
            j -= 1;
        } else {
            let x = xs.pop_back().unwrap();
            proof {
                assert(script(c, xs0, ys0, (i - 1) as nat, j as nat) + (seq![Merged::Remove(x)] + res@)
                    =~= script(c, xs0, ys0, i as nat, j as nat) + res@);
                assert(xs@ =~= xs0.take(i - 1));
            }
            res.push_front(Merged::Remove(x));
            i -= 1;
        }
    }
    assert(res@ =~= script(c, xs0, ys0, m, n));
    res
}

/// Fills the table of recorded operations for `xs` against `ys`, row by row,
/// keeping only the previous row of costs.
fn fill_table<X, Y, S, R, A, D>(
    xs: &VecDeque<X>,
    ys: &VecDeque<Y>,
    is_same: &S,
    cost_of_replace: &R,
    cost_of_append: &A,
    cost_of_remove: &D,
) -> (traces: Vec<Vec<Trace>>) where
    S: Fn(&X, &Y) -> bool,
    R: Fn(&X, &Y) -> u32,
    A: Fn(&Y) -> u32,
    D: Fn(&X) -> u32,

    requires
        functional2(*is_same),
        functional2(*cost_of_replace),
        functional1(*cost_of_append),
        functional1(*cost_of_remove),
    ensures
        traces@.len() == xs@.len() + 1,
        forall|a: int| 0 <= a <= xs@.len() ==> (#[trigger] traces@[a])@.len() == ys@.len() + 1,
        forall|a: int, b: int|
            0 <= a <= xs@.len() && 0 <= b <= ys@.len() ==> traces@[a]@[b] == step(
                model_of(*is_same, *cost_of_replace, *cost_of_append, *cost_of_remove),
                xs@,
                ys@,
                a as nat,
                b as nat,
            ),
{
    let ghost c = model_of::<X, Y, _, _, _, _>(*is_same, *cost_of_replace, *cost_of_append, *cost_of_remove);
    let m = xs.len();
    let n = ys.len();
    // first row: appends only
    let mut prev: Vec<u128> = Vec::new();
    let mut row: Vec<Trace> = Vec::new();
    prev.push(0);
    row.push(Trace::Append);
    let mut j: usize = 0;
    while j < n
        invariant
            c == model_of::<X, Y, _, _, _, _>(*is_same, *cost_of_replace, *cost_of_append, *cost_of_remove),
            functional1(*cost_of_append),
            n == ys@.len(),
            j <= n,
            prev@.len() == j + 1,
            row@.len() == j + 1,
            forall|b: int| 0 <= b <= j ==> prev@[b] == cell_cost(c, xs@, ys@, 0, b as nat),
            forall|b: int| 0 <= b <= j ==> row@[b] == step(c, xs@, ys@, 0, b as nat),
        decreases n - j,
    {
        let a = cost_of_append(&ys[j]);
        proof {
            lemma_result1(*cost_of_append, ys@[j as int], a);
            lemma_cell_cost_bound(c, xs@, ys@, 0, (j + 1) as nat);
        }
        let v = prev[j] + a as u128;
        prev.push(v);
        row.push(Trace::Append);
        j += 1;
    }
    let mut traces: Vec<Vec<Trace>> = Vec::new();
    traces.push(row);
    let mut i: usize = 0;
    while i < m
        invariant
            c == model_of::<X, Y, _, _, _, _>(*is_same, *cost_of_replace, *cost_of_append, *cost_of_remove),
            functional2(*is_same),
            functional2(*cost_of_replace),
            functional1(*cost_of_append),
            functional1(*cost_of_remove),
            m == xs@.len(),
            n == ys@.len(),
            i <= m,
            prev@.len() == n + 1,
            forall|b: int| 0 <= b <= n ==> prev@[b] == cell_cost(c, xs@, ys@, i as nat, b as nat),
            traces@.len() == i + 1,
            forall|a: int| 0 <= a <= i ==> (#[trigger] traces@[a])@.len() == n + 1,
            forall|a: int, b: int|
                0 <= a <= i && 0 <= b <= n ==> traces@[a]@[b] == step(c, xs@, ys@, a as nat, b as nat),
        decreases m - i,
    {
        let x = &xs[i];
        let r0 = cost_of_remove(x);
        proof {
            lemma_result1(*cost_of_remove, xs@[i as int], r0);
            lemma_cell_cost_bound(c, xs@, ys@, (i + 1) as nat, 0);
        }
        let mut cur: Vec<u128> = Vec::new();
        let mut row: Vec<Trace> = Vec::new();
        cur.push(prev[0] + r0 as u128);
        row.push(Trace::Remove);
        let mut j: usize = 0;
        while j < n
            invariant
                c == model_of::<X, Y, _, _, _, _>(*is_same, *cost_of_replace, *cost_of_append, *cost_of_remove),
                functional2(*is_same),
                functional2(*cost_of_replace),
                functional1(*cost_of_append),
                functional1(*cost_of_remove),
                m == xs@.len(),
                n == ys@.len(),
                i < m,
                *x == xs@[i as int],
                j <= n,
                prev@.len() == n + 1,
                forall|b: int| 0 <= b <= n ==> prev@[b] == cell_cost(c, xs@, ys@, i as nat, b as nat),
                cur@.len() == j + 1,
                row@.len() == j + 1,
                forall|b: int| 0 <= b <= j ==> cur@[b] == cell_cost(c, xs@, ys@, (i + 1) as nat, b as nat),
                forall|b: int| 0 <= b <= j ==> row@[b] == step(c, xs@, ys@, (i + 1) as nat, b as nat),
            decreases n - j,
        {
            let y = &ys[j];
            let keep = is_same(x, y);
            let app = cost_of_append(y);
            let rem = cost_of_remove(x);
            proof {
                lemma_result2(*is_same, xs@[i as int], ys@[j as int], keep);
                lemma_result1(*cost_of_append, ys@[j as int], app);
                lemma_result1(*cost_of_remove, xs@[i as int], rem);
                lemma_cell_cost_bound(c, xs@, ys@, i as nat, j as nat);
                lemma_cell_cost_bound(c, xs@, ys@, (i + 1) as nat, j as nat);
                lemma_cell_cost_bound(c, xs@, ys@, i as nat, (j + 1) as nat);
            }
            let diag = if keep {
                prev[j]
            } else {
                let rep = cost_of_replace(x, y);
                proof {
                    lemma_result2(*cost_of_replace, xs@[i as int], ys@[j as int], rep);
                }
                prev[j] + rep as u128
            };
            let left = cur[j] + app as u128;
            let up = prev[j + 1] + rem as u128;
            proof {
                assert(diag == diag_cost(c, xs@, ys@, (i + 1) as nat, (j + 1) as nat));
                assert(left == left_cost(c, xs@, ys@, (i + 1) as nat, (j + 1) as nat));
                assert(up == up_cost(c, xs@, ys@, (i + 1) as nat, (j + 1) as nat));
            }
            if diag <= left && diag <= up {
                cur.push(diag);
                row.push(if keep { Trace::Keep } else { Trace::Replace });
            } else if left <= up {
                cur.push(left);
                row.push(Trace::Append);
            } else {
                cur.push(up);
                row.push(Trace::Remove);
            }
            j += 1;
        }
        traces.push(row);
        prev = cur;
        i += 1;
    }
    traces
}

} // verus!
