use vstd::prelude::*;

verus! {

/// One edit operation of an alignment script.
#[derive(Clone, Debug, PartialEq, Eq)]
pub enum Merged<X, Y> {
    /// `x` is substituted by `y`.
    Replace(X, Y),
    /// `y` is inserted with no counterpart in the first sequence.
    Append(Y),
    /// `x` is deleted with no counterpart in the second sequence.
    Remove(X),
    /// `x` and `y` are judged the same and paired.
    Keep(X, Y),
}

/// The elements of the first sequence that a script consumes, in script order.
pub open spec fn x_side<X, Y>(ops: Seq<Merged<X, Y>>) -> Seq<X>
    decreases ops.len(),
{
    if ops.len() == 0 {
        Seq::empty()
    } else {
        let rest = x_side(ops.drop_last());
        match ops.last() {
            Merged::Replace(x, _) => rest.push(x),
            Merged::Remove(x) => rest.push(x),
            Merged::Keep(x, _) => rest.push(x),
            Merged::Append(_) => rest,
        }
    }
}

/// The elements of the second sequence that a script consumes, in script order.
pub open spec fn y_side<X, Y>(ops: Seq<Merged<X, Y>>) -> Seq<Y>
    decreases ops.len(),
{
    if ops.len() == 0 {
        Seq::empty()
    } else {
        let rest = y_side(ops.drop_last());
        match ops.last() {
            Merged::Replace(_, y) => rest.push(y),
            Merged::Append(y) => rest.push(y),
            Merged::Keep(_, y) => rest.push(y),
            Merged::Remove(_) => rest,
        }
    }
}

/// Every element of `ys`, in order, as an `Append`.
pub open spec fn all_appended<X, Y>(ys: Seq<Y>) -> Seq<Merged<X, Y>> {
    ys.map_values(|y: Y| Merged::Append(y))
}

/// Every element of `xs`, in order, as a `Remove`.
pub open spec fn all_removed<X, Y>(xs: Seq<X>) -> Seq<Merged<X, Y>> {
    xs.map_values(|x: X| Merged::Remove(x))
}

/// Every element of `s`, in order, kept against itself.
pub open spec fn all_kept<T>(s: Seq<T>) -> Seq<Merged<T, T>> {
    s.map_values(|x: T| Merged::Keep(x, x))
}

/// The number of operations of a script that are not `Keep`.
pub open spec fn edit_count<X, Y>(ops: Seq<Merged<X, Y>>) -> nat
    decreases ops.len(),
{
    if ops.len() == 0 {
        0
    } else {
        edit_count(ops.drop_last()) + if ops.last() is Keep { 0nat } else { 1nat }
    }
}

} // verus!
