use vstd::prelude::*;

verus! {

/// A one-argument cost function that ignores its argument and returns `cost`.
pub fn constant_cost1<T>(cost: u32) -> (f: impl Fn(&T) -> u32)
    ensures
        forall|x: &T| call_requires(f, (x,)),
        forall|x: &T, r: u32| call_ensures(f, (x,), r) ==> r == cost,
{
    move |_x: &T| -> (r: u32)
        ensures
            r == cost,
        { cost }
}

/// A two-argument cost function that ignores its arguments and returns `cost`.
pub fn constant_cost2<T, U>(cost: u32) -> (f: impl Fn(&T, &U) -> u32)
    ensures
        forall|x: &T, y: &U| call_requires(f, (x, y)),
        forall|x: &T, y: &U, r: u32| call_ensures(f, (x, y), r) ==> r == cost,
{
    move |_x: &T, _y: &U| -> (r: u32)
        ensures
            r == cost,
        { cost }
}

} // verus!
