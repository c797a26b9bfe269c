//! Small higher-order helpers: applying a function value, feeding one a
//! fixed argument, walking a slice with one, mapping one over a slice, and
//! calling one on each number below ten.

use vstd::prelude::*;

verus! {

/// Applies the function to the number and hands its result back.
pub fn apply<F: Fn(i32) -> i32>(i: i32, f: F) -> (r: i32)
    requires
        call_requires(f, (i,)),
    ensures
        call_ensures(f, (i,), r),
{
    f(i)
}

/// Calls the function on ten.
pub fn call_closure_with_ten<F: Fn(i32)>(b: F)
    requires
        call_requires(b, (10i32,)),
    ensures
        call_ensures(b, (10i32,), ()),
{
    b(10);
}

/// Calls the operation on ten.
pub fn call_it<F: Fn(i32)>(op: F)
    requires
        call_requires(op, (10i32,)),
    ensures
        call_ensures(op, (10i32,), ()),
{
    op(10)
}

/// Calls the operation once on each element of the slice, front to back.
pub fn each<F: Fn(&i32)>(v: &[i32], op: F)
    requires
        forall|x: &i32| call_requires(op, (x,)),
    ensures
        forall|j: int| 0 <= j < v@.len() ==> call_ensures(op, (&v@[j],), ()),
{
    let mut n: usize = 0;
    while n < v.len()
        invariant
            n <= v@.len(),
            forall|x: &i32| call_requires(op, (x,)),
            forall|j: int| 0 <= j < n ==> call_ensures(op, (&v@[j],), ()),
        decreases v@.len() - n,
    {
        op(&v[n]);
        n += 1;
    }
}

/// Maps the function over the slice: the result holds, in order, an output
/// of the function for each element.
pub fn map<T, U, F: Fn(&T) -> U>(vector: &[T], function: F) -> (accumulator: Vec<U>)
    requires
        forall|x: &T| call_requires(function, (x,)),
    ensures
        accumulator@.len() == vector@.len(),
        forall|j: int|
            0 <= j < vector@.len() ==> call_ensures(function, (&vector@[j],), #[trigger] accumulator@[j]),
{
    let mut accumulator: Vec<U> = Vec::new();
    let mut n: usize = 0;
    while n < vector.len()
        invariant
            n <= vector@.len(),
            accumulator@.len() == n,
            forall|x: &T| call_requires(function, (x,)),
            forall|j: int|
                0 <= j < n ==> call_ensures(function, (&vector@[j],), #[trigger] accumulator@[j]),
        decreases vector@.len() - n,
    {
        accumulator.push(function(&vector[n]));
        n += 1;
    }
    accumulator
}

/// Calls the function once on each number from zero up to, but not
/// including, ten.
pub fn ten_times<F: Fn(i32)>(f: F)
    requires
        forall|i: i32| 0 <= i < 10 ==> call_requires(f, (i,)),
    ensures
        forall|i: i32| 0 <= i < 10 ==> call_ensures(f, (i,), ()),
{
    let mut i: i32 = 0;
    while i < 10
        invariant
            0 <= i <= 10,
            forall|j: i32| 0 <= j < 10 ==> call_requires(f, (j,)),
            forall|j: i32| 0 <= j < i ==> call_ensures(f, (j,), ()),
        decreases 10 - i,
    {
        f(i);
        i += 1;
    }
}

/// The option's contents, or the default where there are none.
pub fn safe_get<T>(opt: Option<T>, default: T) -> (r: T)
    ensures
        r == match opt {
            Some(contents) => contents,
            None => default,
        },
{
    match opt {
        Some(contents) => contents,
        None => default,
    }
}

} // verus!
