//! Small vector builders: a fixed pair of greeting strings, and a dynamic
//! two-dimensional array filled with a default value.

use vstd::prelude::*;

verus! {

/// A vector of the two greeting words.
pub fn fill_strings() -> (r: Vec<String>)
    ensures
        r@.len() == 2,
        r@[0]@ == "hello"@,
        r@[1]@ == "world"@,
{
    let mut strings: Vec<String> = Vec::new();
    strings.push(String::from_str("hello"));
    strings.push(String::from_str("world"));
    strings
}

/// A `dim1` by `dim2` array with every cell holding `default`.
pub fn make_2d_array(dim1: usize, dim2: usize, default: i32) -> (r: Vec<Vec<i32>>)
    ensures
        r@.len() == dim1,
        forall|i: int| #![auto] 0 <= i < dim1 ==> r@[i]@.len() == dim2,
        forall|i: int, j: int| #![auto] 0 <= i < dim1 && 0 <= j < dim2 ==> r@[i]@[j] == default,
{
    let mut vec: Vec<Vec<i32>> = Vec::new();
    let mut i: usize = 0;
    while i < dim1
        invariant
            i <= dim1,
            vec@.len() == i,
            forall|a: int| #![auto] 0 <= a < i ==> vec@[a]@.len() == dim2,
            forall|a: int, b: int| #![auto] 0 <= a < i && 0 <= b < dim2 ==> vec@[a]@[b] == default,
        decreases dim1 - i,
    {
        let mut vec2: Vec<i32> = Vec::new();
        let mut j: usize = 0;
        while j < dim2
            invariant
                j <= dim2,
                vec2@.len() == j,
                forall|b: int| #![auto] 0 <= b < j ==> vec2@[b] == default,
            decreases dim2 - j,
        {
            vec2.push(default);
            j = j + 1;
        }
        vec.push(vec2);
        i = i + 1;
    }
    vec
}

} // verus!
