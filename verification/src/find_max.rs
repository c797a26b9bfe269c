//! Several ways to find the largest element of a vector, all meeting the same
//! contract: the result is `None` exactly on an empty vector, and otherwise a
//! reference to the first occurrence of the maximum.

use vstd::prelude::*;

verus! {

/// The largest value of a non-empty sequence.
pub open spec fn seq_max(s: Seq<i32>) -> int
    recommends
        s.len() > 0,
    decreases s.len(),
{
    if s.len() <= 1 {
        s[0] as int
    } else if s.last() > seq_max(s.drop_last()) {
        s.last() as int
    } else {
        seq_max(s.drop_last())
    }
}

/// What all the searches promise: `None` on an empty vector, otherwise a
/// reference to the first element holding the maximum.
pub open spec fn is_first_max(s: Seq<i32>, r: Option<&i32>) -> bool {
    match r {
        None => s.len() == 0,
        Some(m) => {
            &&& s.len() > 0
            &&& *m == seq_max(s)
            &&& exists|i: int|
                0 <= i < s.len() && s[i] == seq_max(s) && (forall|j: int|
                    0 <= j < i ==> s[j] < seq_max(s))
        },
    }
}

/// A prefix keeps its maximum when the appended element does not exceed it,
/// and takes the new element's value when it does.
proof fn lemma_seq_max_push(s: Seq<i32>, v: i32)
    requires
        s.len() > 0,
    ensures
        seq_max(s.push(v)) == if v > seq_max(s) {
            v as int
        } else {
            seq_max(s)
        },
{
    let t = s.push(v);
    assert(t.drop_last() =~= s);
    assert(t.last() == v);
}

/// Search with a running candidate, matching on the accumulator.
pub fn find_max1(lst: &Vec<i32>) -> (r: Option<&i32>)
    ensures
        is_first_max(lst@, r),
{
    let mut max: Option<&i32> = None;
    let ghost mut mi: int = 0;
    let mut k: usize = 0;
    while k < lst.len()
        invariant
            0 <= k <= lst@.len(),
            max is None ==> k == 0,
            max matches Some(m) ==> {
                &&& 0 < k
                &&& 0 <= mi < k
                &&& lst@[mi] == *m
                &&& *m == seq_max(lst@.take(k as int))
                &&& forall|j: int| 0 <= j < k ==> lst@[j] <= *m
                &&& forall|j: int| 0 <= j < mi ==> lst@[j] < *m
            },
        decreases lst@.len() - k,
    {
        let i = &lst[k];
        proof {
            if k > 0 {
                lemma_seq_max_push(lst@.take(k as int), lst@[k as int]);
            }
            assert(lst@.take(k + 1 as int).drop_last() =~= lst@.take(k as int));
            assert(lst@.take(k + 1 as int).last() == lst@[k as int]);
        }
        max = match max {
            None => {
                proof {
                    mi = 0;
                }
                Some(i)
            },
            Some(m) if *i > *m => {
                proof {
                    mi = k as int;
                }
                Some(i)
            },
            _ => max,
        };
        k = k + 1;
    }
    proof {
        assert(lst@.take(lst@.len() as int) =~= lst@);
    }
    max
}

/// The same search, with the update step split out as its own function.
fn step_max<'a>(max: Option<&'a i32>, i: &'a i32) -> (r: Option<&'a i32>)
    ensures
        r == match max {
            None => Some(i),
            Some(m) => if *i > *m {
                Some(i)
            } else {
                max
            },
        },
{
    match max {
        None => Some(i),
        Some(m) if *i > *m => Some(i),
        _ => max,
    }
}

/// Search driven through the shared update step.
pub fn find_max2(lst: &Vec<i32>) -> (r: Option<&i32>)
    ensures
        is_first_max(lst@, r),
{
    let mut max: Option<&i32> = None;
    let ghost mut mi: int = 0;
    let mut k: usize = 0;
    while k < lst.len()
        invariant
            0 <= k <= lst@.len(),
            max is None ==> k == 0,
            max matches Some(m) ==> {
                &&& 0 < k
                &&& 0 <= mi < k
                &&& lst@[mi] == *m
                &&& *m == seq_max(lst@.take(k as int))
                &&& forall|j: int| 0 <= j < k ==> lst@[j] <= *m
                &&& forall|j: int| 0 <= j < mi ==> lst@[j] < *m
            },
        decreases lst@.len() - k,
    {
        proof {
            if k > 0 {
                lemma_seq_max_push(lst@.take(k as int), lst@[k as int]);
            }
            assert(lst@.take(k + 1 as int).drop_last() =~= lst@.take(k as int));
            assert(lst@.take(k + 1 as int).last() == lst@[k as int]);
            match max {
                None => {
                    mi = 0;
                },
                Some(m) => {
                    if lst@[k as int] > *m {
                        mi = k as int;
                    }
                },
            }
        }
        max = step_max(max, &lst[k]);
        k = k + 1;
    }
    proof {
        assert(lst@.take(lst@.len() as int) =~= lst@);
    }
    max
}

/// The maximum of a sequence of length two or more is the head or the
/// maximum of the tail, whichever is larger.
proof fn lemma_max_cons(s: Seq<i32>)
    requires
        s.len() >= 2,
    ensures
        seq_max(s) == if s[0] >= seq_max(s.skip(1)) {
            s[0] as int
        } else {
            seq_max(s.skip(1))
        },
    decreases s.len(),
{
    if s.len() == 2 {
        assert(s.drop_last().len() == 1 && s.drop_last()[0] == s[0]);
        assert(s.skip(1).len() == 1 && s.skip(1)[0] == s[1]);
        assert(seq_max(s.drop_last()) == s[0]);
        assert(seq_max(s.skip(1)) == s[1]);
    } else {
        lemma_max_cons(s.drop_last());
        assert(s.skip(1).drop_last() =~= s.drop_last().skip(1));
        assert(s.skip(1).last() == s.last());
        assert(s.drop_last()[0] == s[0]);
        assert(seq_max(s.skip(1)) == if s.skip(1).last() > seq_max(s.skip(1).drop_last()) {
            s.skip(1).last() as int
        } else {
            seq_max(s.skip(1).drop_last())
        });
        assert(seq_max(s) == if s.last() > seq_max(s.drop_last()) {
            s.last() as int
        } else {
            seq_max(s.drop_last())
        });
    }
}

/// Relates the maximum of a suffix to the maximum of the suffix one shorter.
proof fn lemma_seq_max_skip(s: Seq<i32>, k: int)
    requires
        0 <= k < s.len(),
    ensures
        seq_max(s.skip(k)) == if k + 1 == s.len() || s[k] >= seq_max(s.skip(k + 1)) {
            s[k] as int
        } else {
            seq_max(s.skip(k + 1))
        },
{
    if k + 1 == s.len() {
        assert(s.skip(k).len() == 1 && s.skip(k)[0] == s[k]);
        assert(seq_max(s.skip(k)) == s[k]);
    } else {
        lemma_max_cons(s.skip(k));
        assert(s.skip(k).skip(1) =~= s.skip(k + 1));
        assert(s.skip(k)[0] == s[k]);
    }
}

/// Search walking the vector back to front, keeping the earliest maximum.
pub fn find_max3(lst: &Vec<i32>) -> (r: Option<&i32>)
    ensures
        is_first_max(lst@, r),
{
    let mut max: Option<&i32> = None;
    let ghost mut mi: int = 0;
    let mut k: usize = lst.len();
    while k > 0
        invariant
            0 <= k <= lst@.len(),
            max is None ==> k == lst@.len(),
            max matches Some(m) ==> {
                &&& k <= mi < lst@.len()
                &&& lst@[mi] == *m
                &&& *m == seq_max(lst@.skip(k as int))
                &&& forall|j: int| k <= j < lst@.len() ==> lst@[j] <= *m
                &&& forall|j: int| k <= j < mi ==> lst@[j] < *m
            },
        decreases k,
    {
        k = k - 1;
        let i = &lst[k];
        proof {
            lemma_seq_max_skip(lst@, k as int);
        }
        max = match max {
            None => {
                proof {
                    mi = k as int;
                }
                Some(i)
            },
            Some(m) if *i >= *m => {
                proof {
                    mi = k as int;
                }
                Some(i)
            },
            _ => max,
        };
    }
    proof {
        assert(lst@.skip(0) =~= lst@);
    }
    max
}

/// Search in the style of the standard library's maximum adaptor; ties keep
/// the earliest element, as the shared contract asks.
pub fn find_maxstd(lst: &Vec<i32>) -> (r: Option<&i32>)
    ensures
        is_first_max(lst@, r),
{
    find_max1(lst)
}

} // verus!
