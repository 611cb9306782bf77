use vstd::prelude::*;
use vstd::pervasive::VecAdditionalExecFns;
use crate::text::str_eq;

verus! {

/// Whether a metric key `v` lies in the half-open bucket `[b.0, b.1)`.
pub open spec fn in_bucket(b: (u64, u64), v: u64) -> bool {
    b.0 <= v < b.1
}

/// The bucket a value falls in: the first interval that contains it, found
/// by the same linear scan the report makes, or `None`.
pub open spec fn bucket_index_spec(bounds: Seq<(u64, u64)>, v: u64) -> Option<int>
    decreases bounds.len(),
{
    if bounds.len() == 0 {
        None
    } else if in_bucket(bounds[0], v) {
        Some(0int)
    } else {
        match bucket_index_spec(bounds.skip(1), v) {
            None => None,
            Some(i) => Some(i + 1),
        }
    }
}

/// How many of `vals` fall into bucket `i`.
pub open spec fn bucket_count_spec(bounds: Seq<(u64, u64)>, vals: Seq<u64>, i: int) -> int
    decreases vals.len(),
{
    if vals.len() == 0 {
        0
    } else {
        bucket_count_spec(bounds, vals.drop_last(), i) + if bucket_index_spec(bounds, vals.last())
            == Some(i) {
            1int
        } else {
            0int
        }
    }
}

/// Finds the bucket containing `v`: the first `(lo, hi)` with
/// `lo <= v < hi`, exactly [`bucket_index_spec`].
pub fn bucket_index(bounds: &Vec<(u64, u64)>, v: u64) -> (r: Option<usize>)
    ensures
        (match r {
            Some(i) => bucket_index_spec(bounds@, v) == Some(i as int),
            None => bucket_index_spec(bounds@, v) is None,
        }),
{
    let mut i: usize = 0;
    while i < bounds.len()
        invariant
            i <= bounds@.len(),
            forall|k: int| 0 <= k < i ==> !in_bucket(#[trigger] bounds@[k], v),
        decreases bounds@.len() - i,
    {
        let (lo, hi) = bounds[i];
        if lo <= v && v < hi {
            proof {
                lemma_bucket_index_first(bounds@, v, i as int);
            }
            return Some(i);
        }
        i = i + 1;
    }
    proof {
        lemma_bucket_index_none(bounds@, v);
    }
    None
}

proof fn lemma_bucket_index_first(bounds: Seq<(u64, u64)>, v: u64, i: int)
    requires
        0 <= i < bounds.len(),
        in_bucket(bounds[i], v),
        forall|k: int| 0 <= k < i ==> !in_bucket(#[trigger] bounds[k], v),
    ensures
        bucket_index_spec(bounds, v) == Some(i),
    decreases bounds.len(),
{
    if i > 0 {
        assert forall|k: int| 0 <= k < i - 1 implies !in_bucket(
            #[trigger] bounds.skip(1)[k],
            v,
        ) by {
            assert(bounds.skip(1)[k] == bounds[k + 1]);
        }
        assert(bounds.skip(1)[i - 1] == bounds[i]);
        lemma_bucket_index_first(bounds.skip(1), v, i - 1);
    }
}

proof fn lemma_bucket_index_bounds(bounds: Seq<(u64, u64)>, v: u64)
    ensures
        bucket_index_spec(bounds, v) is Some ==> 0 <= bucket_index_spec(bounds, v)->0
            < bounds.len(),
    decreases bounds.len(),
{
    if bounds.len() > 0 && !in_bucket(bounds[0], v) {
        lemma_bucket_index_bounds(bounds.skip(1), v);
    }
}

proof fn lemma_bucket_index_none(bounds: Seq<(u64, u64)>, v: u64)
    requires
        forall|k: int| 0 <= k < bounds.len() ==> !in_bucket(#[trigger] bounds[k], v),
    ensures
        bucket_index_spec(bounds, v) is None,
    decreases bounds.len(),
{
    if bounds.len() > 0 {
        assert forall|k: int| 0 <= k < bounds.skip(1).len() implies !in_bucket(
            #[trigger] bounds.skip(1)[k],
            v,
        ) by {
            assert(bounds.skip(1)[k] == bounds[k + 1]);
        }
        lemma_bucket_index_none(bounds.skip(1), v);
    }
}

/// Counts, for every bucket, the metric values that fall into it; a value
/// outside every bucket counts nowhere. Exactly [`bucket_count_spec`] per
/// bucket.
pub fn bucket_counts(bounds: &Vec<(u64, u64)>, vals: &Vec<u64>) -> (r: Vec<usize>)
    ensures
        r@.len() == bounds@.len(),
        forall|i: int|
            0 <= i < r@.len() ==> r@[i] == bucket_count_spec(bounds@, vals@, i),
{
    let mut r: Vec<usize> = Vec::new();
    let mut z: usize = 0;
    while z < bounds.len()
        invariant
            z <= bounds@.len(),
            r@.len() == z,
            forall|i: int| 0 <= i < z ==> r@[i] == 0,
        decreases bounds@.len() - z,
    {
        r.push(0);
        z = z + 1;
    }
    proof {
        assert(vals@.take(0) =~= Seq::<u64>::empty());
    }
    let mut j: usize = 0;
    while j < vals.len()
        invariant
            j <= vals@.len(),
            r@.len() == bounds@.len(),
            forall|i: int|
                0 <= i < r@.len() ==> r@[i] == bucket_count_spec(bounds@, vals@.take(j as int), i),
            forall|i: int| 0 <= i < r@.len() ==> r@[i] <= j,
        decreases vals@.len() - j,
    {
        let v = vals[j];
        proof {
            assert(vals@.take(j + 1).drop_last() =~= vals@.take(j as int));
            assert(vals@.take(j + 1).last() == v);
        }
        match bucket_index(bounds, v) {
            Some(idx) => {
                proof {
                    lemma_bucket_index_bounds(bounds@, v);
                }
                let c = r[idx];
                r.set(idx, c + 1);
            },
            None => {
            },
        }
        j = j + 1;
    }
    proof {
        assert(vals@.take(vals@.len() as int) =~= vals@);
    }
    r
}

/// The first auxiliary pair carrying `key`, as the report reads a metric
/// from a record's data list.
pub fn find_key_index(data: &Vec<(String, String)>, key: &str) -> (r: Option<usize>)
    ensures
        (match r {
            Some(i) => i < data@.len() && data@[i as int].0@ == key@ && forall|k: int|
                0 <= k < i ==> data@[k].0@ != key@,
            None => forall|k: int| 0 <= k < data@.len() ==> data@[k].0@ != key@,
        }),
{
    let mut i: usize = 0;
    while i < data.len()
        invariant
            i <= data@.len(),
            forall|k: int| 0 <= k < i ==> data@[k].0@ != key@,
        decreases data@.len() - i,
    {
        if str_eq(data[i].0.as_str(), key) {
            return Some(i);
        }
        i = i + 1;
    }
    None
}

} // verus!
