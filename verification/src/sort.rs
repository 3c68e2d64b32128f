//! Ordering the samples of a region by one feature.

use vstd::prelude::*;
use crate::data::Matrix;
use crate::sums::{sum_by, same_sums, lemma_sum_push, lemma_sum_skip_step, lemma_sum_concat};

verus! {

/// The value of feature `f` of sample `row`.
pub open spec fn key(m: Matrix, f: int, row: usize) -> int {
    m.at(row as int, f)
}

/// Every entry of `s` is a row of `m`.
pub open spec fn rows_valid(m: Matrix, s: Seq<usize>) -> bool {
    forall|k: int| 0 <= k < s.len() ==> #[trigger] s[k] < m.rows@.len()
}

/// The samples of `s` come in ascending order of feature `f`.
pub open spec fn sorted_by(m: Matrix, f: int, s: Seq<usize>) -> bool {
    forall|i: int, j: int|
        0 <= i <= j < s.len() ==> key(m, f, #[trigger] s[i]) <= key(m, f, #[trigger] s[j])
}

/// Merges two sorted runs into one.
fn merge(matrix: &Matrix, feature: usize, a: &Vec<usize>, b: &Vec<usize>) -> (out: Vec<usize>)
    requires
        matrix.wf(),
        feature < matrix.cols,
        rows_valid(*matrix, a@),
        rows_valid(*matrix, b@),
        sorted_by(*matrix, feature as int, a@),
        sorted_by(*matrix, feature as int, b@),
    ensures
        rows_valid(*matrix, out@),
        sorted_by(*matrix, feature as int, out@),
        out@.len() == a@.len() + b@.len(),
        forall|w: spec_fn(usize) -> int| #[trigger] sum_by(out@, w) == sum_by(a@, w) + sum_by(b@, w),
{
    let mut out: Vec<usize> = Vec::new();
    let mut i: usize = 0;
    let mut j: usize = 0;
    let ghost f = feature as int;
    proof {
        assert(a@.skip(0) =~= a@);
        assert(b@.skip(0) =~= b@);
    }
    while i < a.len() || j < b.len()
        invariant
            matrix.wf(),
            feature < matrix.cols,
            f == feature as int,
            rows_valid(*matrix, a@),
            rows_valid(*matrix, b@),
            sorted_by(*matrix, f, a@),
            sorted_by(*matrix, f, b@),
            0 <= i <= a@.len(),
            0 <= j <= b@.len(),
            out@.len() == i + j,
            rows_valid(*matrix, out@),
            sorted_by(*matrix, f, out@),
            forall|k: int|
                0 <= k < out@.len() && i < a@.len() ==> key(*matrix, f, #[trigger] out@[k]) <= key(
                    *matrix,
                    f,
                    a@[i as int],
                ),
            forall|k: int|
                0 <= k < out@.len() && j < b@.len() ==> key(*matrix, f, #[trigger] out@[k]) <= key(
                    *matrix,
                    f,
                    b@[j as int],
                ),
            forall|w: spec_fn(usize) -> int| #[trigger]
                sum_by(out@, w) + sum_by(a@.skip(i as int), w) + sum_by(b@.skip(j as int), w)
                    == sum_by(a@, w) + sum_by(b@, w),
        decreases a@.len() - i + b@.len() - j,
    {
        let ghost before = out@;
        let from_a: bool = if j == b.len() {
            true
        } else if i == a.len() {
            false
        } else {
            matrix.get(a[i], feature) <= matrix.get(b[j], feature)
        };
        if from_a {
            let x: usize = a[i];
            out.push(x);
            proof {
                assert forall|w: spec_fn(usize) -> int| #[trigger]
                    sum_by(out@, w) + sum_by(a@.skip(i + 1), w) + sum_by(b@.skip(j as int), w)
                        == sum_by(a@, w) + sum_by(b@, w) by {
                    lemma_sum_push(before, x, w);
                    lemma_sum_skip_step(a@, i as int, w);
                    assert(sum_by(before, w) + sum_by(a@.skip(i as int), w) + sum_by(
                        b@.skip(j as int),
                        w,
                    ) == sum_by(a@, w) + sum_by(b@, w));
                }
                assert forall|p: int, q: int| 0 <= p <= q < out@.len() implies key(
                    *matrix,
                    f,
                    #[trigger] out@[p],
                ) <= key(*matrix, f, #[trigger] out@[q]) by {
                    if q < before.len() {
                        assert(out@[p] == before[p] && out@[q] == before[q]);
                    } else if p < before.len() {
                        assert(out@[p] == before[p]);
                    }
                }
                assert forall|k: int| 0 <= k < out@.len() && i + 1 < a@.len() implies key(
                    *matrix,
                    f,
                    #[trigger] out@[k],
                ) <= key(*matrix, f, a@[i + 1]) by {
                    assert(key(*matrix, f, a@[i as int]) <= key(*matrix, f, a@[i + 1]));
                    if k < before.len() {
                        assert(out@[k] == before[k]);
                    }
                }
                assert forall|k: int| 0 <= k < out@.len() && j < b@.len() implies key(
                    *matrix,
                    f,
                    #[trigger] out@[k],
                ) <= key(*matrix, f, b@[j as int]) by {
                    if k < before.len() {
                        assert(out@[k] == before[k]);
                    }
                }
                assert forall|k: int| 0 <= k < out@.len() implies #[trigger] out@[k]
                    < matrix.rows@.len() by {
                    if k < before.len() {
                        assert(out@[k] == before[k]);
                    }
                }
            }
            i = i + 1;
        } else {
            let x: usize = b[j];
            out.push(x);
            proof {
                assert forall|w: spec_fn(usize) -> int| #[trigger]
                    sum_by(out@, w) + sum_by(a@.skip(i as int), w) + sum_by(b@.skip(j + 1), w)
                        == sum_by(a@, w) + sum_by(b@, w) by {
                    lemma_sum_push(before, x, w);
                    lemma_sum_skip_step(b@, j as int, w);
                    assert(sum_by(before, w) + sum_by(a@.skip(i as int), w) + sum_by(
                        b@.skip(j as int),
                        w,
                    ) == sum_by(a@, w) + sum_by(b@, w));
                }
                assert forall|p: int, q: int| 0 <= p <= q < out@.len() implies key(
                    *matrix,
                    f,
                    #[trigger] out@[p],
                ) <= key(*matrix, f, #[trigger] out@[q]) by {
                    if q < before.len() {
                        assert(out@[p] == before[p] && out@[q] == before[q]);
                    } else if p < before.len() {
                        assert(out@[p] == before[p]);
                    }
                }
                assert forall|k: int| 0 <= k < out@.len() && j + 1 < b@.len() implies key(
                    *matrix,
                    f,
                    #[trigger] out@[k],
                ) <= key(*matrix, f, b@[j + 1]) by {
                    assert(key(*matrix, f, b@[j as int]) <= key(*matrix, f, b@[j + 1]));
                    if k < before.len() {
                        assert(out@[k] == before[k]);
                    }
                }
                assert forall|k: int| 0 <= k < out@.len() && i < a@.len() implies key(
                    *matrix,
                    f,
                    #[trigger] out@[k],
                ) <= key(*matrix, f, a@[i as int]) by {
                    if k < before.len() {
                        assert(out@[k] == before[k]);
                    }
                }
                assert forall|k: int| 0 <= k < out@.len() implies #[trigger] out@[k]
                    < matrix.rows@.len() by {
                    if k < before.len() {
                        assert(out@[k] == before[k]);
                    }
                }
            }
            j = j + 1;
        }
    }
    proof {
        assert forall|w: spec_fn(usize) -> int| #[trigger]
            sum_by(out@, w) == sum_by(a@, w) + sum_by(b@, w) by {
            assert(sum_by(out@, w) + sum_by(a@.skip(i as int), w) + sum_by(b@.skip(j as int), w)
                == sum_by(a@, w) + sum_by(b@, w));
            assert(a@.skip(i as int) =~= Seq::<usize>::empty());
            assert(b@.skip(j as int) =~= Seq::<usize>::empty());
        }
    }
    out
}

/// Sorts the part `from..to` of `v` by merging its sorted halves.
fn merge_sort(matrix: &Matrix, feature: usize, v: &Vec<usize>, from: usize, to: usize) -> (out: Vec<
    usize,
>)
    requires
        matrix.wf(),
        feature < matrix.cols,
        rows_valid(*matrix, v@),
        from <= to <= v@.len(),
    ensures
        rows_valid(*matrix, out@),
        sorted_by(*matrix, feature as int, out@),
        out@.len() == to - from,
        forall|w: spec_fn(usize) -> int| #[trigger]
            sum_by(out@, w) == sum_by(v@.subrange(from as int, to as int), w),
    decreases to - from,
{
    if to - from == 0 {
        let out: Vec<usize> = Vec::new();
        proof {
            assert(v@.subrange(from as int, to as int) =~= out@);
        }
        out
    } else if to - from == 1 {
        let mut out: Vec<usize> = Vec::new();
        out.push(v[from]);
        proof {
            assert(v@.subrange(from as int, to as int) =~= out@);
        }
        out
    } else {
        let mid: usize = from + (to - from) / 2;
        let left: Vec<usize> = merge_sort(matrix, feature, v, from, mid);
        let right: Vec<usize> = merge_sort(matrix, feature, v, mid, to);
        let out: Vec<usize> = merge(matrix, feature, &left, &right);
        proof {
            let a = v@.subrange(from as int, mid as int);
            let b = v@.subrange(mid as int, to as int);
            assert(a + b =~= v@.subrange(from as int, to as int));
            assert forall|w: spec_fn(usize) -> int| #[trigger]
                sum_by(out@, w) == sum_by(v@.subrange(from as int, to as int), w) by {
                lemma_sum_concat(a, b, w);
                assert(sum_by(out@, w) == sum_by(left@, w) + sum_by(right@, w));
            }
        }
        out
    }
}

/// The samples of `region` in ascending order of feature `feature`: a
/// rearrangement of the region, so every tally over it is unchanged.
pub fn sort_by_feature(matrix: &Matrix, feature: usize, region: &Vec<usize>) -> (out: Vec<usize>)
    requires
        matrix.wf(),
        feature < matrix.cols,
        rows_valid(*matrix, region@),
    ensures
        rows_valid(*matrix, out@),
        sorted_by(*matrix, feature as int, out@),
        out@.len() == region@.len(),
        same_sums(out@, region@),
{
    let out: Vec<usize> = merge_sort(matrix, feature, region, 0, region.len());
    proof {
        assert(region@.subrange(0, region@.len() as int) =~= region@);
    }
    out
}

} // verus!
