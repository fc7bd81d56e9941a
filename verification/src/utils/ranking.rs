//! The ranking of samples: their indices by ascending sample, and samples
//! that are equal by ascending index.
//!
//! Samples are integers. The ranking is made by a merge sort of the
//! indices, which keeps equal samples in the order of their indices.

use vstd::prelude::*;
use crate::permutation::{is_permutation, lemma_permutation_covers, position_of};

verus! {

/// Whether index `i` comes before index `j` in the ranking of `samples`: its
/// sample is smaller, or the samples are equal and `i` is the smaller index.
pub open spec fn precedes(samples: Seq<u64>, i: int, j: int) -> bool {
    samples[i] < samples[j] || (samples[i] == samples[j] && i < j)
}

/// Whether every entry of `p` comes before all later ones.
pub open spec fn ranks_ascend(samples: Seq<u64>, p: Seq<usize>) -> bool {
    forall|k: int, l: int|
        0 <= k < l < p.len() ==> precedes(samples, #[trigger] p[k] as int, #[trigger] p[l] as int)
}

/// Whether `p` is the ranking of `samples`: a position array over their
/// indices in which every entry comes before all later ones.
pub open spec fn is_ranking(samples: Seq<u64>, p: Seq<usize>) -> bool {
    is_permutation(p, samples.len()) && ranks_ascend(samples, p)
}

/// The ranking of `samples`.
pub open spec fn ranking(samples: Seq<u64>) -> Seq<usize> {
    choose|p: Seq<usize>| is_ranking(samples, p)
}

/// Two rankings of the same samples agree at every place.
proof fn lemma_rankings_agree(samples: Seq<u64>, p: Seq<usize>, q: Seq<usize>, k: int)
    requires
        is_ranking(samples, p),
        is_ranking(samples, q),
        0 <= k < samples.len(),
    ensures
        p[k] == q[k],
    decreases k,
{
    let n = samples.len();
    assert forall|l: int| 0 <= l < k implies p[l] == q[l] by {
        lemma_rankings_agree(samples, p, q, l);
    }
    let kq = position_of(q, p[k] as int);
    let kp = position_of(p, q[k] as int);
    lemma_permutation_covers(q, n, p[k] as int);
    lemma_permutation_covers(p, n, q[k] as int);
    if kq < k {
        assert(p[kq] == q[kq]);
        assert(p[kq] != p[k]);
    } else if kp < k {
        assert(p[kp] == q[kp]);
        assert(q[kp] != q[k]);
    } else if kq > k && kp > k {
        assert(precedes(samples, q[k] as int, q[kq] as int));
        assert(precedes(samples, p[k] as int, p[kp] as int));
    }
}

/// Samples have one ranking only.
pub proof fn lemma_ranking_unique(samples: Seq<u64>, p: Seq<usize>, q: Seq<usize>)
    requires
        is_ranking(samples, p),
        is_ranking(samples, q),
    ensures
        p == q,
{
    assert forall|k: int| 0 <= k < p.len() implies p[k] == q[k] by {
        lemma_rankings_agree(samples, p, q, k);
    }
    assert(p =~= q);
}

/// Whether `p` lists the indices `lo..hi` of `samples`, each once, every
/// entry before all later ones.
spec fn ranks_range(samples: Seq<u64>, p: Seq<usize>, lo: int, hi: int) -> bool {
    &&& p.len() == hi - lo
    &&& forall|k: int| 0 <= k < p.len() ==> lo <= (#[trigger] p[k]) < hi
    &&& ranks_ascend(samples, p)
}

/// Merges the rankings of two adjoining ranges of indices into the ranking
/// of both.
fn merge_ranked(
    samples: &[u64],
    left: &Vec<usize>,
    right: &Vec<usize>,
    Ghost(lo): Ghost<int>,
    Ghost(mid): Ghost<int>,
    Ghost(hi): Ghost<int>,
) -> (out: Vec<usize>)
    requires
        0 <= lo <= mid <= hi <= samples@.len(),
        ranks_range(samples@, left@, lo, mid),
        ranks_range(samples@, right@, mid, hi),
    ensures
        ranks_range(samples@, out@, lo, hi),
{
    let total: usize = samples.len();
    assert(left@.len() + right@.len() == hi - lo <= total);
    let mut out: Vec<usize> = Vec::with_capacity(left.len() + right.len());
    let mut i: usize = 0;
    let mut j: usize = 0;
    while i < left.len() || j < right.len()
        invariant
            0 <= lo <= mid <= hi <= samples@.len(),
            ranks_range(samples@, left@, lo, mid),
            ranks_range(samples@, right@, mid, hi),
            i <= left@.len(),
            j <= right@.len(),
            out@.len() == i + j,
            forall|k: int| 0 <= k < out@.len() ==> lo <= (#[trigger] out@[k]) < hi,
            ranks_ascend(samples@, out@),
            forall|k: int|
                0 <= k < out@.len() && i < left@.len() ==> precedes(
                    samples@,
                    (#[trigger] out@[k]) as int,
                    left@[i as int] as int,
                ),
            forall|k: int|
                0 <= k < out@.len() && j < right@.len() ==> precedes(
                    samples@,
                    (#[trigger] out@[k]) as int,
                    right@[j as int] as int,
                ),
        decreases left@.len() - i + right@.len() - j,
    {
        let ghost before = out@;
        let take_left: bool = if i == left.len() {
            false
        } else if j == right.len() {
            true
        } else {
            let a: usize = left[i];
            let b: usize = right[j];
            samples[a] < samples[b] || (samples[a] == samples[b] && a < b)
        };
        if take_left {
            let a: usize = left[i];
            out.push(a);
            proof {
                assert forall|k: int, l: int| 0 <= k < l < out@.len() implies precedes(
                    samples@,
                    #[trigger] out@[k] as int,
                    #[trigger] out@[l] as int,
                ) by {
                    if l < before.len() {
                        assert(out@[k] == before[k] && out@[l] == before[l]);
                    } else {
                        assert(out@[k] == before[k]);
                    }
                }
                assert forall|k: int| 0 <= k < out@.len() && i + 1 < left@.len() implies precedes(
                    samples@,
                    (#[trigger] out@[k]) as int,
                    left@[i + 1] as int,
                ) by {
                    assert(precedes(samples@, left@[i as int] as int, left@[i + 1] as int));
                    if k < before.len() {
                        assert(out@[k] == before[k]);
                    }
                }
                assert forall|k: int| 0 <= k < out@.len() && j < right@.len() implies precedes(
                    samples@,
                    (#[trigger] out@[k]) as int,
                    right@[j as int] as int,
                ) by {
                    if k < before.len() {
                        assert(out@[k] == before[k]);
                    }
                }
            }
            i += 1;
        } else {
            let b: usize = right[j];
            out.push(b);
            proof {
                assert forall|k: int, l: int| 0 <= k < l < out@.len() implies precedes(
                    samples@,
                    #[trigger] out@[k] as int,
                    #[trigger] out@[l] as int,
                ) by {
                    if l < before.len() {
                        assert(out@[k] == before[k] && out@[l] == before[l]);
                    } else {
                        assert(out@[k] == before[k]);
                    }
                }
                assert forall|k: int| 0 <= k < out@.len() && j + 1 < right@.len() implies precedes(
                    samples@,
                    (#[trigger] out@[k]) as int,
                    right@[j + 1] as int,
                ) by {
                    assert(precedes(samples@, right@[j as int] as int, right@[j + 1] as int));
                    if k < before.len() {
                        assert(out@[k] == before[k]);
                    }
                }
                assert forall|k: int| 0 <= k < out@.len() && i < left@.len() implies precedes(
                    samples@,
                    (#[trigger] out@[k]) as int,
                    left@[i as int] as int,
                ) by {
                    assert(left@[i as int] < mid <= right@[j as int]);
                    if k < before.len() {
                        assert(out@[k] == before[k]);
                    }
                }
            }
            j += 1;
        }
    }
    out
}

/// Ranks the indices `lo..hi` of `samples`.
fn rank_range(samples: &[u64], lo: usize, hi: usize) -> (out: Vec<usize>)
    requires
        lo <= hi <= samples@.len(),
    ensures
        ranks_range(samples@, out@, lo as int, hi as int),
    decreases hi - lo,
{
    if hi - lo <= 1 {
        let mut out: Vec<usize> = Vec::new();
        if lo < hi {
            out.push(lo);
        }
        out
    } else {
        let mid: usize = lo + (hi - lo) / 2;
        let left: Vec<usize> = rank_range(samples, lo, mid);
        let right: Vec<usize> = rank_range(samples, mid, hi);
        merge_ranked(samples, &left, &right, Ghost(lo as int), Ghost(mid as int), Ghost(hi as int))
    }
}

/// The ranking of `samples`: their indices by ascending sample, equal
/// samples by ascending index.
pub fn rank_samples(samples: &[u64]) -> (positions: Vec<usize>)
    ensures
        positions@ == ranking(samples@),
        is_ranking(samples@, positions@),
{
    let positions: Vec<usize> = rank_range(samples, 0, samples.len());
    proof {
        assert(is_ranking(samples@, positions@));
        lemma_ranking_unique(samples@, positions@, ranking(samples@));
    }
    positions
}

/// Samples have a ranking.
pub proof fn lemma_ranking_exists(samples: Seq<u64>)
    requires
        samples.len() <= usize::MAX,
    ensures
        is_ranking(samples, ranking(samples)),
    decreases samples.len(),
{
    if samples.len() == 0 {
        assert(is_ranking(samples, Seq::<usize>::empty()));
    } else {
        // The ranking of all but the last sample, with the last index put in
        // before the first entry that does not come before it.
        let n = (samples.len() - 1) as nat;
        let head = samples.take(n as int);
        lemma_ranking_exists(head);
        let r = ranking(head);
        let last = n as usize;
        let at = first_not_before(samples, r, n as int, 0);
        lemma_first_not_before(samples, r, n as int, 0);
        let p = r.insert(at, last);
        assert forall|k: int| 0 <= k < p.len() implies (#[trigger] p[k]) < samples.len() by {
            if k < at {
                assert(p[k] == r[k]);
            } else if k > at {
                assert(p[k] == r[k - 1]);
            }
        }
        assert forall|k: int, l: int| 0 <= k < l < p.len() implies precedes(
            samples,
            #[trigger] p[k] as int,
            #[trigger] p[l] as int,
        ) by {
            let sk = if k < at {
                k
            } else {
                k - 1
            };
            let sl = if l < at {
                l
            } else {
                l - 1
            };
            if k != at && l != at {
                assert(p[k] == r[sk] && p[l] == r[sl]);
                assert(precedes(head, r[sk] as int, r[sl] as int));
                assert(head[r[sk] as int] == samples[r[sk] as int]);
                assert(head[r[sl] as int] == samples[r[sl] as int]);
            } else if k == at {
                assert(p[l] == r[sl]);
                assert(!precedes(samples, r[at] as int, n as int));
                if sl > at {
                    assert(precedes(head, r[at] as int, r[sl] as int));
                    assert(head[r[at] as int] == samples[r[at] as int]);
                }
                assert(head[r[sl] as int] == samples[r[sl] as int]);
            } else {
                assert(p[k] == r[sk]);
                assert(precedes(samples, r[sk] as int, n as int));
            }
        }
        assert forall|k: int, l: int| 0 <= k < l < p.len() implies #[trigger] p[k] != #[trigger] p[l] by {
            assert(precedes(samples, p[k] as int, p[l] as int));
        }
        assert(is_ranking(samples, p));
    }
}

/// The first place from `from` on in `r` whose entry does not come before
/// index `i`, or the length of `r` where every entry does.
spec fn first_not_before(samples: Seq<u64>, r: Seq<usize>, i: int, from: int) -> int
    decreases r.len() - from,
{
    if from >= r.len() || !precedes(samples, r[from] as int, i) {
        from
    } else {
        first_not_before(samples, r, i, from + 1)
    }
}

/// Every entry between `from` and the first that does not come before `i`
/// comes before `i`.
proof fn lemma_first_not_before(samples: Seq<u64>, r: Seq<usize>, i: int, from: int)
    requires
        0 <= from <= r.len(),
    ensures
        from <= first_not_before(samples, r, i, from) <= r.len(),
        forall|k: int|
            from <= k < first_not_before(samples, r, i, from) ==> precedes(
                samples,
                #[trigger] r[k] as int,
                i,
            ),
        first_not_before(samples, r, i, from) < r.len() ==> !precedes(
            samples,
            r[first_not_before(samples, r, i, from)] as int,
            i,
        ),
    decreases r.len() - from,
{
    if from >= r.len() || !precedes(samples, r[from] as int, i) {
    } else {
        lemma_first_not_before(samples, r, i, from + 1);
    }
}

} // verus!
