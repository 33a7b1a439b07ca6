use vstd::prelude::*;

verus! {

/// In a ranking by descending key, index `i` comes before index `j`: its key is larger,
/// or the keys tie and `i` came first (the ranking is stable).
pub open spec fn ranks_before(keys: Seq<u64>, i: usize, j: usize) -> bool {
    keys[i as int] > keys[j as int] || (keys[i as int] == keys[j as int] && i < j)
}

/// Every two entries of `order` appear in ranking order.
pub open spec fn ranked(keys: Seq<u64>, order: Seq<usize>) -> bool {
    forall|p: int, q: int|
        0 <= p < q < order.len() ==> ranks_before(keys, #[trigger] order[p], #[trigger] order[q])
}

/// Every entry of `order` lies in `lo..hi`.
pub open spec fn within(order: Seq<usize>, lo: int, hi: int) -> bool {
    forall|p: int| 0 <= p < order.len() ==> lo <= #[trigger] order[p] < hi
}

/// Every index in `lo..hi` occurs in `order`.
pub open spec fn covers(order: Seq<usize>, lo: int, hi: int) -> bool {
    forall|x: int| lo <= x < hi ==> #[trigger] order.contains(x as usize)
}

/// `order` lists the indices of `keys` from the largest key to the smallest, ties in
/// their original order: the order a stable sort by descending key produces.
pub open spec fn is_ranking(keys: Seq<u64>, order: Seq<usize>) -> bool {
    &&& order.len() == keys.len()
    &&& within(order, 0, keys.len() as int)
    &&& covers(order, 0, keys.len() as int)
    &&& ranked(keys, order)
}

/// Merge two ranked runs over disjoint index ranges `lo..mid` and `mid..hi`.
fn merge_runs(keys: &[u64], a: Vec<usize>, b: Vec<usize>, lo: usize, mid: usize, hi: usize) -> (out: Vec<usize>)
    requires
        lo <= mid <= hi <= keys@.len(),
        ranked(keys@, a@),
        ranked(keys@, b@),
        within(a@, lo as int, mid as int),
        within(b@, mid as int, hi as int),
        covers(a@, lo as int, mid as int),
        covers(b@, mid as int, hi as int),
    ensures
        out@.len() == a@.len() + b@.len(),
        ranked(keys@, out@),
        within(out@, lo as int, hi as int),
        covers(out@, lo as int, hi as int),
{
    let mut out: Vec<usize> = Vec::new();
    let mut i: usize = 0;
    let mut j: usize = 0;
    while i < a.len() || j < b.len()
        invariant
            lo <= mid <= hi <= keys@.len(),
            ranked(keys@, a@),
            ranked(keys@, b@),
            within(a@, lo as int, mid as int),
            within(b@, mid as int, hi as int),
            i <= a@.len(),
            j <= b@.len(),
            out@.len() == i + j,
            ranked(keys@, out@),
            within(out@, lo as int, hi as int),
            out@.len() > 0 && i < a@.len() ==> ranks_before(keys@, out@.last(), a@[i as int]),
            out@.len() > 0 && j < b@.len() ==> ranks_before(keys@, out@.last(), b@[j as int]),
            forall|k: int| 0 <= k < i ==> #[trigger] out@.contains(a@[k]),
            forall|k: int| 0 <= k < j ==> #[trigger] out@.contains(b@[k]),
        decreases a@.len() + b@.len() - i - j,
    {
        let ghost prev = out@;
        let take_a = if i < a.len() && j < b.len() {
            let x = a[i];
            let y = b[j];
            keys[x] > keys[y] || (keys[x] == keys[y] && x < y)
        } else {
            i < a.len()
        };
        if take_a {
            let x = a[i];
            proof {
                assert forall|p: int| 0 <= p < prev.len() implies ranks_before(keys@, #[trigger] prev[p], x) by {
                    if p < prev.len() - 1 {
                        assert(ranks_before(keys@, prev[p], prev[prev.len() - 1]));
                    }
                }
                if j < b@.len() {
                    assert(lo <= a@[i as int] < mid);
                    assert(mid <= b@[j as int] < hi);
                }
                if i + 1 < a@.len() {
                    assert(ranks_before(keys@, a@[i as int], a@[i + 1]));
                }
            }
            out.push(x);
            proof {
                assert(out@[prev.len() as int] == x);
                assert forall|k: int| 0 <= k < i + 1 implies #[trigger] out@.contains(a@[k]) by {
                    if k < i {
                        assert(prev.contains(a@[k]));
                        let w = choose|w: int| 0 <= w < prev.len() && prev[w] == a@[k];
                        assert(out@[w] == a@[k]);
                    } else {
                        assert(out@[prev.len() as int] == a@[k]);
                    }
                }
                assert forall|k: int| 0 <= k < j implies #[trigger] out@.contains(b@[k]) by {
                    assert(prev.contains(b@[k]));
                    let w = choose|w: int| 0 <= w < prev.len() && prev[w] == b@[k];
                    assert(out@[w] == b@[k]);
                }
            }
            i = i + 1;
        } else {
            let y = b[j];
            proof {
                if i < a@.len() {
                    assert(lo <= a@[i as int] < mid);
                    assert(mid <= b@[j as int] < hi);
                    assert(ranks_before(keys@, b@[j as int], a@[i as int]));
                }
                assert forall|p: int| 0 <= p < prev.len() implies ranks_before(keys@, #[trigger] prev[p], y) by {
                    if p < prev.len() - 1 {
                        assert(ranks_before(keys@, prev[p], prev[prev.len() - 1]));
                    }
                }
                if j + 1 < b@.len() {
                    assert(ranks_before(keys@, b@[j as int], b@[j + 1]));
                }
            }
            out.push(y);
            proof {
                assert(out@[prev.len() as int] == y);
                assert forall|k: int| 0 <= k < i implies #[trigger] out@.contains(a@[k]) by {
                    assert(prev.contains(a@[k]));
                    let w = choose|w: int| 0 <= w < prev.len() && prev[w] == a@[k];
                    assert(out@[w] == a@[k]);
                }
                assert forall|k: int| 0 <= k < j + 1 implies #[trigger] out@.contains(b@[k]) by {
                    if k < j {
                        assert(prev.contains(b@[k]));
                        let w = choose|w: int| 0 <= w < prev.len() && prev[w] == b@[k];
                        assert(out@[w] == b@[k]);
                    } else {
                        assert(out@[prev.len() as int] == b@[k]);
                    }
                }
            }
            j = j + 1;
        }
    }
    proof {
        assert forall|x: int| lo <= x < hi implies #[trigger] out@.contains(x as usize) by {
            if x < mid {
                assert(a@.contains(x as usize));
                let k = choose|k: int| 0 <= k < a@.len() && a@[k] == x as usize;
                assert(out@.contains(a@[k]));
            } else {
                assert(b@.contains(x as usize));
                let k = choose|k: int| 0 <= k < b@.len() && b@[k] == x as usize;
                assert(out@.contains(b@[k]));
            }
        }
    }
    out
}

/// Rank the indices `lo..hi` of `keys` by descending key, stably.
fn rank_range(keys: &[u64], lo: usize, hi: usize) -> (order: Vec<usize>)
    requires
        lo <= hi <= keys@.len(),
    ensures
        order@.len() == hi - lo,
        ranked(keys@, order@),
        within(order@, lo as int, hi as int),
        covers(order@, lo as int, hi as int),
    decreases hi - lo,
{
    if hi - lo <= 1 {
        let mut order: Vec<usize> = Vec::new();
        if lo < hi {
            order.push(lo);
            proof {
                assert(order@[0] == lo);
            }
        }
        order
    } else {
        let mid = lo + (hi - lo) / 2;
        let a = rank_range(keys, lo, mid);
        let b = rank_range(keys, mid, hi);
        merge_runs(keys, a, b, lo, mid, hi)
    }
}

/// Rank agents by fitness key, best first; agents with equal keys keep their order.
pub fn rank_by_fitness(keys: &[u64]) -> (order: Vec<usize>)
    ensures
        is_ranking(keys@, order@),
        forall|p: int, q: int|
            0 <= p < q < order@.len() ==> {
                &&& keys@[#[trigger] order@[p] as int] >= keys@[#[trigger] order@[q] as int]
                &&& keys@[order@[p] as int] == keys@[order@[q] as int] ==> order@[p] < order@[q]
            },
{
    let order = rank_range(keys, 0, keys.len());
    proof {
        lemma_ranking_descending(keys@, order@);
    }
    order
}

/// A ranking lists the agents from the largest fitness key to the smallest, comparing
/// whole keys: whenever agent `a` is listed before agent `b`, `keys[a] >= keys[b]`, and
/// with equal keys `a` is the earlier agent. So an agent with a larger key always comes
/// first, and agents with equal keys keep their order.
pub proof fn lemma_ranking_descending(keys: Seq<u64>, order: Seq<usize>)
    requires
        is_ranking(keys, order),
    ensures
        forall|p: int, q: int|
            0 <= p < q < order.len() ==> {
                &&& keys[#[trigger] order[p] as int] >= keys[#[trigger] order[q] as int]
                &&& keys[order[p] as int] == keys[order[q] as int] ==> order[p] < order[q]
            },
        forall|p: int, q: int|
            0 <= p < order.len() && 0 <= q < order.len() && keys[order[p] as int] > keys[order[q] as int]
                ==> p < q,
{
    assert forall|p: int, q: int| 0 <= p < q < order.len() implies {
        &&& keys[#[trigger] order[p] as int] >= keys[#[trigger] order[q] as int]
        &&& keys[order[p] as int] == keys[order[q] as int] ==> order[p] < order[q]
    } by {
        assert(ranks_before(keys, order[p], order[q]));
    }
    assert forall|p: int, q: int|
        0 <= p < order.len() && 0 <= q < order.len() && keys[order[p] as int] > keys[order[q] as int]
        implies p < q by {
        if q < p {
            assert(ranks_before(keys, order[q], order[p]));
        }
    }
}

/// There is only one ranking of a list of keys.
pub proof fn lemma_ranking_unique(keys: Seq<u64>, o1: Seq<usize>, o2: Seq<usize>)
    requires
        is_ranking(keys, o1),
        is_ranking(keys, o2),
    ensures
        o1 == o2,
{
    assert forall|p: int| 0 <= p < o1.len() implies o1[p] == o2[p] by {
        lemma_ranking_agree_upto(keys, o1, o2, p);
    }
    assert(o1 =~= o2);
}

/// Two rankings agree on every position up to `p`.
proof fn lemma_ranking_agree_upto(keys: Seq<u64>, o1: Seq<usize>, o2: Seq<usize>, p: int)
    requires
        is_ranking(keys, o1),
        is_ranking(keys, o2),
        0 <= p < o1.len(),
    ensures
        forall|r: int| 0 <= r <= p ==> o1[r] == o2[r],
    decreases p,
{
    if p > 0 {
        lemma_ranking_agree_upto(keys, o1, o2, p - 1);
    }
    let x = o1[p];
    let y = o2[p];
    if x != y {
        lemma_ranking_first_difference(keys, o1, o2, p);
        lemma_ranking_first_difference(keys, o2, o1, p);
    }
}

/// At the first position where two rankings differ, the first ranking's entry cannot
/// come before the second's.
proof fn lemma_ranking_first_difference(keys: Seq<u64>, o1: Seq<usize>, o2: Seq<usize>, p: int)
    requires
        is_ranking(keys, o1),
        is_ranking(keys, o2),
        0 <= p < o1.len(),
        forall|r: int| 0 <= r < p ==> o1[r] == o2[r],
        o1[p] != o2[p],
    ensures
        !ranks_before(keys, o1[p], o2[p]),
{
    let x = o1[p];
    let y = o2[p];
    assert(0 <= x < keys.len());
    assert(o2.contains((x as int) as usize));
    let q = choose|q: int| 0 <= q < o2.len() && o2[q] == x;
    if q < p {
        assert(o1[q] == x);
        assert(ranks_before(keys, o1[q], o1[p]));
    } else {
        assert(q != p);
        assert(ranks_before(keys, o2[p], o2[q]));
    }
}

} // verus!
