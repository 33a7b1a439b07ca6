use vstd::prelude::*;

verus! {

/// A strategy forms a cluster when it holds more than 5% of the population:
/// `count / total > 1/20`.
pub open spec fn is_cluster(count: usize, total: usize) -> bool {
    20 * count > total
}

/// The number of clusters among the per-strategy `counts` of a population of `total`.
pub open spec fn clusters_in(counts: Seq<usize>, total: usize) -> nat
    decreases counts.len(),
{
    if counts.len() == 0 {
        0
    } else {
        clusters_in(counts.drop_last(), total) + if is_cluster(counts.last(), total) {
            1nat
        } else {
            0nat
        }
    }
}

/// The clusters are exactly the entries holding more than a twentieth of the
/// population, wherever they stand and whatever the other entries are: their number is
/// the length of `counts` with every entry of at most 5% filtered out.
pub proof fn lemma_clusters_are_large_counts(counts: Seq<usize>, total: usize)
    ensures
        clusters_in(counts, total) == counts.filter(|x: usize| 20 * x > total).len(),
    decreases counts.len(),
{
    if counts.len() > 0 {
        lemma_clusters_are_large_counts(counts.drop_last(), total);
        assert(counts =~= counts.drop_last().push(counts.last()));
        counts.drop_last().lemma_filter_len_push(|x: usize| 20 * x > total, counts.last());
    }
}

/// Cluster count: the strategies with more than 5% representation.
pub fn cluster_count(counts: &[usize], total: usize) -> (c: usize)
    ensures
        c == clusters_in(counts@, total),
        c == counts@.filter(|x: usize| 20 * x > total).len(),
        c <= counts@.len(),
{
    let mut c: usize = 0;
    let mut i: usize = 0;
    while i < counts.len()
        invariant
            i <= counts@.len(),
            c == clusters_in(counts@.take(i as int), total),
            c <= i,
        decreases counts@.len() - i,
    {
        assert(counts@.take(i + 1).drop_last() =~= counts@.take(i as int));
        let x = counts[i];
        assert((x > total / 20) == (20 * x > total)) by (nonlinear_arith);
        if x > total / 20 {
            c = c + 1;
        }
        i = i + 1;
    }
    assert(counts@.take(counts@.len() as int) =~= counts@);
    proof {
        lemma_clusters_are_large_counts(counts@, total);
    }
    c
}

} // verus!
