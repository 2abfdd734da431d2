//! Ranking of buckets: most pixels first, ties to the smaller key.
use vstd::prelude::*;
use vstd::set_lib::{lemma_int_range, lemma_len_subset, set_int_range};

verus! {

/// Bucket `a` ranks before bucket `b`: it holds more pixels, or as many and
/// has the smaller key.
pub open spec fn ranks_before(counts: Seq<u64>, a: int, b: int) -> bool {
    counts[a] > counts[b] || (counts[a] == counts[b] && a < b)
}

/// `ks` lists, in rank order, the first `min(n, non-empty buckets)`
/// non-empty buckets of `counts`.
pub open spec fn is_top_ranked(counts: Seq<u64>, ks: Seq<usize>, n: nat) -> bool {
    &&& ks.len() <= n
    &&& forall|i: int|
        0 <= i < ks.len() ==> #[trigger] ks[i] < counts.len() && counts[ks[i] as int] > 0
    &&& forall|i: int, j: int|
        0 <= i < j < ks.len() ==> ranks_before(counts, #[trigger] ks[i] as int, #[trigger] ks[j] as int)
    &&& forall|k: int|
        0 <= k < counts.len() && #[trigger] counts[k] > 0 && !ks.contains(k as usize) ==> {
            &&& ks.len() == n
            &&& forall|i: int| 0 <= i < ks.len() ==> ranks_before(counts, #[trigger] ks[i] as int, k)
        }
}

/// A ranking of top buckets lists `min(n, non-empty buckets)` of them.
pub proof fn lemma_top_ranked_len(counts: Seq<u64>, ks: Seq<usize>, n: nat)
    requires
        counts.len() <= usize::MAX,
        is_top_ranked(counts, ks, n),
    ensures
        Set::new(|k: int| 0 <= k < counts.len() && counts[k] > 0).finite(),
        ks.len() == if n <= Set::new(|k: int| 0 <= k < counts.len() && counts[k] > 0).len() {
            n
        } else {
            Set::new(|k: int| 0 <= k < counts.len() && counts[k] > 0).len()
        },
{
    let ne = Set::new(|k: int| 0 <= k < counts.len() && counts[k] > 0);
    let ki = ks.map_values(|k: usize| k as int);
    lemma_int_range(0, counts.len() as int);
    assert(ne.subset_of(set_int_range(0, counts.len() as int)));
    lemma_len_subset(ne, set_int_range(0, counts.len() as int));
    assert(ki.no_duplicates()) by {
        assert forall|i: int, j: int| 0 <= i < ki.len() && 0 <= j < ki.len() && i != j implies ki[i]
            != ki[j] by {
            if i < j {
                assert(ranks_before(counts, ks[i] as int, ks[j] as int));
            } else {
                assert(ranks_before(counts, ks[j] as int, ks[i] as int));
            }
        }
    }
    ki.unique_seq_to_set();
    assert(ki.to_set().subset_of(ne)) by {
        assert forall|x: int| ki.to_set().contains(x) implies ne.contains(x) by {
            let i = choose|i: int| 0 <= i < ki.len() && ki[i] == x;
            assert(ks[i] < counts.len() && counts[ks[i] as int] > 0);
        }
    }
    lemma_len_subset(ki.to_set(), ne);
    if ks.len() < n {
        assert(ne.subset_of(ki.to_set())) by {
            assert forall|x: int| ne.contains(x) implies ki.to_set().contains(x) by {
                assert(0 <= x < counts.len() && counts[x] > 0);
                assert(ks.contains(x as usize));
                let i = choose|i: int| 0 <= i < ks.len() && ks[i] == x as usize;
                assert(ki[i] == x);
            }
        }
        lemma_len_subset(ne, ki.to_set());
    }
}

/// A non-empty bucket that ranks before a listed one is listed earlier.
proof fn lemma_top_ranked_closed(counts: Seq<u64>, ks: Seq<usize>, n: nat, k: int, i: int)
    requires
        counts.len() <= usize::MAX,
        is_top_ranked(counts, ks, n),
        0 <= k < counts.len(),
        counts[k] > 0,
        0 <= i < ks.len(),
        ranks_before(counts, k, ks[i] as int),
    ensures
        exists|j: int| 0 <= j < i && ks[j] == k as usize,
{
    if !ks.contains(k as usize) {
        assert(ranks_before(counts, ks[i] as int, k));
    } else {
        let j = choose|j: int| 0 <= j < ks.len() && ks[j] == k as usize;
        if j >= i {
            if j > i {
                assert(ranks_before(counts, ks[i] as int, ks[j] as int));
            }
        }
    }
}

/// Two rankings of the top `n` buckets of the same counts are equal.
pub proof fn lemma_top_ranked_unique(counts: Seq<u64>, ks1: Seq<usize>, ks2: Seq<usize>, n: nat)
    requires
        counts.len() <= usize::MAX,
        is_top_ranked(counts, ks1, n),
        is_top_ranked(counts, ks2, n),
    ensures
        ks1 == ks2,
{
    let m = if ks1.len() <= ks2.len() {
        ks1.len()
    } else {
        ks2.len()
    };
    assert forall|i: int| 0 <= i < m implies ks1[i] == ks2[i] by {
        lemma_top_ranked_prefix(counts, ks1, ks2, n, i);
    }
    lemma_top_ranked_len_le(counts, ks1, ks2, n);
    lemma_top_ranked_len_le(counts, ks2, ks1, n);
    assert(ks1 =~= ks2);
}

proof fn lemma_top_ranked_prefix(counts: Seq<u64>, ks1: Seq<usize>, ks2: Seq<usize>, n: nat, i: int)
    requires
        counts.len() <= usize::MAX,
        is_top_ranked(counts, ks1, n),
        is_top_ranked(counts, ks2, n),
        0 <= i < ks1.len(),
        i < ks2.len(),
    ensures
        ks1[i] == ks2[i],
    decreases i,
{
    assert forall|j: int| 0 <= j < i implies ks1[j] == ks2[j] by {
        lemma_top_ranked_prefix(counts, ks1, ks2, n, j);
    }
    let (a, b) = (ks1[i] as int, ks2[i] as int);
    if a != b {
        if ranks_before(counts, a, b) {
            lemma_top_ranked_closed(counts, ks2, n, a, i);
            let j = choose|j: int| 0 <= j < i && ks2[j] == a as usize;
            assert(ranks_before(counts, ks1[j] as int, ks1[i] as int));
        } else {
            lemma_top_ranked_closed(counts, ks1, n, b, i);
            let j = choose|j: int| 0 <= j < i && ks1[j] == b as usize;
            assert(ranks_before(counts, ks2[j] as int, ks2[i] as int));
        }
    }
}

proof fn lemma_top_ranked_len_le(counts: Seq<u64>, short: Seq<usize>, long: Seq<usize>, n: nat)
    requires
        counts.len() <= usize::MAX,
        is_top_ranked(counts, short, n),
        is_top_ranked(counts, long, n),
        forall|i: int| 0 <= i < short.len() && i < long.len() ==> short[i] == long[i],
    ensures
        long.len() <= short.len(),
{
    if short.len() < long.len() {
        let i = short.len() as int;
        let k = long[i] as int;
        assert(long[i] < counts.len() && counts[k] > 0);
        if short.contains(k as usize) {
            let j = choose|j: int| 0 <= j < short.len() && short[j] == k as usize;
            assert(ranks_before(counts, long[j] as int, long[i] as int));
        }
    }
}

spec fn is_candidate(counts: Seq<u64>, ks: Seq<usize>, k: int) -> bool {
    counts[k] > 0 && (ks.len() == 0 || ranks_before(counts, ks.last() as int, k))
}

fn ranks_before_exec(counts: &Vec<u64>, a: usize, b: usize) -> (r: bool)
    requires
        a < counts.len(),
        b < counts.len(),
    ensures
        r == ranks_before(counts@, a as int, b as int),
{
    counts[a] > counts[b] || (counts[a] == counts[b] && a < b)
}

/// Lists the non-empty buckets in rank order, at most `n` of them: more
/// pixels first, and among equal counts the smaller key first.
pub fn rank_buckets(counts: &Vec<u64>, n: usize) -> (ks: Vec<usize>)
    ensures
        is_top_ranked(counts@, ks@, n as nat),
{
    let mut ks: Vec<usize> = Vec::new();
    while ks.len() < n
        invariant
            ks.len() <= n,
            forall|i: int|
                0 <= i < ks.len() ==> #[trigger] ks@[i] < counts.len() && counts@[ks@[i] as int] > 0,
            forall|i: int, j: int|
                0 <= i < j < ks.len() ==> ranks_before(
                    counts@,
                    #[trigger] ks@[i] as int,
                    #[trigger] ks@[j] as int,
                ),
            forall|k: int|
                0 <= k < counts.len() && #[trigger] counts@[k] > 0 && ks.len() > 0 && !ranks_before(
                    counts@,
                    ks@.last() as int,
                    k,
                ) ==> ks@.contains(k as usize),
        ensures
            is_top_ranked(counts@, ks@, n as nat),
        decreases n - ks.len(),
    {
        let mut best: usize = counts.len();
        let mut k: usize = 0;
        while k < counts.len()
            invariant
                k <= counts.len(),
                best <= counts.len(),
                forall|i: int| 0 <= i < ks.len() ==> #[trigger] ks@[i] < counts.len(),
                best == counts.len() ==> forall|j: int|
                    0 <= j < k ==> !is_candidate(counts@, ks@, j),
                best < counts.len() ==> {
                    &&& best < k
                    &&& is_candidate(counts@, ks@, best as int)
                    &&& forall|j: int|
                        0 <= j < k && is_candidate(counts@, ks@, j) ==> j == best || ranks_before(
                            counts@,
                            best as int,
                            j,
                        )
                },
            decreases counts.len() - k,
        {
            if counts[k] > 0 && (ks.len() == 0 || ranks_before_exec(counts, ks[ks.len() - 1], k)) && (
            best == counts.len() || ranks_before_exec(counts, k, best)) {
                proof {
                    assert forall|j: int|
                        0 <= j < k && is_candidate(counts@, ks@, j) implies ranks_before(
                        counts@,
                        k as int,
                        j,
                    ) by {
                        if j != best {
                            assert(ranks_before(counts@, best as int, j));
                        }
                    }
                }
                best = k;
            } else {
                proof {
                    if is_candidate(counts@, ks@, k as int) {
                        assert(best < counts.len());
                        assert(ranks_before(counts@, best as int, k as int));
                    }
                }
            }
            k += 1;
        }
        if best == counts.len() {
            proof {
                assert forall|k: int|
                    0 <= k < counts.len() && #[trigger] counts@[k] > 0 implies ks@.contains(
                        k as usize,
                    ) by {
                    assert(!is_candidate(counts@, ks@, k));
                }
            }
            break ;
        }
        let ghost old_ks = ks@;
        ks.push(best);
        proof {
            assert(ks@.last() == best);
            assert forall|i: int| 0 <= i < old_ks.len() implies ranks_before(
                counts@,
                #[trigger] old_ks[i] as int,
                best as int,
            ) by {
                if i < old_ks.len() - 1 {
                    assert(ranks_before(counts@, old_ks[i] as int, old_ks.last() as int));
                }
            }
            assert forall|i: int, j: int| 0 <= i < j < ks.len() implies ranks_before(
                counts@,
                #[trigger] ks@[i] as int,
                #[trigger] ks@[j] as int,
            ) by {
                if j < old_ks.len() {
                    assert(ks@[i] == old_ks[i] && ks@[j] == old_ks[j]);
                } else {
                    assert(ks@[i] == old_ks[i]);
                }
            }
            assert forall|k: int|
                0 <= k < counts.len() && #[trigger] counts@[k] > 0 && !ranks_before(
                    counts@,
                    ks@.last() as int,
                    k,
                ) implies ks@.contains(k as usize) by {
                if old_ks.len() > 0 && !ranks_before(counts@, old_ks.last() as int, k) {
                    let w = choose|w: int| 0 <= w < old_ks.len() && old_ks[w] == k as usize;
                    assert(ks@[w] == k as usize);
                } else {
                    assert(is_candidate(counts@, old_ks, k));
                    assert(ks@[old_ks.len() as int] == k as usize);
                }
            }
        }
    }
    proof {
        assert forall|k: int|
            0 <= k < counts.len() && #[trigger] counts@[k] > 0 && !ks@.contains(
                k as usize,
            ) implies ks.len() == n && forall|i: int|
            0 <= i < ks.len() ==> ranks_before(counts@, #[trigger] ks@[i] as int, k) by {
            assert forall|i: int| 0 <= i < ks.len() implies ranks_before(
                counts@,
                #[trigger] ks@[i] as int,
                k,
            ) by {
                if i < ks.len() - 1 {
                    assert(ranks_before(counts@, ks@[i] as int, ks@.last() as int));
                }
            }
        }
    }
    ks
}

} // verus!
