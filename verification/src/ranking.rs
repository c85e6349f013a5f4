//! Ranking by cost. Candidates are ranked by ascending cost, the earlier
//! first among equals, and the best few are kept. The ranking of given
//! costs is unique.

use vstd::prelude::*;

verus! {

/// Candidate `a` ranks before candidate `b`: its cost is lower, or the
/// same and it came first.
pub open spec fn ranks_before(costs: Seq<u64>, a: int, b: int) -> bool {
    costs[a] < costs[b] || (costs[a] == costs[b] && a < b)
}

/// `ranking` lists the best `k` of the first `upto` candidates, or all of
/// them where they are fewer, best first.
pub open spec fn is_ranking(costs: Seq<u64>, upto: int, k: int, ranking: Seq<usize>) -> bool {
    &&& ranking.len() == if k <= upto {
        k
    } else {
        upto
    }
    &&& forall|i: int| 0 <= i < ranking.len() ==> (#[trigger] ranking[i]) < upto
    &&& forall|i: int, j: int|
        0 <= i < j < ranking.len() ==> ranks_before(
            costs,
            (#[trigger] ranking[i]) as int,
            (#[trigger] ranking[j]) as int,
        )
    &&& forall|i: int, d: usize|
        0 <= i < ranking.len() && d < upto && !#[trigger] ranking.contains(d) ==> ranks_before(
            costs,
            (#[trigger] ranking[i]) as int,
            d as int,
        )
}

/// What is kept of the candidates under a ceiling: the ranking of the
/// best `k`, unless there is none to keep or the best one costs more than
/// `ceiling`.
pub open spec fn is_selection(costs: Seq<u64>, k: int, ceiling: u64, kept: Option<Seq<usize>>) -> bool {
    match kept {
        Some(ranking) => {
            &&& is_ranking(costs, costs.len() as int, k, ranking)
            &&& ranking.len() > 0
            &&& costs[ranking[0] as int] <= ceiling
        },
        None => k <= 0 || forall|i: int| 0 <= i < costs.len() ==> #[trigger] costs[i] > ceiling,
    }
}

/// While no more candidates were seen than are kept, all of them are in
/// the ranking.
pub open spec fn covers(upto: int, k: int, ranking: Seq<usize>) -> bool {
    upto <= k ==> forall|d: usize| d < upto ==> #[trigger] ranking.contains(d)
}

/// What a sequence holds after an insertion: the new element and what it
/// held before.
pub proof fn lemma_insert_contains(ranking: Seq<usize>, p: int, c: usize)
    requires
        0 <= p <= ranking.len(),
    ensures
        forall|d: usize| #[trigger]
            ranking.insert(p, c).contains(d) <==> (d == c || ranking.contains(d)),
{
    let inserted = ranking.insert(p, c);
    assert forall|d: usize| #[trigger] inserted.contains(d) <==> (d == c || ranking.contains(d)) by {
        if inserted.contains(d) {
            let i = choose|i: int| 0 <= i < inserted.len() && inserted[i] == d;
            if i < p {
                assert(ranking[i] == d);
            } else if i > p {
                assert(ranking[i - 1] == d);
            }
        }
        if ranking.contains(d) {
            let i = choose|i: int| 0 <= i < ranking.len() && ranking[i] == d;
            if i < p {
                assert(inserted[i] == d);
            } else {
                assert(inserted[i + 1] == d);
            }
        }
        if d == c {
            assert(inserted[p] == d);
        }
    }
}

/// A ranking with the next candidate put at its place is ordered.
pub proof fn lemma_insert_ordered(costs: Seq<u64>, c: int, k: int, ranking: Seq<usize>, p: int)
    requires
        0 <= c < costs.len(),
        c <= usize::MAX,
        is_ranking(costs, c, k, ranking),
        0 <= p <= ranking.len(),
        forall|i: int| 0 <= i < p ==> costs[(#[trigger] ranking[i]) as int] <= costs[c],
        forall|i: int| p <= i < ranking.len() ==> costs[(#[trigger] ranking[i]) as int] > costs[c],
    ensures
        forall|i: int, j: int|
            0 <= i < j < ranking.len() + 1 ==> ranks_before(
                costs,
                (#[trigger] ranking.insert(p, c as usize)[i]) as int,
                (#[trigger] ranking.insert(p, c as usize)[j]) as int,
            ),
        forall|i: int| 0 <= i < ranking.len() + 1 ==> (#[trigger] ranking.insert(p, c as usize)[i]) < c + 1,
{
    let inserted = ranking.insert(p, c as usize);
    assert forall|i: int, j: int| 0 <= i < j < ranking.len() + 1 implies ranks_before(
        costs,
        (#[trigger] inserted[i]) as int,
        (#[trigger] inserted[j]) as int,
    ) by {
        if j < p {
            assert(inserted[i] == ranking[i] && inserted[j] == ranking[j]);
        } else if j == p {
            assert(inserted[i] == ranking[i]);
        } else if i < p {
            assert(inserted[i] == ranking[i] && inserted[j] == ranking[j - 1]);
        } else if i == p {
            assert(inserted[j] == ranking[j - 1]);
        } else {
            assert(inserted[i] == ranking[i - 1] && inserted[j] == ranking[j - 1]);
        }
    }
    assert forall|i: int| 0 <= i < ranking.len() + 1 implies (#[trigger] inserted[i]) < c + 1 by {
        if i < p {
            assert(inserted[i] == ranking[i]);
        } else if i > p {
            assert(inserted[i] == ranking[i - 1]);
        }
    }
}

/// A ranking that is not full yet takes the next candidate in.
pub proof fn lemma_rank_grow(costs: Seq<u64>, c: int, k: int, ranking: Seq<usize>, p: int)
    requires
        0 <= c < costs.len(),
        c <= usize::MAX,
        is_ranking(costs, c, k, ranking),
        covers(c, k, ranking),
        ranking.len() < k,
        0 <= p <= ranking.len(),
        forall|i: int| 0 <= i < p ==> costs[(#[trigger] ranking[i]) as int] <= costs[c],
        forall|i: int| p <= i < ranking.len() ==> costs[(#[trigger] ranking[i]) as int] > costs[c],
    ensures
        is_ranking(costs, c + 1, k, ranking.insert(p, c as usize)),
        covers(c + 1, k, ranking.insert(p, c as usize)),
{
    lemma_insert_contains(ranking, p, c as usize);
    lemma_insert_ordered(costs, c, k, ranking, p);
    let inserted = ranking.insert(p, c as usize);
    assert forall|d: usize| d < c + 1 implies #[trigger] inserted.contains(d) by {
        if d < c {
            assert(ranking.contains(d));
        }
    }
}

/// A full ranking takes the next candidate in at a place before its end
/// and drops its last.
pub proof fn lemma_rank_replace(costs: Seq<u64>, c: int, k: int, ranking: Seq<usize>, p: int)
    requires
        0 <= c < costs.len(),
        c <= usize::MAX,
        is_ranking(costs, c, k, ranking),
        ranking.len() == k,
        0 <= p <= ranking.len(),
        p < k,
        forall|i: int| 0 <= i < p ==> costs[(#[trigger] ranking[i]) as int] <= costs[c],
        forall|i: int| p <= i < ranking.len() ==> costs[(#[trigger] ranking[i]) as int] > costs[c],
    ensures
        is_ranking(costs, c + 1, k, ranking.insert(p, c as usize).drop_last()),
        covers(c + 1, k, ranking.insert(p, c as usize).drop_last()),
{
    lemma_insert_contains(ranking, p, c as usize);
    lemma_insert_ordered(costs, c, k, ranking, p);
    let inserted = ranking.insert(p, c as usize);
    let kept = inserted.drop_last();
    let last = inserted[inserted.len() - 1];
    assert(last == ranking[ranking.len() - 1]);
    assert forall|i: int, d: usize|
        0 <= i < kept.len() && d < c + 1 && !#[trigger] kept.contains(d) implies ranks_before(
        costs,
        (#[trigger] kept[i]) as int,
        d as int,
    ) by {
        assert(kept[i] == inserted[i]);
        assert(ranks_before(costs, inserted[i] as int, inserted[inserted.len() - 1] as int));
        if d != last {
            if inserted.contains(d) {
                let j = choose|j: int| 0 <= j < inserted.len() && inserted[j] == d;
                assert(kept[j] == d);
            }
            assert(!ranking.contains(d));
            assert(ranks_before(costs, ranking[ranking.len() - 1] as int, d as int));
        }
    }
    assert forall|i: int, j: int| 0 <= i < j < kept.len() implies ranks_before(
        costs,
        (#[trigger] kept[i]) as int,
        (#[trigger] kept[j]) as int,
    ) by {
        assert(kept[i] == inserted[i] && kept[j] == inserted[j]);
    }
    assert forall|i: int| 0 <= i < kept.len() implies (#[trigger] kept[i]) < c + 1 by {
        assert(kept[i] == inserted[i]);
    }
}

/// A full ranking whose every candidate costs no more than the next one
/// leaves the next one out.
pub proof fn lemma_rank_skip(costs: Seq<u64>, c: int, k: int, ranking: Seq<usize>)
    requires
        0 <= c < costs.len(),
        is_ranking(costs, c, k, ranking),
        ranking.len() >= k,
        forall|i: int| 0 <= i < ranking.len() ==> costs[(#[trigger] ranking[i]) as int] <= costs[c],
    ensures
        is_ranking(costs, c + 1, k, ranking),
        covers(c + 1, k, ranking),
{
    assert forall|i: int, d: usize|
        0 <= i < ranking.len() && d < c + 1 && !#[trigger] ranking.contains(d) implies ranks_before(
        costs,
        (#[trigger] ranking[i]) as int,
        d as int,
    ) by {
        if d == c {
            assert(costs[ranking[i] as int] <= costs[c]);
            assert(ranking[i] < c);
        }
    }
}

/// Finds the place of candidate `c` in a ranking of the candidates before
/// it: behind all that cost no more.
fn rank_place(costs: &[u64], ranking: &Vec<usize>, c: usize, k: usize) -> (p: usize)
    requires
        c < costs@.len(),
        is_ranking(costs@, c as int, k as int, ranking@),
    ensures
        p <= ranking@.len(),
        forall|i: int| 0 <= i < p ==> costs@[(#[trigger] ranking@[i]) as int] <= costs@[c as int],
        forall|i: int|
            p <= i < ranking@.len() ==> costs@[(#[trigger] ranking@[i]) as int] > costs@[c as int],
{
    let mut p: usize = 0;
    while p < ranking.len() && costs[ranking[p]] <= costs[c]
        invariant
            p <= ranking@.len(),
            c < costs@.len(),
            is_ranking(costs@, c as int, k as int, ranking@),
            forall|i: int| 0 <= i < p ==> costs@[(#[trigger] ranking@[i]) as int] <= costs@[c as int],
        decreases ranking@.len() - p,
    {
        p += 1;
    }
    proof {
        assert forall|i: int| p <= i < ranking@.len() implies costs@[(#[trigger] ranking@[i]) as int]
            > costs@[c as int] by {
            if i > p {
                assert(ranks_before(costs@, ranking@[p as int] as int, ranking@[i] as int));
            }
        }
    }
    p
}

/// Ranks the candidates by cost, the earlier first among equals, and keeps
/// the best `k`.
pub fn rank_top(costs: &[u64], k: usize) -> (ranking: Vec<usize>)
    ensures
        is_ranking(costs@, costs@.len() as int, k as int, ranking@),
{
    let n = costs.len();
    let mut ranking: Vec<usize> = Vec::new();
    let mut c: usize = 0;
    while c < n
        invariant
            c <= n,
            n == costs@.len(),
            is_ranking(costs@, c as int, k as int, ranking@),
            covers(c as int, k as int, ranking@),
        decreases n - c,
    {
        let ghost before = ranking@;
        let p = rank_place(costs, &ranking, c, k);
        if p < k {
            ranking.insert(p, c);
            if ranking.len() > k {
                ranking.pop();
                proof {
                    assert(ranking@ =~= before.insert(p as int, c).drop_last());
                    lemma_rank_replace(costs@, c as int, k as int, before, p as int);
                }
            } else {
                proof {
                    lemma_rank_grow(costs@, c as int, k as int, before, p as int);
                }
            }
        } else {
            proof {
                lemma_rank_skip(costs@, c as int, k as int, before);
            }
        }
        c += 1;
    }
    ranking
}

/// Two rankings of the same candidates that agree on the first `i` places
/// cannot differ at place `i` with the first one's candidate ranking
/// before the second one's.
proof fn lemma_ranking_place(costs: Seq<u64>, k: int, first: Seq<usize>, second: Seq<usize>, i: int)
    requires
        is_ranking(costs, costs.len() as int, k, first),
        is_ranking(costs, costs.len() as int, k, second),
        0 <= i < first.len(),
        forall|j: int| 0 <= j < i ==> first[j] == second[j],
    ensures
        !ranks_before(costs, first[i] as int, second[i] as int),
{
    if ranks_before(costs, first[i] as int, second[i] as int) {
        if second.contains(first[i]) {
            let j = choose|j: int| 0 <= j < second.len() && second[j] == first[i];
            if j < i {
                assert(ranks_before(costs, first[j] as int, first[i] as int));
            } else if j > i {
                assert(ranks_before(costs, second[i] as int, second[j] as int));
            }
        } else {
            assert(ranks_before(costs, second[i] as int, first[i] as int));
        }
    }
}

/// Two rankings of the same candidates agree on their first `n` places.
proof fn lemma_ranking_agree(costs: Seq<u64>, k: int, first: Seq<usize>, second: Seq<usize>, n: int)
    requires
        is_ranking(costs, costs.len() as int, k, first),
        is_ranking(costs, costs.len() as int, k, second),
        0 <= n <= first.len(),
    ensures
        forall|j: int| 0 <= j < n ==> first[j] == second[j],
    decreases n,
{
    if n > 0 {
        lemma_ranking_agree(costs, k, first, second, n - 1);
        lemma_ranking_place(costs, k, first, second, n - 1);
        lemma_ranking_place(costs, k, second, first, n - 1);
    }
}

/// The ranking is a function of the costs and of the number of candidates
/// kept: the same costs are never ranked in two ways, whatever their ties.
pub proof fn lemma_ranking_unique(costs: Seq<u64>, k: int, first: Seq<usize>, second: Seq<usize>)
    requires
        is_ranking(costs, costs.len() as int, k, first),
        is_ranking(costs, costs.len() as int, k, second),
    ensures
        first == second,
{
    lemma_ranking_agree(costs, k, first, second, first.len() as int);
    assert(first =~= second);
}

/// The best candidate of a ranking costs no more than any candidate.
pub proof fn lemma_ranking_best(costs: Seq<u64>, k: int, ranking: Seq<usize>, other: usize)
    requires
        is_ranking(costs, costs.len() as int, k, ranking),
        ranking.len() > 0,
        other < costs.len(),
    ensures
        costs[ranking[0] as int] <= costs[other as int],
{
    if other != ranking[0] {
        if ranking.contains(other) {
            let j = choose|j: int| 0 <= j < ranking.len() && ranking[j] == other;
            assert(ranks_before(costs, ranking[0] as int, ranking[j] as int));
        } else {
            assert(ranks_before(costs, ranking[0] as int, other as int));
        }
    }
}

/// What is kept is a function of the costs, of the number of candidates
/// kept and of the ceiling: the same candidates are never decided on in two
/// ways.
pub proof fn lemma_selection_unique(
    costs: Seq<u64>,
    k: int,
    ceiling: u64,
    first: Option<Seq<usize>>,
    second: Option<Seq<usize>>,
)
    requires
        is_selection(costs, k, ceiling, first),
        is_selection(costs, k, ceiling, second),
    ensures
        first == second,
{
    match (first, second) {
        (Some(a), Some(b)) => {
            lemma_ranking_unique(costs, k, a, b);
        },
        (Some(a), None) => {
            assert(costs[a[0] as int] > ceiling);
        },
        (None, Some(b)) => {
            assert(costs[b[0] as int] > ceiling);
        },
        (None, None) => {},
    }
}

} // verus!
