//! Ordering successful solutions by score, best first.
use vstd::prelude::*;

use crate::allocator::all_boards_wf;
use crate::board::{Board, boards_view};
use crate::solver::{score, solution_score};

verus! {

/// Score of a solution.
pub open spec fn key(solution: Vec<Board>) -> int {
    solution_score(boards_view(solution@))
}

/// Where a solution scoring `k` goes in `ranked`: before the first solution
/// that scores less than `k`, so after every one that scores at least as much.
pub open spec fn insertion_point(ranked: Seq<Vec<Board>>, k: int) -> int
    decreases ranked.len(),
{
    if ranked.len() == 0 || key(ranked[0]) < k {
        0
    } else {
        1 + insertion_point(ranked.drop_first(), k)
    }
}

/// All solutions by descending score; among equal scores, in their order in
/// `solutions` (a stable sort).
pub open spec fn rank_all(solutions: Seq<Vec<Board>>) -> Seq<Vec<Board>>
    decreases solutions.len(),
{
    if solutions.len() == 0 {
        Seq::empty()
    } else {
        let ranked = rank_all(solutions.drop_last());
        ranked.insert(insertion_point(ranked, key(solutions.last())), solutions.last())
    }
}

/// The `n` best solutions, or all of them when there are fewer.
pub open spec fn ranked(solutions: Seq<Vec<Board>>, n: int) -> Seq<Vec<Board>> {
    let count = if n < solutions.len() {
        n
    } else {
        solutions.len() as int
    };
    rank_all(solutions).take(count)
}

/// Scores never increase along the sequence.
pub open spec fn sorted_by_score(s: Seq<Vec<Board>>) -> bool {
    forall|i: int, j: int| 0 <= i < j < s.len() ==> key(#[trigger] s[i]) >= key(#[trigger] s[j])
}

proof fn lemma_insertion_point(ranked: Seq<Vec<Board>>, k: int)
    ensures
        0 <= insertion_point(ranked, k) <= ranked.len(),
        forall|j: int| 0 <= j < insertion_point(ranked, k) ==> key(#[trigger] ranked[j]) >= k,
        insertion_point(ranked, k) < ranked.len() ==> key(ranked[insertion_point(ranked, k)]) < k,
    decreases ranked.len(),
{
    if ranked.len() > 0 && key(ranked[0]) >= k {
        lemma_insertion_point(ranked.drop_first(), k);
        assert forall|j: int| 0 <= j < insertion_point(ranked, k) implies key(
            #[trigger] ranked[j],
        ) >= k by {
            if j > 0 {
                assert(ranked[j] == ranked.drop_first()[j - 1]);
            }
        }
    }
}

/// Ranking keeps every solution and orders them by descending score.
pub proof fn lemma_rank_all(solutions: Seq<Vec<Board>>)
    ensures
        sorted_by_score(rank_all(solutions)),
        rank_all(solutions).to_multiset() == solutions.to_multiset(),
        rank_all(solutions).len() == solutions.len(),
    decreases solutions.len(),
{
    broadcast use vstd::seq_lib::group_to_multiset_ensures;

    if solutions.len() > 0 {
        let rest = rank_all(solutions.drop_last());
        let x = solutions.last();
        let p = insertion_point(rest, key(x));
        lemma_rank_all(solutions.drop_last());
        lemma_insertion_point(rest, key(x));
        let r = rest.insert(p, x);
        assert forall|i: int, j: int| 0 <= i < j < r.len() implies key(#[trigger] r[i]) >= key(
            #[trigger] r[j],
        ) by {
            if j < p {
                assert(r[i] == rest[i] && r[j] == rest[j]);
            } else if j == p {
                assert(r[i] == rest[i]);
            } else if i < p {
                assert(r[i] == rest[i] && r[j] == rest[j - 1]);
            } else if i == p {
                assert(r[j] == rest[j - 1]);
                assert(key(rest[p]) < key(x));
                assert(key(rest[p]) >= key(rest[j - 1]));
            } else {
                assert(r[i] == rest[i - 1] && r[j] == rest[j - 1]);
            }
        }
        assert(solutions.drop_last().push(x) =~= solutions);
    }
}

/// Ranks `solutions` by descending score, keeping their order among equal
/// scores, and keeps the first `result_count`.
pub fn rank(solutions: Vec<Vec<Board>>, result_count: usize) -> (r: Vec<Vec<Board>>)
    requires
        forall|i: int| 0 <= i < solutions@.len() ==> all_boards_wf(#[trigger] solutions@[i]@),
    ensures
        r@ == ranked(solutions@, result_count as int),
{
    let ghost all = solutions@;
    let mut rest = solutions;
    let mut sorted: Vec<Vec<Board>> = Vec::new();
    let mut keys: Vec<u64> = Vec::new();
    let mut i: usize = 0;
    let total = rest.len();
    assert(all.take(0) =~= Seq::<Vec<Board>>::empty());
    while rest.len() > 0
        invariant
            all.len() == total,
            i + rest@.len() == all.len(),
            rest@ == all.subrange(i as int, all.len() as int),
            forall|m: int| 0 <= m < all.len() ==> all_boards_wf(#[trigger] all[m]@),
            sorted@ == rank_all(all.take(i as int)),
            keys@.len() == sorted@.len(),
            forall|m: int| 0 <= m < keys@.len() ==> keys@[m] == key(#[trigger] sorted@[m]),
        decreases rest@.len(),
    {
        let solution = rest.remove(0);
        assert(solution == all[i as int]);
        let k = score(solution.as_slice());
        let ghost before = sorted@;
        let mut p: usize = 0;
        assert(before.subrange(0, before.len() as int) =~= before);
        while p < keys.len() && keys[p] >= k
            invariant
                p <= keys@.len(),
                keys@.len() == before.len(),
                forall|m: int| 0 <= m < keys@.len() ==> keys@[m] == key(#[trigger] before[m]),
                insertion_point(before, k as int) == p + insertion_point(
                    before.subrange(p as int, before.len() as int),
                    k as int,
                ),
            decreases keys@.len() - p,
        {
            let ghost tail = before.subrange(p as int, before.len() as int);
            assert(tail[0] == before[p as int]);
            assert(tail.drop_first() =~= before.subrange(p + 1, before.len() as int));
            p += 1;
        }
        proof {
            let tail = before.subrange(p as int, before.len() as int);
            if p < keys@.len() {
                assert(tail[0] == before[p as int]);
            }
        }
        sorted.insert(p, solution);
        keys.insert(p, k);
        proof {
            assert(all.take(i + 1).drop_last() =~= all.take(i as int));
            assert(all.take(i + 1).last() == all[i as int]);
            assert forall|m: int| 0 <= m < keys@.len() implies keys@[m] == key(
                #[trigger] sorted@[m],
            ) by {
                if m < p {
                    assert(sorted@[m] == before[m]);
                } else if m > p {
                    assert(sorted@[m] == before[m - 1]);
                }
            }
        }
        i += 1;
        assert(rest@ =~= all.subrange(i as int, all.len() as int));
    }
    assert(all.take(i as int) =~= all);
    proof {
        lemma_rank_all(all);
    }
    sorted.truncate(result_count);
    sorted
}


/// Monotonic truncation: the first `n` solutions of the descending order,
/// every solution when `n` is at least their number; asking for fewer gives a
/// prefix of what asking for more gives.
pub proof fn lemma_ranked_truncation(solutions: Seq<Vec<Board>>, n: int, m: int)
    requires
        0 <= n <= m,
    ensures
        sorted_by_score(rank_all(solutions)),
        ranked(solutions, n).len() == if n < solutions.len() {
            n
        } else {
            solutions.len() as int
        },
        n >= solutions.len() ==> ranked(solutions, n) == rank_all(solutions),
        n >= solutions.len() ==> ranked(solutions, n).to_multiset() == solutions.to_multiset(),
        ranked(solutions, n) == ranked(solutions, m).take(ranked(solutions, n).len() as int),
{
    lemma_rank_all(solutions);
    if n >= solutions.len() {
        assert(rank_all(solutions).take(solutions.len() as int) =~= rank_all(solutions));
    }
    assert(ranked(solutions, n) =~= ranked(solutions, m).take(ranked(solutions, n).len() as int));
}

/// The scores of a sequence of solutions, in order.
pub open spec fn scores(s: Seq<Vec<Board>>) -> Seq<int> {
    s.map_values(|x: Vec<Board>| key(x))
}

proof fn lemma_scores_multiset(a: Seq<Vec<Board>>, b: Seq<Vec<Board>>)
    requires
        a.to_multiset() == b.to_multiset(),
    ensures
        scores(a).to_multiset() == scores(b).to_multiset(),
    decreases a.len(),
{
    broadcast use vstd::seq_lib::group_to_multiset_ensures;
    broadcast use vstd::multiset::group_multiset_axioms;

    assert(a.len() == b.len()) by {
        assert(a.len() == a.to_multiset().len());
        assert(b.len() == b.to_multiset().len());
    }
    if a.len() == 0 {
        assert(scores(a) =~= scores(b));
    } else {
        let x = a.last();
        assert(a.contains(x)) by {
            assert(a[a.len() - 1] == x);
        }
        assert(a.to_multiset().count(x) > 0);
        assert(b.to_multiset().count(x) > 0);
        assert(b.contains(x));
        let i = choose|i: int| 0 <= i < b.len() && b[i] == x;
        assert(a.remove(a.len() - 1) =~= a.drop_last());
        assert(a.drop_last().to_multiset() == b.remove(i).to_multiset());
        lemma_scores_multiset(a.drop_last(), b.remove(i));
        assert(scores(a.drop_last()) =~= scores(a).remove(a.len() - 1));
        assert(scores(b.remove(i)) =~= scores(b).remove(i));
        let ma = scores(a).to_multiset();
        let mb = scores(b).to_multiset();
        assert(scores(a)[a.len() - 1] == key(x));
        assert(scores(b)[i] == key(x));
        assert(ma.remove(key(x)) == mb.remove(key(x)));
        assert(ma.count(key(x)) > 0) by {
            assert(scores(a).contains(key(x)));
        }
        assert(mb.count(key(x)) > 0) by {
            assert(scores(b).contains(key(x)));
        }
        assert(ma =~= ma.remove(key(x)).insert(key(x)));
        assert(mb =~= mb.remove(key(x)).insert(key(x)));
    }
}

proof fn lemma_sorted_scores_equal(a: Seq<int>, b: Seq<int>)
    requires
        forall|i: int, j: int| 0 <= i < j < a.len() ==> #[trigger] a[i] >= #[trigger] a[j],
        forall|i: int, j: int| 0 <= i < j < b.len() ==> #[trigger] b[i] >= #[trigger] b[j],
        a.to_multiset() == b.to_multiset(),
    ensures
        a == b,
    decreases a.len(),
{
    broadcast use vstd::seq_lib::group_to_multiset_ensures;
    broadcast use vstd::multiset::group_multiset_axioms;

    assert(a.len() == b.len()) by {
        assert(a.len() == a.to_multiset().len());
        assert(b.len() == b.to_multiset().len());
    }
    if a.len() > 0 {
        assert(b.contains(b[0]));
        assert(b.to_multiset().count(b[0]) > 0);
        assert(a.to_multiset().count(b[0]) > 0);
        assert(a.contains(b[0]));
        let ja = choose|j: int| 0 <= j < a.len() && a[j] == b[0];
        assert(a[0] >= b[0]) by {
            if ja > 0 {
                assert(a[0] >= a[ja]);
            }
        }
        assert(a.contains(a[0]));
        assert(a.to_multiset().count(a[0]) > 0);
        assert(b.to_multiset().count(a[0]) > 0);
        assert(b.contains(a[0]));
        let jb = choose|j: int| 0 <= j < b.len() && b[j] == a[0];
        assert(b[0] >= a[0]) by {
            if jb > 0 {
                assert(b[0] >= b[jb]);
            }
        }
        assert(a.remove(0) =~= a.drop_first());
        assert(b.remove(0) =~= b.drop_first());
        lemma_sorted_scores_equal(a.drop_first(), b.drop_first());
        assert(a =~= b) by {
            assert forall|i: int| 0 <= i < a.len() implies a[i] == b[i] by {
                if i > 0 {
                    assert(a[i] == a.drop_first()[i - 1]);
                    assert(b[i] == b.drop_first()[i - 1]);
                }
            }
        }
    }
}

/// Ranking does not depend on the order of the trials: two lists that hold
/// the same solutions, in any order, rank to the same sequence of scores.
pub proof fn lemma_ranking_ignores_trial_order(s1: Seq<Vec<Board>>, s2: Seq<Vec<Board>>, n: int)
    requires
        s1.to_multiset() == s2.to_multiset(),
        0 <= n,
    ensures
        scores(ranked(s1, n)) == scores(ranked(s2, n)),
{
    broadcast use vstd::seq_lib::group_to_multiset_ensures;

    lemma_rank_all(s1);
    lemma_rank_all(s2);
    let a = rank_all(s1);
    let b = rank_all(s2);
    lemma_scores_multiset(a, b);
    assert(s1.len() == s2.len()) by {
        assert(s1.len() == s1.to_multiset().len());
        assert(s2.len() == s2.to_multiset().len());
    }
    assert forall|i: int, j: int| 0 <= i < j < scores(a).len() implies #[trigger] scores(a)[i]
        >= #[trigger] scores(a)[j] by {
        assert(key(a[i]) >= key(a[j]));
    }
    assert forall|i: int, j: int| 0 <= i < j < scores(b).len() implies #[trigger] scores(b)[i]
        >= #[trigger] scores(b)[j] by {
        assert(key(b[i]) >= key(b[j]));
    }
    lemma_sorted_scores_equal(scores(a), scores(b));
    let c = ranked(s1, n).len() as int;
    assert(scores(ranked(s1, n)) =~= scores(a).take(c));
    assert(scores(ranked(s2, n)) =~= scores(b).take(c));
}

} // verus!
