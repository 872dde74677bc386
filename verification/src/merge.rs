use vstd::prelude::*;

use crate::rank::{is_ranking, lemma_ranking_unique, nat_seq, order_by_weight_desc, ranks_before, total_spec, weighted_total_spec};

verus! {

/// A cluster centre of any representation, with the number of points it stands for.
#[derive(Debug)]
pub struct WeightedCentroid<C> {
    pub centroid: C,
    pub weight: usize,
}

/// The weights of a list of clusters.
pub open spec fn weights_of<C>(clusters: Seq<WeightedCentroid<C>>) -> Seq<nat> {
    clusters.map_values(|c: WeightedCentroid<C>| c.weight as nat)
}

/// The closeness test said that `a` and `b` are not close (in at least one argument order).
pub open spec fn not_close<C, D: Fn(&C, &C) -> Option<u64>>(close: D, a: C, b: C) -> bool {
    call_ensures(close, (&a, &b), None::<u64>) || call_ensures(close, (&b, &a), None::<u64>)
}

/// Every pair of the clusters is, on every call, reported as not close.
pub open spec fn all_far<C, D: Fn(&C, &C) -> Option<u64>>(
    close: D,
    clusters: Seq<WeightedCentroid<C>>,
) -> bool {
    forall|i: int, j: int, r: Option<u64>|
        0 <= i < j < clusters.len() && #[trigger] call_ensures(
            close,
            (&clusters[i].centroid, &clusters[j].centroid),
            r,
        ) ==> r is None
}

/// `(i, j)` comes before `(l, r)` in scan order: by first index, then by second.
pub open spec fn scanned(i: int, j: int, l: int, r: int) -> bool {
    i < l || (i == l && j < r)
}

/// `answers[i][j]` is an answer of `close` for the clusters at `i` and `j`, for every pair
/// `i < j` that comes before `(left, right)` in scan order.
pub open spec fn answered_upto<C, D: Fn(&C, &C) -> Option<u64>>(
    close: D,
    clusters: Seq<WeightedCentroid<C>>,
    answers: Seq<Seq<Option<u64>>>,
    left: int,
    right: int,
) -> bool {
    &&& answers.len() == clusters.len()
    &&& forall|i: int| 0 <= i < clusters.len() ==> (#[trigger] answers[i]).len() == clusters.len()
    &&& forall|i: int, j: int|
        0 <= i < j < clusters.len() && scanned(i, j, left, right) ==> call_ensures(
            close,
            (&clusters[i].centroid, &clusters[j].centroid),
            #[trigger] answers[i][j],
        )
}

/// `answers[i][j]` is an answer of `close` for the clusters at `i` and `j`, for every pair
/// `i < j`: what one scan of the list got back.
pub open spec fn answered<C, D: Fn(&C, &C) -> Option<u64>>(
    close: D,
    clusters: Seq<WeightedCentroid<C>>,
    answers: Seq<Seq<Option<u64>>>,
) -> bool {
    answered_upto(close, clusters, answers, clusters.len() as int, 0)
}

/// No pair `i < j < n` was reported as close.
pub open spec fn none_close(answers: Seq<Seq<Option<u64>>>, n: int) -> bool {
    forall|i: int, j: int| 0 <= i < j < n ==> (#[trigger] answers[i][j]) is None
}

/// `(l, r)` is reported close with the smallest key, and no pair before it in scan order has
/// that key.
pub open spec fn closest_pair(answers: Seq<Seq<Option<u64>>>, n: int, l: int, r: int) -> bool {
    &&& 0 <= l < r < n
    &&& answers[l][r] is Some
    &&& forall|i: int, j: int|
        0 <= i < j < n && (#[trigger] answers[i][j]) is Some ==> answers[l][r]->0 <= answers[i][j]->0
            && (scanned(i, j, l, r) ==> answers[l][r]->0 < answers[i][j]->0)
}

/// What a scan up to `(left, right)` has kept: the first pair with the smallest key so far,
/// or, where it kept none, that no pair scanned was reported close.
spec fn best_so_far(
    answers: Seq<Seq<Option<u64>>>,
    n: int,
    left: int,
    right: int,
    best: Option<(usize, usize)>,
    key: u64,
) -> bool {
    match best {
        None => forall|i: int, j: int|
            0 <= i < j < n && scanned(i, j, left, right) ==> (#[trigger] answers[i][j]) is None,
        Some((l, r)) => {
            &&& l < r < n
            &&& scanned(l as int, r as int, left, right)
            &&& answers[l as int][r as int] == Some(key)
            &&& forall|i: int, j: int|
                0 <= i < j < n && scanned(i, j, left, right) && (#[trigger] answers[i][j]) is Some
                    ==> key <= answers[i][j]->0 && (scanned(i, j, l as int, r as int) ==> key
                    < answers[i][j]->0)
        },
    }
}

/// One merge: with the answers `answers` of a scan of `before`, the closest pair `(l, r)` is
/// replaced by one cluster at `l`, centred where `merge` put it (`centre`) and weighing both.
pub open spec fn merge_step_by<C, D: Fn(&C, &C) -> Option<u64>, M: Fn(&C, usize, &C, usize) -> C>(
    close: D,
    merge: M,
    before: Seq<WeightedCentroid<C>>,
    after: Seq<WeightedCentroid<C>>,
    answers: Seq<Seq<Option<u64>>>,
    l: int,
    r: int,
    centre: C,
) -> bool {
    &&& answered(close, before, answers)
    &&& closest_pair(answers, before.len() as int, l, r)
    &&& call_ensures(
        merge,
        (&before[l].centroid, before[l].weight, &before[r].centroid, before[r].weight),
        centre,
    )
    &&& after == before.update(
        l,
        WeightedCentroid { centroid: centre, weight: (before[l].weight + before[r].weight) as usize },
    ).remove(r)
}

/// `after` is `before` with its closest pair merged.
pub open spec fn merge_step<C, D: Fn(&C, &C) -> Option<u64>, M: Fn(&C, usize, &C, usize) -> C>(
    close: D,
    merge: M,
    before: Seq<WeightedCentroid<C>>,
    after: Seq<WeightedCentroid<C>>,
) -> bool {
    exists|answers: Seq<Seq<Option<u64>>>, l: int, r: int, centre: C|
        #[trigger] merge_step_by(close, merge, before, after, answers, l, r, centre)
}

/// The lists that merging goes through: each one is the one before with its closest pair
/// merged, and in the last no pair was reported as close.
pub open spec fn merge_trace<C, D: Fn(&C, &C) -> Option<u64>, M: Fn(&C, usize, &C, usize) -> C>(
    close: D,
    merge: M,
    lists: Seq<Seq<WeightedCentroid<C>>>,
) -> bool {
    &&& lists.len() >= 1
    &&& forall|t: int| 0 <= t < lists.len() - 1 ==> merge_step(close, merge, #[trigger] lists[t], lists[t + 1])
    &&& exists|answers: Seq<Seq<Option<u64>>>|
        #[trigger] answered(close, lists.last(), answers) && none_close(answers, lists.last().len() as int)
}

/// `output` is what merging `input` ends with (the last of `lists`), ordered by `order`:
/// heaviest first, equal weights in their order.
pub open spec fn merge_outcome<C, D: Fn(&C, &C) -> Option<u64>, M: Fn(&C, usize, &C, usize) -> C>(
    close: D,
    merge: M,
    input: Seq<WeightedCentroid<C>>,
    lists: Seq<Seq<WeightedCentroid<C>>>,
    order: Seq<usize>,
    output: Seq<WeightedCentroid<C>>,
) -> bool {
    &&& merge_trace(close, merge, lists)
    &&& lists[0] == input
    &&& is_ranking(order, weights_of(lists.last()), true)
    &&& order.len() == output.len()
    &&& forall|k: int| 0 <= k < order.len() ==> #[trigger] output[k] == lists.last()[order[k] as int]
}

/// Each merge takes a closest pair: the merged pair `(l, r)` was reported close, no pair
/// reported close has a smaller key, and every close pair scanned before it (by first index,
/// then second) has a strictly larger key.
pub proof fn lemma_merge_takes_closest_pair<
    C,
    D: Fn(&C, &C) -> Option<u64>,
    M: Fn(&C, usize, &C, usize) -> C,
>(
    close: D,
    merge: M,
    input: Seq<WeightedCentroid<C>>,
    lists: Seq<Seq<WeightedCentroid<C>>>,
    order: Seq<usize>,
    output: Seq<WeightedCentroid<C>>,
    t: int,
    answers: Seq<Seq<Option<u64>>>,
    l: int,
    r: int,
    centre: C,
    i: int,
    j: int,
)
    requires
        merge_outcome(close, merge, input, lists, order, output),
        0 <= t < lists.len() - 1,
        merge_step_by(close, merge, lists[t], lists[t + 1], answers, l, r, centre),
        0 <= i < j < lists[t].len(),
        answers[i][j] is Some,
    ensures
        0 <= l < r < lists[t].len(),
        call_ensures(
            close,
            (&lists[t][l].centroid, &lists[t][r].centroid),
            answers[l][r],
        ),
        call_ensures(
            close,
            (&lists[t][i].centroid, &lists[t][j].centroid),
            answers[i][j],
        ),
        answers[l][r] is Some,
        answers[l][r]->0 <= answers[i][j]->0,
        (i < l || (i == l && j < r)) ==> answers[l][r]->0 < answers[i][j]->0,
{
    assert(scanned(l, r, lists[t].len() as int, 0));
    assert(scanned(i, j, lists[t].len() as int, 0));
}

/// `close` gives one answer for a pair of centres, whichever way round it is asked.
pub open spec fn symmetric_test<C, D: Fn(&C, &C) -> Option<u64>>(close: D) -> bool {
    &&& forall|a: &C, b: &C, x: Option<u64>, y: Option<u64>|
        #[trigger] call_ensures(close, (a, b), x) && #[trigger] call_ensures(close, (a, b), y)
            ==> x == y
    &&& forall|a: &C, b: &C, x: Option<u64>, y: Option<u64>|
        #[trigger] call_ensures(close, (a, b), x) && #[trigger] call_ensures(close, (b, a), y)
            ==> x == y
}

/// Merging is idempotent: with a closeness test that gives one answer per pair, whichever way
/// round it is asked, merging what a merge gave back returns it unchanged.
pub proof fn lemma_merge_idempotent<C, D: Fn(&C, &C) -> Option<u64>, M: Fn(&C, usize, &C, usize) -> C>(
    close: D,
    merge: M,
    input: Seq<WeightedCentroid<C>>,
    lists: Seq<Seq<WeightedCentroid<C>>>,
    order: Seq<usize>,
    once: Seq<WeightedCentroid<C>>,
    again: Seq<Seq<WeightedCentroid<C>>>,
    again_order: Seq<usize>,
    twice: Seq<WeightedCentroid<C>>,
)
    requires
        symmetric_test(close),
        merge_outcome(close, merge, input, lists, order, once),
        merge_outcome(close, merge, once, again, again_order, twice),
        once.len() <= usize::MAX,
    ensures
        twice == once,
{
    let last = lists.last();
    let w = weights_of(last);
    let answers = choose|answers: Seq<Seq<Option<u64>>>|
        #[trigger] answered(close, last, answers) && none_close(answers, last.len() as int);
    if again.len() > 1 {
        assert(merge_step(close, merge, again[0], again[1]));
        let (a2, l, r, centre) = choose|a2: Seq<Seq<Option<u64>>>, l: int, r: int, centre: C|
            #[trigger] merge_step_by(close, merge, again[0], again[1], a2, l, r, centre);
        assert(closest_pair(a2, once.len() as int, l, r));
        let (x, y) = (order[l] as int, order[r] as int);
        assert(ranks_before(w, x, y));
        assert(x != y);
        assert(once[l] == last[x] && once[r] == last[y]);
        assert(call_ensures(close, (&once[l].centroid, &once[r].centroid), a2[l][r]));
        if x < y {
            assert(call_ensures(close, (&last[x].centroid, &last[y].centroid), answers[x][y]));
        } else {
            assert(call_ensures(close, (&last[y].centroid, &last[x].centroid), answers[y][x]));
        }
    }
    assert(again.last() == once);
    let identity = Seq::new(once.len(), |i: int| i as usize);
    assert forall|c: int| 0 <= c < once.len() implies #[trigger] identity.contains(c as usize) by {
        assert(identity[c] == c as usize);
    }
    assert forall|i: int, j: int| 0 <= i < j < identity.len() implies ranks_before(
        weights_of(once),
        #[trigger] identity[i] as int,
        #[trigger] identity[j] as int,
    ) by {
        assert(identity[i] == i as usize && identity[j] == j as usize);
        assert(order[i] < w.len() && order[j] < w.len());
        assert(ranks_before(w, order[i] as int, order[j] as int));
        assert(once[i] == last[order[i] as int] && once[j] == last[order[j] as int]);
        assert(weights_of(once)[i] == w[order[i] as int]);
        assert(weights_of(once)[j] == w[order[j] as int]);
    }
    assert(is_ranking(identity, weights_of(once), true));
    lemma_ranking_unique(again_order, identity, weights_of(once), true);
    assert forall|k: int| 0 <= k < twice.len() implies #[trigger] twice[k] == once[k] by {
        assert(twice[k] == again.last()[again_order[k] as int]);
        assert(again_order[k] == identity[k]);
        assert(identity[k] == k as usize);
    }
    assert(twice =~= once);
}

/// `close` and `merge` answer as functions: one answer for the same arguments.
pub open spec fn merging_is_functional<
    C,
    D: Fn(&C, &C) -> Option<u64>,
    M: Fn(&C, usize, &C, usize) -> C,
>(close: D, merge: M) -> bool {
    &&& forall|a: &C, b: &C, x: Option<u64>, y: Option<u64>|
        #[trigger] call_ensures(close, (a, b), x) && #[trigger] call_ensures(close, (a, b), y)
            ==> x == y
    &&& forall|a: &C, wa: usize, b: &C, wb: usize, x: C, y: C|
        #[trigger] call_ensures(merge, (a, wa, b, wb), x) && #[trigger] call_ensures(
            merge,
            (a, wa, b, wb),
            y,
        ) ==> x == y
}

proof fn lemma_answers_agree<C, D: Fn(&C, &C) -> Option<u64>>(
    close: D,
    clusters: Seq<WeightedCentroid<C>>,
    a1: Seq<Seq<Option<u64>>>,
    a2: Seq<Seq<Option<u64>>>,
)
    requires
        forall|a: &C, b: &C, x: Option<u64>, y: Option<u64>|
            #[trigger] call_ensures(close, (a, b), x) && #[trigger] call_ensures(close, (a, b), y)
                ==> x == y,
        answered(close, clusters, a1),
        answered(close, clusters, a2),
    ensures
        forall|i: int, j: int| 0 <= i < j < clusters.len() ==> #[trigger] a1[i][j] == a2[i][j],
{
    assert forall|i: int, j: int| 0 <= i < j < clusters.len() implies #[trigger] a1[i][j]
        == a2[i][j] by {
        assert(scanned(i, j, clusters.len() as int, 0));
        assert(call_ensures(close, (&clusters[i].centroid, &clusters[j].centroid), a1[i][j]));
        assert(call_ensures(close, (&clusters[i].centroid, &clusters[j].centroid), a2[i][j]));
    }
}

proof fn lemma_merge_step_unique<
    C,
    D: Fn(&C, &C) -> Option<u64>,
    M: Fn(&C, usize, &C, usize) -> C,
>(
    close: D,
    merge: M,
    before: Seq<WeightedCentroid<C>>,
    after1: Seq<WeightedCentroid<C>>,
    after2: Seq<WeightedCentroid<C>>,
)
    requires
        merging_is_functional(close, merge),
        merge_step(close, merge, before, after1),
        merge_step(close, merge, before, after2),
    ensures
        after1 == after2,
{
    let (a1, l1, r1, c1) = choose|answers: Seq<Seq<Option<u64>>>, l: int, r: int, centre: C|
        #[trigger] merge_step_by(close, merge, before, after1, answers, l, r, centre);
    let (a2, l2, r2, c2) = choose|answers: Seq<Seq<Option<u64>>>, l: int, r: int, centre: C|
        #[trigger] merge_step_by(close, merge, before, after2, answers, l, r, centre);
    lemma_answers_agree(close, before, a1, a2);
    let n = before.len() as int;
    assert(a1[l1][r1] == a2[l1][r1]);
    assert(a1[l2][r2] == a2[l2][r2]);
    assert(closest_pair(a1, n, l1, r1));
    assert(closest_pair(a2, n, l2, r2));
    if scanned(l1, r1, l2, r2) {
        assert(a2[l2][r2]->0 < a2[l1][r1]->0);
    } else if scanned(l2, r2, l1, r1) {
        assert(a1[l1][r1]->0 < a1[l2][r2]->0);
    }
    assert(l1 == l2 && r1 == r2);
    assert(call_ensures(
        merge,
        (&before[l1].centroid, before[l1].weight, &before[r1].centroid, before[r1].weight),
        c1,
    ));
    assert(call_ensures(
        merge,
        (&before[l1].centroid, before[l1].weight, &before[r1].centroid, before[r1].weight),
        c2,
    ));
}

proof fn lemma_merge_trace_prefix<
    C,
    D: Fn(&C, &C) -> Option<u64>,
    M: Fn(&C, usize, &C, usize) -> C,
>(
    close: D,
    merge: M,
    l1: Seq<Seq<WeightedCentroid<C>>>,
    l2: Seq<Seq<WeightedCentroid<C>>>,
    t: int,
)
    requires
        merging_is_functional(close, merge),
        merge_trace(close, merge, l1),
        merge_trace(close, merge, l2),
        l1[0] == l2[0],
        0 <= t < l1.len(),
        t < l2.len(),
    ensures
        l1[t] == l2[t],
    decreases t,
{
    if t > 0 {
        lemma_merge_trace_prefix(close, merge, l1, l2, t - 1);
        assert(merge_step(close, merge, l1[t - 1], l1[t]));
        assert(merge_step(close, merge, l2[t - 1], l2[t]));
        lemma_merge_step_unique(close, merge, l1[t - 1], l1[t], l2[t]);
    }
}

proof fn lemma_merge_trace_not_shorter<
    C,
    D: Fn(&C, &C) -> Option<u64>,
    M: Fn(&C, usize, &C, usize) -> C,
>(close: D, merge: M, l1: Seq<Seq<WeightedCentroid<C>>>, l2: Seq<Seq<WeightedCentroid<C>>>)
    requires
        merging_is_functional(close, merge),
        merge_trace(close, merge, l1),
        merge_trace(close, merge, l2),
        l1[0] == l2[0],
    ensures
        l1.len() >= l2.len(),
{
    if l1.len() < l2.len() {
        let t = l1.len() - 1;
        lemma_merge_trace_prefix(close, merge, l1, l2, t);
        let last = l1.last();
        let final_answers = choose|answers: Seq<Seq<Option<u64>>>|
            #[trigger] answered(close, last, answers) && none_close(answers, last.len() as int);
        assert(merge_step(close, merge, l2[t], l2[t + 1]));
        let (a2, l, r, centre) = choose|answers: Seq<Seq<Option<u64>>>, l: int, r: int, centre: C|
            #[trigger] merge_step_by(close, merge, l2[t], l2[t + 1], answers, l, r, centre);
        lemma_answers_agree(close, last, final_answers, a2);
        assert(final_answers[l][r] is None);
        assert(closest_pair(a2, last.len() as int, l, r));
    }
}

/// Merging is deterministic: where `close` and `merge` answer as functions, the same
/// clusters merge to the same list.
pub proof fn lemma_merge_deterministic<
    C,
    D: Fn(&C, &C) -> Option<u64>,
    M: Fn(&C, usize, &C, usize) -> C,
>(
    close: D,
    merge: M,
    input: Seq<WeightedCentroid<C>>,
    lists1: Seq<Seq<WeightedCentroid<C>>>,
    order1: Seq<usize>,
    output1: Seq<WeightedCentroid<C>>,
    lists2: Seq<Seq<WeightedCentroid<C>>>,
    order2: Seq<usize>,
    output2: Seq<WeightedCentroid<C>>,
)
    requires
        merging_is_functional(close, merge),
        merge_outcome(close, merge, input, lists1, order1, output1),
        merge_outcome(close, merge, input, lists2, order2, output2),
    ensures
        output1 == output2,
{
    lemma_merge_trace_not_shorter(close, merge, lists1, lists2);
    lemma_merge_trace_not_shorter(close, merge, lists2, lists1);
    lemma_merge_trace_prefix(close, merge, lists1, lists2, lists1.len() - 1);
    let last = lists1.last();
    lemma_ranking_unique(order1, order2, weights_of(last), true);
    assert forall|k: int| 0 <= k < output1.len() implies #[trigger] output1[k] == output2[k] by {
        assert(output1[k] == last[order1[k] as int]);
        assert(output2[k] == lists2.last()[order2[k] as int]);
    }
    assert(output1 =~= output2);
}

proof fn lemma_total_update(s: Seq<nat>, i: int, x: nat)
    requires
        0 <= i < s.len(),
    ensures
        total_spec(s.update(i, x)) + s[i] == total_spec(s) + x,
    decreases s.len(),
{
    let u = s.update(i, x);
    if i == s.len() - 1 {
        assert(u.drop_last() =~= s.drop_last());
    } else {
        assert(u.drop_last() =~= s.drop_last().update(i, x));
        lemma_total_update(s.drop_last(), i, x);
    }
}

proof fn lemma_total_remove(s: Seq<nat>, i: int)
    requires
        0 <= i < s.len(),
    ensures
        total_spec(s.remove(i)) + s[i] == total_spec(s),
    decreases s.len(),
{
    let r = s.remove(i);
    if i == s.len() - 1 {
        assert(r =~= s.drop_last());
    } else {
        assert(r.drop_last() =~= s.drop_last().remove(i));
        assert(r.last() == s.last());
        lemma_total_remove(s.drop_last(), i);
    }
}

proof fn lemma_total_two(s: Seq<nat>, i: int, j: int)
    requires
        0 <= i < s.len(),
        0 <= j < s.len(),
        i != j,
    ensures
        s[i] + s[j] <= total_spec(s),
{
    lemma_total_remove(s, j);
    let r = s.remove(j);
    let i2 = if i < j {
        i
    } else {
        i - 1
    };
    assert(r[i2] == s[i]);
    lemma_total_remove(r, i2);
}

/// The total weight of the input clusters that `group` places at position `c`.
pub open spec fn pooled_weight(group: Seq<int>, weights: Seq<nat>, c: int) -> nat
    decreases group.len(),
{
    if group.len() == 0 {
        0
    } else {
        pooled_weight(group.drop_last(), weights, c) + if group.last() == c {
            weights[group.len() - 1]
        } else {
            0nat
        }
    }
}

/// `group` places every input cluster at one output position, and each output cluster
/// weighs exactly the input clusters placed at its position: merging only pools weights.
pub open spec fn pools_weights<C>(
    group: Seq<int>,
    input: Seq<WeightedCentroid<C>>,
    output: Seq<WeightedCentroid<C>>,
) -> bool {
    &&& group.len() == input.len()
    &&& forall|i: int| 0 <= i < group.len() ==> 0 <= #[trigger] group[i] < output.len()
    &&& forall|k: int|
        0 <= k < output.len() ==> (#[trigger] output[k]).weight == pooled_weight(
            group,
            weights_of(input),
            k,
        )
}

/// Positions after the cluster at `r` is merged into the one at `l` and removed.
pub open spec fn merged_positions(group: Seq<int>, l: int, r: int) -> Seq<int> {
    Seq::new(
        group.len(),
        |i: int|
            if group[i] == r {
                l
            } else if group[i] > r {
                group[i] - 1
            } else {
                group[i]
            },
    )
}

proof fn lemma_pooled_identity(n: nat, weights: Seq<nat>, c: int)
    requires
        n <= weights.len(),
    ensures
        pooled_weight(Seq::new(n, |i: int| i), weights, c) == if 0 <= c < n {
            weights[c]
        } else {
            0nat
        },
    decreases n,
{
    if n > 0 {
        let g = Seq::new(n, |i: int| i);
        assert(g.drop_last() =~= Seq::new((n - 1) as nat, |i: int| i));
        lemma_pooled_identity((n - 1) as nat, weights, c);
    }
}

proof fn lemma_pooled_merge(group: Seq<int>, weights: Seq<nat>, l: int, r: int, c: int)
    requires
        0 <= l < r,
        group.len() <= weights.len(),
    ensures
        pooled_weight(merged_positions(group, l, r), weights, c) == if c == l {
            pooled_weight(group, weights, l) + pooled_weight(group, weights, r)
        } else if c < r {
            pooled_weight(group, weights, c)
        } else {
            pooled_weight(group, weights, c + 1)
        },
    decreases group.len(),
{
    if group.len() > 0 {
        assert(merged_positions(group, l, r).drop_last() =~= merged_positions(
            group.drop_last(),
            l,
            r,
        ));
        lemma_pooled_merge(group.drop_last(), weights, l, r, c);
    }
}

proof fn lemma_pooled_relabel(g1: Seq<int>, g2: Seq<int>, weights: Seq<nat>, c1: int, c2: int)
    requires
        g1.len() == g2.len(),
        g1.len() <= weights.len(),
        forall|i: int| 0 <= i < g1.len() ==> (#[trigger] g1[i] == c1) == (g2[i] == c2),
    ensures
        pooled_weight(g1, weights, c1) == pooled_weight(g2, weights, c2),
    decreases g1.len(),
{
    if g1.len() > 0 {
        let (d1, d2) = (g1.drop_last(), g2.drop_last());
        assert forall|i: int| 0 <= i < d1.len() implies (#[trigger] d1[i] == c1) == (d2[i] == c2) by {
            assert(g1[i] == d1[i] && g2[i] == d2[i]);
        }
        assert(g1[g1.len() - 1] == g1.last());
        lemma_pooled_relabel(d1, d2, weights, c1, c2);
    }
}

/// Repeatedly merges the closest pair of clusters that `close` reports as close, then orders
/// the clusters by weight, heaviest first (equal weights keep their order).
///
/// `close(a, b)` is `None` when `a` and `b` are not close, and otherwise a key that orders
/// pairs by distance; among pairs with the smallest key the first one scanned (by first
/// index, then second) is merged. `merge(a, wa, b, wb)` gives the centre of the merged
/// cluster, whose weight is `wa + wb`. A list of at most one cluster is returned as it is.
pub fn merge_close_clusters<C: Copy, D, M>(
    clusters: Vec<WeightedCentroid<C>>,
    close: D,
    merge: M,
) -> (merged: Vec<WeightedCentroid<C>>) where
    D: Fn(&C, &C) -> Option<u64>,
    M: Fn(&C, usize, &C, usize) -> C,

    requires
        forall|a: &C, b: &C| call_requires(close, (a, b)),
        forall|a: &C, wa: usize, b: &C, wb: usize| call_requires(merge, (a, wa, b, wb)),
        total_spec(weights_of(clusters@)) <= usize::MAX,
    ensures
        total_spec(weights_of(merged@)) == total_spec(weights_of(clusters@)),
        exists|group: Seq<int>| #[trigger] pools_weights(group, clusters@, merged@),
        merged@.len() <= clusters@.len(),
        clusters@.len() <= 1 ==> merged@ == clusters@,
        exists|lists: Seq<Seq<WeightedCentroid<C>>>, order: Seq<usize>|
            #[trigger] merge_outcome(close, merge, clusters@, lists, order, merged@),
        all_far(close, clusters@) ==> exists|order: Seq<usize>|
            {
                &&& is_ranking(order, weights_of(clusters@), true)
                &&& order.len() == merged@.len()
                &&& forall|k: int| 0 <= k < order.len() ==> #[trigger] merged@[k] == clusters@[order[k] as int]
            },
        clusters@.len() > 1 ==> forall|i: int, j: int|
            0 <= i < merged@.len() && 0 <= j < merged@.len() && i != j ==> not_close(
                close,
                (#[trigger] merged@[i]).centroid,
                (#[trigger] merged@[j]).centroid,
            ),
        forall|i: int, j: int|
            0 <= i < j < merged@.len() ==> (#[trigger] merged@[i]).weight >= (
            #[trigger] merged@[j]).weight,
{
    if clusters.len() <= 1 {
        proof {
            let identity = Seq::new(clusters@.len(), |i: int| i as usize);
            assert(forall|c: int|
                0 <= c < clusters@.len() ==> #[trigger] identity.contains(c as usize)) by {
                assert forall|c: int| 0 <= c < clusters@.len() implies #[trigger] identity.contains(
                    c as usize,
                ) by {
                    assert(identity[c] == c as usize);
                }
            }
            assert(is_ranking(identity, weights_of(clusters@), true));
            assert(forall|k: int|
                0 <= k < identity.len() ==> #[trigger] clusters@[k] == clusters@[identity[k] as int]);
            let positions = Seq::new(clusters@.len(), |i: int| i);
            assert forall|k: int| 0 <= k < clusters@.len() implies (#[trigger] clusters@[k]).weight
                == pooled_weight(positions, weights_of(clusters@), k) by {
                lemma_pooled_identity(clusters@.len(), weights_of(clusters@), k);
            }
            assert(pools_weights(positions, clusters@, clusters@));
            let lists = seq![clusters@];
            let answers = Seq::new(
                clusters@.len(),
                |i: int| Seq::new(clusters@.len(), |j: int| None::<u64>),
            );
            assert(answered(close, lists.last(), answers));
            assert(merge_outcome(close, merge, clusters@, lists, identity, clusters@));
        }
        return clusters;
    }
    let ghost total = total_spec(weights_of(clusters@));
    let ghost input = clusters@;
    let ghost mut untouched = true;
    let ghost mut group: Seq<int> = Seq::new(clusters@.len(), |i: int| i);
    proof {
        assert forall|k: int| 0 <= k < clusters@.len() implies (#[trigger] clusters@[k]).weight
            == pooled_weight(group, weights_of(input), k) by {
            lemma_pooled_identity(clusters@.len(), weights_of(input), k);
        }
    }
    let ghost input_len = clusters@.len();
    let ghost mut lists: Seq<Seq<WeightedCentroid<C>>> = seq![clusters@];
    let mut clusters = clusters;
    loop
        invariant_except_break
            clusters@.len() >= 1,
        invariant
            forall|a: &C, b: &C| call_requires(close, (a, b)),
            forall|a: &C, wa: usize, b: &C, wb: usize| call_requires(merge, (a, wa, b, wb)),
            total_spec(weights_of(clusters@)) == total,
            total <= usize::MAX,
            clusters@.len() <= input_len,
            untouched ==> clusters@ == input,
            all_far(close, input) ==> untouched,
            pools_weights(group, input, clusters@),
            lists.len() >= 1,
            lists[0] == input,
            lists.last() == clusters@,
            forall|t: int|
                0 <= t < lists.len() - 1 ==> merge_step(close, merge, #[trigger] lists[t], lists[t + 1]),
        ensures
            untouched ==> clusters@ == input,
            all_far(close, input) ==> untouched,
            pools_weights(group, input, clusters@),
            total_spec(weights_of(clusters@)) == total,
            clusters@.len() <= input_len,
            forall|i: int, j: int|
                0 <= i < j < clusters@.len() ==> call_ensures(
                    close,
                    (&(#[trigger] clusters@[i]).centroid, &(#[trigger] clusters@[j]).centroid),
                    None::<u64>,
                ),
            merge_trace(close, merge, lists),
            lists[0] == input,
            lists.last() == clusters@,
        decreases clusters@.len(),
    {
        let n = clusters.len();
        let mut best: Option<(usize, usize)> = None;
        let mut best_key: u64 = 0;
        let mut left: usize = 0;
        let ghost mut answers: Seq<Seq<Option<u64>>> = Seq::new(
            n as nat,
            |i: int| Seq::new(n as nat, |j: int| None::<u64>),
        );
        while left < n
            invariant
                forall|a: &C, b: &C| call_requires(close, (a, b)),
                n == clusters@.len(),
                left <= n,
                answered_upto(close, clusters@, answers, left as int, left + 1),
                best_so_far(answers, n as int, left as int, left + 1, best, best_key),
            decreases n - left,
        {
            let mut right: usize = left + 1;
            while right < n
                invariant
                    forall|a: &C, b: &C| call_requires(close, (a, b)),
                    n == clusters@.len(),
                    left < n,
                    left + 1 <= right <= n,
                    answered_upto(close, clusters@, answers, left as int, right as int),
                    best_so_far(answers, n as int, left as int, right as int, best, best_key),
                decreases n - right,
            {
                let key = close(&clusters[left].centroid, &clusters[right].centroid);
                proof {
                    answers = answers.update(left as int, answers[left as int].update(right as int, key));
                }
                match key {
                    Some(k) => {
                        if best.is_none() || k < best_key {
                            best = Some((left, right));
                            best_key = k;
                        }
                    },
                    None => {},
                }
                right = right + 1;
            }
            left = left + 1;
        }
        proof {
            assert(answered(close, clusters@, answers));
        }
        match best {
            None => {
                proof {
                    assert(none_close(answers, n as int));
                    assert(answered(close, lists.last(), answers));
                    assert forall|i: int, j: int| 0 <= i < j < clusters@.len() implies call_ensures(
                        close,
                        (&(#[trigger] clusters@[i]).centroid, &(#[trigger] clusters@[j]).centroid),
                        None::<u64>,
                    ) by {
                        assert(answers[i][j] is None);
                        assert(call_ensures(
                            close,
                            (&clusters@[i].centroid, &clusters@[j].centroid),
                            answers[i][j],
                        ));
                    }
                }
                break ;
            },
            Some((l, r)) => {
                proof {
                    assert(closest_pair(answers, n as int, l as int, r as int));
                    if untouched && all_far(close, input) {
                        assert(call_ensures(
                            close,
                            (&input[l as int].centroid, &input[r as int].centroid),
                            answers[l as int][r as int],
                        ));
                    }
                    untouched = false;
                }
                let ghost before = clusters@;
                proof {
                    lemma_total_two(weights_of(before), l as int, r as int);
                }
                let ghost old_group = group;
                let lw = clusters[l].weight;
                let rw = clusters[r].weight;
                let centroid = merge(&clusters[l].centroid, lw, &clusters[r].centroid, rw);
                let combined = WeightedCentroid { centroid, weight: lw + rw };
                clusters.set(l, combined);
                let ghost updated = clusters@;
                proof {
                    lemma_total_update(weights_of(before), l as int, (lw + rw) as nat);
                    assert(weights_of(updated) =~= weights_of(before).update(
                        l as int,
                        (lw + rw) as nat,
                    ));
                    lemma_total_remove(weights_of(updated), r as int);
                }
                clusters.remove(r);
                assert(weights_of(clusters@) =~= weights_of(updated).remove(r as int));
                proof {
                    group = merged_positions(old_group, l as int, r as int);
                    assert forall|k: int| 0 <= k < clusters@.len() implies (
                    #[trigger] clusters@[k]).weight == pooled_weight(group, weights_of(input), k) by {
                        lemma_pooled_merge(old_group, weights_of(input), l as int, r as int, k);
                        if k < r {
                            assert(clusters@[k] == updated[k]);
                        } else {
                            assert(clusters@[k] == updated[k + 1]);
                            assert(updated[k + 1] == before[k + 1]);
                        }
                    }
                    assert forall|i: int| 0 <= i < group.len() implies 0 <= #[trigger] group[i]
                        < clusters@.len() by {
                        assert(0 <= old_group[i] < before.len());
                    }
                    assert(merge_step_by(
                        close,
                        merge,
                        before,
                        clusters@,
                        answers,
                        l as int,
                        r as int,
                        centroid,
                    ));
                    let old_lists = lists;
                    lists = lists.push(clusters@);
                    assert forall|t: int| 0 <= t < lists.len() - 1 implies merge_step(
                        close,
                        merge,
                        #[trigger] lists[t],
                        lists[t + 1],
                    ) by {
                        if t < old_lists.len() - 1 {
                            assert(lists[t] == old_lists[t] && lists[t + 1] == old_lists[t + 1]);
                        }
                    }
                }
            },
        }
    }
    let mut weights: Vec<usize> = Vec::new();
    let mut i: usize = 0;
    while i < clusters.len()
        invariant
            i <= clusters@.len(),
            weights@.len() == i,
            forall|k: int| 0 <= k < i ==> #[trigger] weights@[k] == clusters@[k].weight,
        decreases clusters@.len() - i,
    {
        weights.push(clusters[i].weight);
        i = i + 1;
    }
    let ghost w = nat_seq(weights@);
    assert(w =~= weights_of(clusters@));
    let order = order_by_weight_desc(&weights);
    let mut merged: Vec<WeightedCentroid<C>> = Vec::new();
    let mut k: usize = 0;
    assert(order@.take(0) =~= Seq::<usize>::empty());
    while k < order.len()
        invariant
            w == nat_seq(weights@),
            w == weights_of(clusters@),
            is_ranking(order@, w, true),
            order@.len() == clusters@.len(),
            k <= order@.len(),
            merged@.len() == k,
            forall|i: int| 0 <= i < k ==> #[trigger] merged@[i] == clusters@[order@[i] as int],
            total_spec(weights_of(merged@)) == weighted_total_spec(order@.take(k as int), w),
        decreases order@.len() - k,
    {
        let ghost before = merged@;
        let entry = &clusters[order[k]];
        merged.push(WeightedCentroid { centroid: entry.centroid, weight: entry.weight });
        assert(weights_of(merged@).drop_last() =~= weights_of(before));
        assert(order@.take(k + 1).drop_last() =~= order@.take(k as int));
        k = k + 1;
    }
    assert(order@.take(order@.len() as int) =~= order@);
    assert forall|i: int, j: int| 0 <= i < j < merged@.len() implies (#[trigger] merged@[i]).weight
        >= (#[trigger] merged@[j]).weight by {
        assert(ranks_before(w, order@[i] as int, order@[j] as int));
    }
    assert forall|i: int, j: int|
        0 <= i < merged@.len() && 0 <= j < merged@.len() && i != j implies not_close(
        close,
        (#[trigger] merged@[i]).centroid,
        (#[trigger] merged@[j]).centroid,
    ) by {
        let oi = order@[i] as int;
        let oj = order@[j] as int;
        if i < j {
            assert(ranks_before(w, oi, oj));
        } else {
            assert(ranks_before(w, oj, oi));
        }
        assert(oi != oj);
        if oi < oj {
            assert(call_ensures(close, (&clusters@[oi].centroid, &clusters@[oj].centroid), None::<u64>));
        } else {
            assert(call_ensures(close, (&clusters@[oj].centroid, &clusters@[oi].centroid), None::<u64>));
        }
    }
    proof {
        let m = clusters@.len();
        let o = order@;
        assert forall|i: int, j: int| 0 <= i < o.len() && 0 <= j < o.len() && i != j implies o[i]
            != o[j] by {
            if i < j {
                assert(ranks_before(w, o[i] as int, o[j] as int));
            } else {
                assert(ranks_before(w, o[j] as int, o[i] as int));
            }
        }
        let position = |x: int| choose|k: int| 0 <= k < o.len() && o[k] as int == x;
        let final_group = Seq::new(group.len(), |i: int| position(group[i]));
        assert forall|i: int| 0 <= i < final_group.len() implies 0 <= #[trigger] final_group[i] < merged@.len()
            && o[final_group[i]] as int == group[i] by {
            assert(0 <= group[i] < m);
            assert(o.contains(group[i] as usize));
        }
        assert forall|k: int| 0 <= k < merged@.len() implies (#[trigger] merged@[k]).weight
            == pooled_weight(final_group, weights_of(input), k) by {
            assert forall|i: int| 0 <= i < final_group.len() implies (#[trigger] final_group[i] == k)
                == (group[i] == o[k] as int) by {
                assert(o[final_group[i]] as int == group[i]);
            }
            lemma_pooled_relabel(final_group, group, weights_of(input), k, o[k] as int);
            assert(merged@[k] == clusters@[o[k] as int]);
        }
        assert(pools_weights(final_group, input, merged@));
        assert(merge_outcome(close, merge, input, lists, order@, merged@));
        if all_far(close, input) {
            assert(forall|k: int|
                0 <= k < order@.len() ==> #[trigger] merged@[k] == input[order@[k] as int]);
        }
    }
    merged
}

} // verus!
