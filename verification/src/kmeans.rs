use vstd::prelude::*;

use crate::merge::{weights_of, WeightedCentroid};
use crate::rng::{index_step_spec, scramble_spec, seed_state_spec, xorshift_spec, Rng};
use crate::rank::{
    nat_seq, clusters_of, count_populations, count_spec, counts_spec, first_max_index, first_min_index, is_ranking,
    populated_clusters, population_total_spec, rank_clusters, ranks_before, total_spec,
    ClusterPopulation,
};

verus! {

/// The indices of the points assigned to cluster `c`, in increasing order.
pub open spec fn members_spec(assignments: Seq<usize>, c: int) -> Seq<usize>
    decreases assignments.len(),
{
    if assignments.len() == 0 {
        Seq::empty()
    } else {
        let before = members_spec(assignments.drop_last(), c);
        if assignments.last() as int == c {
            before.push((assignments.len() - 1) as usize)
        } else {
            before
        }
    }
}

/// The indices of the points assigned to `cluster`, in increasing order.
fn members_of(assignments: &Vec<usize>, cluster: usize) -> (members: Vec<usize>)
    ensures
        members@ == members_spec(assignments@, cluster as int),
{
    let mut members: Vec<usize> = Vec::new();
    let mut i: usize = 0;
    assert(assignments@.take(0) =~= Seq::<usize>::empty());
    while i < assignments.len()
        invariant
            i <= assignments@.len(),
            members@ == members_spec(assignments@.take(i as int), cluster as int),
        decreases assignments@.len() - i,
    {
        assert(assignments@.take(i + 1).drop_last() =~= assignments@.take(i as int));
        if assignments[i] == cluster {
            members.push(i);
        }
        i = i + 1;
    }
    assert(assignments@.take(assignments@.len() as int) =~= assignments@);
    members
}

/// `nearest` is the first index holding the smallest key below `u64::MAX`, or 0 when every
/// key is `u64::MAX`.
pub open spec fn is_first_nearest(keys: Seq<u64>, nearest: int) -> bool {
    &&& (forall|j: int| 0 <= j < keys.len() ==> #[trigger] keys[j] == u64::MAX) ==> nearest == 0
    &&& (exists|j: int| 0 <= j < keys.len() && #[trigger] keys[j] < u64::MAX) ==> {
        &&& 0 <= nearest < keys.len()
        &&& keys[nearest] < u64::MAX
        &&& forall|j: int| 0 <= j < nearest ==> #[trigger] keys[j] > keys[nearest]
        &&& forall|j: int| nearest < j < keys.len() ==> #[trigger] keys[j] >= keys[nearest]
    }
}

/// `nearest` is the centre that `point` goes to: for some keys that `key` gave from the
/// point to each centre, it is the first one with the smallest key.
pub open spec fn goes_to<T, K: Fn(&T, &T) -> u64>(
    key: K,
    point: T,
    centroids: Seq<T>,
    nearest: int,
) -> bool {
    exists|keys: Seq<u64>|
        {
            &&& keys.len() == centroids.len()
            &&& forall|c: int|
                0 <= c < centroids.len() ==> call_ensures(key, (&point, &centroids[c]), #[trigger] keys[c])
            &&& is_first_nearest(keys, nearest)
        }
}

/// The first centre with the smallest key to `point` (keys of `u64::MAX` never win); 0 when
/// none is below that.
fn nearest_index<T, K>(point: &T, centroids: &Vec<T>, key: &K) -> (nearest: usize) where
    K: Fn(&T, &T) -> u64,

    requires
        forall|a: &T, b: &T| call_requires(*key, (a, b)),
    ensures
        nearest == 0 || nearest < centroids@.len(),
        goes_to(*key, *point, centroids@, nearest as int),
{
    let mut keys: Vec<u64> = Vec::new();
    let mut c: usize = 0;
    while c < centroids.len()
        invariant
            forall|a: &T, b: &T| call_requires(*key, (a, b)),
            c <= centroids@.len(),
            keys@.len() == c,
            forall|d: int|
                0 <= d < c ==> call_ensures(*key, (point, &centroids@[d]), #[trigger] keys@[d]),
        decreases centroids@.len() - c,
    {
        let k = key(point, &centroids[c]);
        keys.push(k);
        c = c + 1;
    }
    let nearest = first_min_index(&keys, u64::MAX);
    assert(is_first_nearest(keys@, nearest as int));
    nearest
}

/// The smallest of `keys`, and `u64::MAX` when there are none.
pub open spec fn min_key_spec(keys: Seq<u64>) -> u64
    decreases keys.len(),
{
    if keys.len() == 0 {
        u64::MAX
    } else {
        let before = min_key_spec(keys.drop_last());
        if keys.last() < before {
            keys.last()
        } else {
            before
        }
    }
}

/// `keys` are answers that `key` gave from `point` to each of the centres.
pub open spec fn keys_to_centres<T, K: Fn(&T, &T) -> u64>(
    key: K,
    point: T,
    centres: Seq<T>,
    keys: Seq<u64>,
) -> bool {
    &&& keys.len() == centres.len()
    &&& forall|c: int|
        0 <= c < centres.len() ==> call_ensures(key, (&point, &centres[c]), #[trigger] keys[c])
}

/// With `table[p]` the keys from point `p` to the centres, `best` is the first point whose
/// smallest key is the largest.
pub open spec fn farthest_witness<T, K: Fn(&T, &T) -> u64>(
    key: K,
    points: Seq<T>,
    centres: Seq<T>,
    table: Seq<Seq<u64>>,
    best: int,
) -> bool {
    &&& table.len() == points.len()
    &&& forall|p: int|
        0 <= p < points.len() ==> keys_to_centres(key, points[p], centres, #[trigger] table[p])
    &&& 0 <= best < points.len()
    &&& forall|q: int|
        0 <= q < best ==> min_key_spec(#[trigger] table[q]) < min_key_spec(table[best])
    &&& forall|q: int|
        best < q < points.len() ==> min_key_spec(#[trigger] table[q]) <= min_key_spec(table[best])
}

/// `far` is the point farthest from every centre: the first point whose smallest key to the
/// centres is the largest.
pub open spec fn farthest_from<T, K: Fn(&T, &T) -> u64>(
    key: K,
    points: Seq<T>,
    centres: Seq<T>,
    far: T,
) -> bool {
    exists|table: Seq<Seq<u64>>, best: int|
        #[trigger] farthest_witness(key, points, centres, table, best) && far == points[best]
}

/// The first point whose smallest key to any centre is the largest.
fn farthest_point<T: Copy, K>(points: &Vec<T>, centroids: &Vec<T>, key: &K) -> (far: T) where
    K: Fn(&T, &T) -> u64,

    requires
        points@.len() > 0,
        forall|a: &T, b: &T| call_requires(*key, (a, b)),
    ensures
        points@.contains(far),
        farthest_from(*key, points@, centroids@, far),
{
    let mut keys: Vec<u64> = Vec::new();
    let ghost mut table: Seq<Seq<u64>> = Seq::empty();
    let mut p: usize = 0;
    while p < points.len()
        invariant
            forall|a: &T, b: &T| call_requires(*key, (a, b)),
            p <= points@.len(),
            keys@.len() == p,
            table.len() == p,
            forall|q: int|
                0 <= q < p ==> keys_to_centres(*key, points@[q], centroids@, #[trigger] table[q])
                    && keys@[q] == min_key_spec(table[q]),
        decreases points@.len() - p,
    {
        let mut nearest: u64 = u64::MAX;
        let ghost mut row: Seq<u64> = Seq::empty();
        let mut c: usize = 0;
        while c < centroids.len()
            invariant
                forall|a: &T, b: &T| call_requires(*key, (a, b)),
                c <= centroids@.len(),
                p < points@.len(),
                row.len() == c,
                forall|d: int|
                    0 <= d < c ==> call_ensures(*key, (&points@[p as int], &centroids@[d]), #[trigger] row[d]),
                nearest == min_key_spec(row),
            decreases centroids@.len() - c,
        {
            let k = key(&points[p], &centroids[c]);
            proof {
                let before = row;
                row = row.push(k);
                assert(row.drop_last() =~= before);
            }
            if k < nearest {
                nearest = k;
            }
            c = c + 1;
        }
        keys.push(nearest);
        proof {
            table = table.push(row);
        }
        p = p + 1;
    }
    let best = first_max_index(&keys);
    assert(farthest_witness(*key, points@, centroids@, table, best as int));
    points[best]
}

/// `clusters` are the clusters of a final `assignment` of the points to `k` `centres`: each
/// point goes to its nearest centre by `key`, `ids` lists in increasing order the centres
/// that received points, each cluster weighs as many points as its centre received, and its
/// centre is `mean` of the `members` listed for it.
pub open spec fn lloyd_outcome<T, K: Fn(&T, &T) -> u64, A: Fn(&Vec<T>, &Vec<usize>) -> T>(
    points: &Vec<T>,
    k: nat,
    clusters: Seq<WeightedCentroid<T>>,
    key: K,
    mean: A,
    centres: Seq<T>,
    assignment: Seq<usize>,
    ids: Seq<usize>,
    members: Seq<Vec<usize>>,
) -> bool {
    &&& centres.len() == k
    &&& forall|p: int|
        0 <= p < assignment.len() ==> goes_to(key, points@[p], centres, #[trigger] assignment[p] as int)
    &&& assignment.len() == points@.len()
    &&& ids.len() == clusters.len()
    &&& members.len() == clusters.len()
    &&& forall|p: int| 0 <= p < assignment.len() ==> #[trigger] assignment[p] < k
    &&& forall|i: int, j: int| 0 <= i < j < ids.len() ==> #[trigger] ids[i] < #[trigger] ids[j]
    &&& forall|q: int|
        0 <= q < ids.len() ==> #[trigger] ids[q] < k && count_spec(assignment, ids[q] as int) > 0
    &&& forall|c: int|
        0 <= c < k && count_spec(assignment, c) > 0 ==> #[trigger] ids.contains(c as usize)
    &&& forall|q: int|
        0 <= q < clusters.len() ==> {
            &&& (#[trigger] clusters[q]).weight == count_spec(assignment, ids[q] as int)
            &&& members[q]@ == members_spec(assignment, ids[q] as int)
            &&& call_ensures(mean, (points, &members[q]), clusters[q].centroid)
        }
}

/// `m` lists the points assigned to centre `c`, and `v` is what `mean` answered for them.
pub open spec fn mean_of_members<T, A: Fn(&Vec<T>, &Vec<usize>) -> T>(
    mean: A,
    points: &Vec<T>,
    assignment: Seq<usize>,
    c: int,
    m: Vec<usize>,
    v: T,
) -> bool {
    &&& m@ == members_spec(assignment, c)
    &&& call_ensures(mean, (points, &m), v)
}

/// The refresh of centre `c`, from the centres `before` to `after`: a centre that received
/// no point jumps to the point farthest from the centres (and counts as settled); any other
/// becomes `mean` of its points, and `ok` is what `settled(old, new)` answered.
pub open spec fn refreshed_centre<
    T,
    K: Fn(&T, &T) -> u64,
    A: Fn(&Vec<T>, &Vec<usize>) -> T,
    S: Fn(&T, &T) -> bool,
>(
    key: K,
    mean: A,
    settled: S,
    points: &Vec<T>,
    assignment: Seq<usize>,
    before: Seq<T>,
    c: int,
    after: Seq<T>,
    ok: bool,
) -> bool {
    if count_spec(assignment, c) == 0 {
        &&& ok
        &&& exists|far: T|
            #[trigger] farthest_from(key, points@, before, far) && after == before.update(c, far)
    } else {
        exists|m: Vec<usize>, v: T|
            #[trigger] mean_of_members(mean, points, assignment, c, m, v) && call_ensures(
                settled,
                (&before[c], &v),
                ok,
            ) && after == before.update(c, v)
    }
}

/// The centres refreshed one after the other: `chain[c + 1]` is `chain[c]` with centre `c`
/// refreshed, and `oks[c]` says whether it settled.
pub open spec fn refresh_chain<
    T,
    K: Fn(&T, &T) -> u64,
    A: Fn(&Vec<T>, &Vec<usize>) -> T,
    S: Fn(&T, &T) -> bool,
>(
    key: K,
    mean: A,
    settled: S,
    points: &Vec<T>,
    assignment: Seq<usize>,
    chain: Seq<Seq<T>>,
    oks: Seq<bool>,
) -> bool {
    &&& chain.len() == oks.len() + 1
    &&& forall|c: int|
        0 <= c < oks.len() ==> #[trigger] refreshed_centre(
            key,
            mean,
            settled,
            points,
            assignment,
            chain[c],
            c,
            chain[c + 1],
            oks[c],
        )
}

/// One Lloyd iteration from `centres` and `assignment`: every point goes to its nearest
/// centre, then the centres are refreshed in order. `changed` says that a point changed
/// centre or a centre received no point; `all_settled` that every refreshed centre settled.
pub open spec fn lloyd_step<
    T,
    K: Fn(&T, &T) -> u64,
    A: Fn(&Vec<T>, &Vec<usize>) -> T,
    S: Fn(&T, &T) -> bool,
>(
    key: K,
    mean: A,
    settled: S,
    points: &Vec<T>,
    centres: Seq<T>,
    assignment: Seq<usize>,
    next_centres: Seq<T>,
    next_assignment: Seq<usize>,
    changed: bool,
    all_settled: bool,
) -> bool {
    &&& next_assignment.len() == assignment.len()
    &&& forall|p: int|
        0 <= p < next_assignment.len() ==> #[trigger] next_assignment[p] < centres.len() && goes_to(
            key,
            points@[p],
            centres,
            next_assignment[p] as int,
        )
    &&& changed == ((exists|p: int|
        0 <= p < assignment.len() && #[trigger] next_assignment[p] != assignment[p]) || (exists|
        c: int,
    | 0 <= c < centres.len() && #[trigger] count_spec(next_assignment, c) == 0))
    &&& exists|chain: Seq<Seq<T>>, oks: Seq<bool>|
        #[trigger] refresh_chain(key, mean, settled, points, next_assignment, chain, oks)
            && oks.len() == centres.len() && chain[0] == centres && chain[oks.len() as int]
            == next_centres && all_settled == (forall|c: int|
            0 <= c < oks.len() ==> #[trigger] oks[c])
}

/// The Lloyd iterations from the `initial` centres and every point at centre 0: the
/// centres and assignments after each iteration, and each iteration's (`changed`,
/// `all_settled`). They stop after `max_iterations`, or after the first iteration in which
/// nothing changed or every centre settled.
pub open spec fn lloyd_trace<
    T,
    K: Fn(&T, &T) -> u64,
    A: Fn(&Vec<T>, &Vec<usize>) -> T,
    S: Fn(&T, &T) -> bool,
>(
    key: K,
    mean: A,
    settled: S,
    points: &Vec<T>,
    initial: Seq<T>,
    max_iterations: nat,
    centres: Seq<Seq<T>>,
    assignments: Seq<Seq<usize>>,
    flags: Seq<(bool, bool)>,
) -> bool {
    &&& centres.len() == flags.len() + 1
    &&& assignments.len() == flags.len() + 1
    &&& flags.len() <= max_iterations
    &&& centres[0] == initial
    &&& assignments[0] == Seq::new(points@.len(), |p: int| 0usize)
    &&& forall|i: int|
        0 <= i < flags.len() ==> lloyd_step(
            key,
            mean,
            settled,
            points,
            centres[i],
            assignments[i],
            centres[i + 1],
            assignments[i + 1],
            (#[trigger] flags[i]).0,
            flags[i].1,
        )
    &&& forall|i: int| 0 <= i < flags.len() - 1 ==> (#[trigger] flags[i]).0 && !flags[i].1
    &&& flags.len() == max_iterations || (flags.len() > 0 && (!flags[flags.len() - 1].0
        || flags[flags.len() - 1].1))
}

/// The clusters come from the Lloyd iterations of `lloyd_trace`, assigned around its last
/// centres as `lloyd_outcome` says.
pub open spec fn lloyd_result<
    T,
    K: Fn(&T, &T) -> u64,
    A: Fn(&Vec<T>, &Vec<usize>) -> T,
    S: Fn(&T, &T) -> bool,
>(
    key: K,
    mean: A,
    settled: S,
    points: &Vec<T>,
    initial: Seq<T>,
    max_iterations: nat,
    clusters: Seq<WeightedCentroid<T>>,
    centres: Seq<Seq<T>>,
    assignments: Seq<Seq<usize>>,
    flags: Seq<(bool, bool)>,
    assignment: Seq<usize>,
    ids: Seq<usize>,
    members: Seq<Vec<usize>>,
) -> bool {
    &&& lloyd_trace(key, mean, settled, points, initial, max_iterations, centres, assignments, flags)
    &&& lloyd_outcome(
        points,
        initial.len(),
        clusters,
        key,
        mean,
        centres.last(),
        assignment,
        ids,
        members,
    )
}

proof fn lemma_increasing_ids_fit(ids: Seq<usize>, k: nat)
    requires
        forall|i: int, j: int| 0 <= i < j < ids.len() ==> #[trigger] ids[i] < #[trigger] ids[j],
        forall|i: int| 0 <= i < ids.len() ==> #[trigger] ids[i] < k,
    ensures
        ids.len() <= k,
    decreases ids.len(),
{
    if ids.len() > 0 {
        let rest = ids.drop_last();
        assert forall|i: int| 0 <= i < rest.len() implies #[trigger] rest[i] < ids.last() by {
            assert(ids[i] < ids[ids.len() - 1]);
        }
        lemma_increasing_ids_fit(rest, ids.last() as nat);
    }
}

/// Lloyd's k-means iterations from the `initial` centres, then the clusters that end up
/// with points.
///
/// `key(point, centre)` orders the distances from a point to the centres (`u64::MAX` stands
/// for "no nearer than the largest distance"); each point goes to the first centre with the
/// smallest key. `mean(points, members)` is the centre of the listed points, and
/// `settled(old, new)` says that a centre moved less than the convergence threshold. A
/// centre that receives no point jumps to the point farthest from every centre. The
/// iterations stop after `max_iterations`, when no point changes centre, or when every
/// recomputed centre has settled.
///
/// Every point lands in exactly one resulting cluster, each cluster's centre is `mean` of
/// its points, and the clusters come in the order of their centres.
#[verifier::spinoff_prover]
pub fn lloyd_clusters<T: Copy, K, A, S>(
    points: &Vec<T>,
    initial: Vec<T>,
    max_iterations: usize,
    key: K,
    mean: A,
    settled: S,
) -> (clusters: Vec<WeightedCentroid<T>>) where
    K: Fn(&T, &T) -> u64,
    A: Fn(&Vec<T>, &Vec<usize>) -> T,
    S: Fn(&T, &T) -> bool,

    requires
        points@.len() > 0,
        initial@.len() > 0,
        forall|a: &T, b: &T| call_requires(key, (a, b)),
        forall|p: &Vec<T>, m: &Vec<usize>| call_requires(mean, (p, m)),
        forall|a: &T, b: &T| call_requires(settled, (a, b)),
    ensures
        total_spec(weights_of(clusters@)) == points@.len(),
        1 <= clusters@.len() <= initial@.len(),
        forall|k: int| 0 <= k < clusters@.len() ==> (#[trigger] clusters@[k]).weight > 0,
        exists|
            centres: Seq<Seq<T>>,
            assignments: Seq<Seq<usize>>,
            flags: Seq<(bool, bool)>,
            assignment: Seq<usize>,
            ids: Seq<usize>,
            members: Seq<Vec<usize>>,
        |
            #[trigger] lloyd_result(
                key,
                mean,
                settled,
                points,
                initial@,
                max_iterations as nat,
                clusters@,
                centres,
                assignments,
                flags,
                assignment,
                ids,
                members,
            ),
{
    let n = points.len();
    let k = initial.len();
    let ghost start = initial@;
    let mut centroids = initial;
    let mut assignments: Vec<usize> = Vec::new();
    let mut i: usize = 0;
    while i < n
        invariant
            n == points@.len(),
            i <= n,
            assignments@.len() == i,
            forall|p: int| 0 <= p < i ==> #[trigger] assignments@[p] == 0,
        decreases n - i,
    {
        assignments.push(0);
        i = i + 1;
    }
    assert(assignments@ =~= Seq::new(n as nat, |p: int| 0usize));
    let ghost mut trace_c: Seq<Seq<T>> = seq![centroids@];
    let ghost mut trace_a: Seq<Seq<usize>> = seq![assignments@];
    let ghost mut flags: Seq<(bool, bool)> = Seq::empty();
    let mut iteration: usize = 0;
    while iteration < max_iterations
        invariant_except_break
            flags.len() == iteration,
            forall|i: int| 0 <= i < flags.len() ==> (#[trigger] flags[i]).0 && !flags[i].1,
        invariant
            n == points@.len(),
            n > 0,
            k > 0,
            centroids@.len() == k,
            assignments@.len() == n,
            forall|p: int| 0 <= p < n ==> #[trigger] assignments@[p] < k,
            forall|a: &T, b: &T| call_requires(key, (a, b)),
            forall|p: &Vec<T>, m: &Vec<usize>| call_requires(mean, (p, m)),
            forall|a: &T, b: &T| call_requires(settled, (a, b)),
            trace_c.len() == flags.len() + 1,
            trace_a.len() == flags.len() + 1,
            flags.len() <= max_iterations,
            trace_c[0] == start,
            trace_a[0] == Seq::new(n as nat, |p: int| 0usize),
            trace_c.last() == centroids@,
            trace_a.last() == assignments@,
            forall|i: int|
                0 <= i < flags.len() ==> lloyd_step(
                    key,
                    mean,
                    settled,
                    points,
                    trace_c[i],
                    trace_a[i],
                    trace_c[i + 1],
                    trace_a[i + 1],
                    (#[trigger] flags[i]).0,
                    flags[i].1,
                ),
        ensures
            centroids@.len() == k,
            trace_c.last() == centroids@,
            lloyd_trace(key, mean, settled, points, start, max_iterations as nat, trace_c, trace_a, flags),
        decreases max_iterations - iteration,
    {
        let ghost centres_start = centroids@;
        let ghost old_assign = assignments@;
        let mut changed = false;
        let mut index: usize = 0;
        while index < n
            invariant
                n == points@.len(),
                k > 0,
                centroids@ == centres_start,
                centroids@.len() == k,
                index <= n,
                assignments@.len() == n,
                old_assign.len() == n,
                forall|p: int| 0 <= p < n ==> #[trigger] assignments@[p] < k,
                forall|a: &T, b: &T| call_requires(key, (a, b)),
                forall|p: int|
                    0 <= p < index ==> goes_to(key, points@[p], centres_start, #[trigger] assignments@[p] as int),
                forall|p: int| index <= p < n ==> #[trigger] assignments@[p] == old_assign[p],
                changed == (exists|p: int| 0 <= p < index && #[trigger] assignments@[p] != old_assign[p]),
            decreases n - index,
        {
            let ghost prev = assignments@;
            let ghost prev_changed = changed;
            let nearest = nearest_index(&points[index], &centroids, &key);
            if assignments[index] != nearest {
                changed = true;
                assignments.set(index, nearest);
            }
            proof {
                assert forall|p: int| 0 <= p < index implies assignments@[p] == prev[p] by {}
                if prev_changed {
                    let q = choose|q: int| 0 <= q < index && #[trigger] prev[q] != old_assign[q];
                    assert(assignments@[q] != old_assign[q]);
                }
                if changed && !prev_changed {
                    assert(assignments@[index as int] != old_assign[index as int]);
                }
                if !changed {
                    assert forall|p: int| 0 <= p < index + 1 implies #[trigger] assignments@[p]
                        == old_assign[p] by {
                        if p < index {
                            assert(prev[p] == old_assign[p]);
                        }
                    }
                }
            }
            index = index + 1;
        }
        let ghost new_assign = assignments@;
        let ghost changed_assign = changed;
        let counts = count_populations(&assignments, k);
        let mut all_settled = true;
        let ghost mut chain: Seq<Seq<T>> = seq![centres_start];
        let ghost mut oks: Seq<bool> = Seq::empty();
        let mut c: usize = 0;
        while c < k
            invariant
                n == points@.len(),
                n > 0,
                centroids@.len() == k,
                counts@.len() == k,
                nat_seq(counts@) == counts_spec(new_assign, k as nat),
                assignments@ == new_assign,
                new_assign.len() == n,
                c <= k,
                forall|a: &T, b: &T| call_requires(key, (a, b)),
                forall|p: &Vec<T>, m: &Vec<usize>| call_requires(mean, (p, m)),
                forall|a: &T, b: &T| call_requires(settled, (a, b)),
                chain.len() == c + 1,
                oks.len() == c,
                chain[0] == centres_start,
                chain[c as int] == centroids@,
                refresh_chain(key, mean, settled, points, new_assign, chain, oks),
                all_settled == (forall|d: int| 0 <= d < c ==> #[trigger] oks[d]),
                changed == (changed_assign || exists|d: int|
                    0 <= d < c && #[trigger] count_spec(new_assign, d) == 0),
            decreases k - c,
        {
            assert(nat_seq(counts@)[c as int] == count_spec(new_assign, c as int));
            let ghost before = centroids@;
            let ghost old_chain = chain;
            let ghost old_oks = oks;
            let ghost mut ok = true;
            if counts[c] == 0 {
                let far = farthest_point(points, &centroids, &key);
                centroids.set(c, far);
                changed = true;
                proof {
                    assert(farthest_from(key, points@, before, far));
                }
            } else {
                let members = members_of(&assignments, c);
                let updated = mean(points, &members);
                let calm = settled(&centroids[c], &updated);
                proof {
                    ok = calm;
                    assert(mean_of_members(mean, points, new_assign, c as int, members, updated));
                }
                if !calm {
                    all_settled = false;
                }
                centroids.set(c, updated);
            }
            proof {
                chain = chain.push(centroids@);
                oks = oks.push(ok);
                assert(refreshed_centre(key, mean, settled, points, new_assign, before, c as int, centroids@, ok));
                assert forall|d: int| 0 <= d < oks.len() implies #[trigger] refreshed_centre(
                    key,
                    mean,
                    settled,
                    points,
                    new_assign,
                    chain[d],
                    d,
                    chain[d + 1],
                    oks[d],
                ) by {
                    if d < c {
                        assert(chain[d] == old_chain[d] && chain[d + 1] == old_chain[d + 1]);
                        assert(oks[d] == old_oks[d]);
                    }
                }
                assert(oks[c as int] == ok);
                assert forall|d: int| 0 <= d < c implies oks[d] == old_oks[d] by {}
                if all_settled {
                    assert forall|d: int| 0 <= d < c + 1 implies #[trigger] oks[d] by {
                        if d < c {
                            assert(old_oks[d]);
                        }
                    }
                } else {
                    if ok {
                        let d = choose|d: int| 0 <= d < c && !#[trigger] old_oks[d];
                        assert(!oks[d]);
                    } else {
                        assert(!oks[c as int]);
                    }
                }
            }
            c = c + 1;
        }
        proof {
            assert(lloyd_step(
                key,
                mean,
                settled,
                points,
                centres_start,
                old_assign,
                centroids@,
                assignments@,
                changed,
                all_settled,
            ));
            let old_c = trace_c;
            let old_a = trace_a;
            let old_f = flags;
            trace_c = trace_c.push(centroids@);
            trace_a = trace_a.push(assignments@);
            flags = flags.push((changed, all_settled));
            assert forall|i: int| 0 <= i < flags.len() implies lloyd_step(
                key,
                mean,
                settled,
                points,
                trace_c[i],
                trace_a[i],
                trace_c[i + 1],
                trace_a[i + 1],
                (#[trigger] flags[i]).0,
                flags[i].1,
            ) by {
                if i < old_f.len() {
                    assert(trace_c[i] == old_c[i] && trace_c[i + 1] == old_c[i + 1]);
                    assert(trace_a[i] == old_a[i] && trace_a[i + 1] == old_a[i + 1]);
                    assert(flags[i] == old_f[i]);
                }
            }
            assert(trace_c[0] == start && trace_a[0] == old_a[0]);
        }
        if !changed || all_settled {
            proof {
                assert forall|i: int| 0 <= i < flags.len() - 1 implies (#[trigger] flags[i]).0
                    && !flags[i].1 by {
                    assert(flags[i] == flags.drop_last()[i]);
                }
                assert(lloyd_trace(key, mean, settled, points, start, max_iterations as nat, trace_c, trace_a, flags));
            }
            break ;
        }
        iteration = iteration + 1;
    }
    let mut final_assignments: Vec<usize> = Vec::new();
    let mut p: usize = 0;
    while p < n
        invariant
            n == points@.len(),
            k > 0,
            centroids@.len() == k,
            p <= n,
            final_assignments@.len() == p,
            forall|q: int| 0 <= q < p ==> #[trigger] final_assignments@[q] < k,
            forall|q: int|
                0 <= q < p ==> goes_to(key, points@[q], centroids@, #[trigger] final_assignments@[q] as int),
            forall|a: &T, b: &T| call_requires(key, (a, b)),
        decreases n - p,
    {
        let nearest = nearest_index(&points[p], &centroids, &key);
        final_assignments.push(nearest);
        p = p + 1;
    }
    let populated = populated_clusters(&final_assignments, k);
    let ghost a = final_assignments@;
    let ghost ids = clusters_of(populated@);
    let ghost mut witnesses: Seq<Vec<usize>> = Seq::empty();
    let mut clusters: Vec<WeightedCentroid<T>> = Vec::new();
    let mut j: usize = 0;
    while j < populated.len()
        invariant
            a == final_assignments@,
            ids == clusters_of(populated@),
            forall|p: &Vec<T>, m: &Vec<usize>| call_requires(mean, (p, m)),
            forall|q: int|
                0 <= q < populated@.len() ==> (#[trigger] populated@[q]).cluster < k
                    && populated@[q].population == count_spec(a, populated@[q].cluster as int)
                    && populated@[q].population > 0,
            j <= populated@.len(),
            clusters@.len() == j,
            witnesses.len() == j,
            forall|q: int|
                0 <= q < j ==> {
                    &&& (#[trigger] clusters@[q]).weight == populated@[q].population
                    &&& witnesses[q]@ == members_spec(a, ids[q] as int)
                    &&& call_ensures(mean, (points, &witnesses[q]), clusters@[q].centroid)
                },
            total_spec(weights_of(clusters@)) == population_total_spec(populated@.take(j as int)),
        decreases populated@.len() - j,
    {
        let entry: ClusterPopulation = populated[j];
        let members = members_of(&final_assignments, entry.cluster);
        let centroid = mean(points, &members);
        let ghost before = clusters@;
        clusters.push(WeightedCentroid { centroid, weight: entry.population });
        proof {
            witnesses = witnesses.push(members);
            assert(weights_of(clusters@).drop_last() =~= weights_of(before));
            assert(populated@.take(j + 1).drop_last() =~= populated@.take(j as int));
        }
        j = j + 1;
    }
    assert(populated@.take(populated@.len() as int) =~= populated@);
    proof {
        if clusters@.len() == 0 {
            assert(weights_of(clusters@) =~= Seq::<nat>::empty());
        }
        assert forall|q: int| 0 <= q < ids.len() implies #[trigger] ids[q] < k && count_spec(
            a,
            ids[q] as int,
        ) > 0 by {
            assert(populated@[q].cluster < k);
        }
        lemma_increasing_ids_fit(ids, k as nat);
        assert(ids.len() == clusters@.len());
        assert forall|i: int, j: int| 0 <= i < j < ids.len() implies #[trigger] ids[i]
            < #[trigger] ids[j] by {
            assert(ids[i] == populated@[i].cluster && ids[j] == populated@[j].cluster);
        }
        assert forall|c: int| 0 <= c < k && count_spec(a, c) > 0 implies #[trigger] ids.contains(
            c as usize,
        ) by {
            assert(clusters_of(populated@).contains(c as usize));
        }
        assert forall|q: int| 0 <= q < clusters@.len() implies {
            &&& (#[trigger] clusters@[q]).weight == count_spec(a, ids[q] as int)
            &&& witnesses[q]@ == members_spec(a, ids[q] as int)
            &&& call_ensures(mean, (points, &witnesses[q]), clusters@[q].centroid)
        } by {
            assert(ids[q] == populated@[q].cluster);
            assert(clusters@[q].weight == populated@[q].population);
            assert(populated@[q].population == count_spec(a, populated@[q].cluster as int));
            assert(witnesses[q]@ == members_spec(a, ids[q] as int));
            assert(call_ensures(mean, (points, &witnesses[q]), clusters@[q].centroid));
        }
        assert(lloyd_outcome(points, k as nat, clusters@, key, mean, centroids@, a, ids, witnesses));
        assert(lloyd_result(
            key,
            mean,
            settled,
            points,
            start,
            max_iterations as nat,
            clusters@,
            trace_c,
            trace_a,
            flags,
            a,
            ids,
            witnesses,
        ));
    }
    clusters
}

/// One further k-means++ draw from `state`, given the centres so far as the vector
/// `current`: when `spread(current)` is `false`, the point at the index drawn below the
/// number of points; otherwise the point that `pick(current, word)` chooses for the next
/// word of the generator (the first point when it chooses none). `spreads` and `chosen` are
/// what the closures answered, `next` the centre and `next_state` the generator afterwards.
pub open spec fn seed_draw<T, W: Fn(&Vec<T>) -> bool, P: Fn(&Vec<T>, u64) -> Option<usize>>(
    points: Seq<T>,
    spread: W,
    pick: P,
    current: Vec<T>,
    state: u64,
    spreads: bool,
    chosen: Option<usize>,
    next: T,
    next_state: u64,
) -> bool {
    &&& call_ensures(spread, (&current,), spreads)
    &&& if !spreads {
        let (index, after) = index_step_spec(state, points.len() as usize);
        next == points[index as int] && next_state == after
    } else {
        let after = xorshift_spec(state);
        &&& next_state == after
        &&& call_ensures(pick, (&current, scramble_spec(after)), chosen)
        &&& next == match chosen {
            Some(i) => points[i as int],
            None => points[0],
        }
    }
}

/// `centres` are the k-means++ draws from `seed`, with the generator passing through
/// `states`: the first centre is the point at the index drawn below the number of points,
/// and each further one is a `seed_draw` given the centres before it.
pub open spec fn seed_trace<T, W: Fn(&Vec<T>) -> bool, P: Fn(&Vec<T>, u64) -> Option<usize>>(
    points: Seq<T>,
    seed: u64,
    spread: W,
    pick: P,
    centres: Seq<T>,
    states: Seq<u64>,
) -> bool {
    &&& centres.len() >= 1
    &&& states.len() == centres.len() + 1
    &&& states[0] == seed_state_spec(seed)
    &&& centres[0] == points[index_step_spec(states[0], points.len() as usize).0 as int]
    &&& states[1] == index_step_spec(states[0], points.len() as usize).1
    &&& forall|j: int|
        1 <= j < centres.len() ==> #[trigger] drawn_at(points, spread, pick, centres, states, j)
}

/// The centre at position `j` is a `seed_draw` given the centres before it.
pub open spec fn drawn_at<T, W: Fn(&Vec<T>) -> bool, P: Fn(&Vec<T>, u64) -> Option<usize>>(
    points: Seq<T>,
    spread: W,
    pick: P,
    centres: Seq<T>,
    states: Seq<u64>,
    j: int,
) -> bool {
    exists|current: Vec<T>, spreads: bool, chosen: Option<usize>|
        current@ == centres.take(j) && #[trigger] seed_draw(
            points,
            spread,
            pick,
            current,
            states[j],
            spreads,
            chosen,
            centres[j],
            states[j + 1],
        )
}

/// `spread` and `pick` answer as functions of what they are asked: one answer for the same
/// centres (and, for `pick`, the same word).
pub open spec fn seeding_is_functional<
    T,
    W: Fn(&Vec<T>) -> bool,
    P: Fn(&Vec<T>, u64) -> Option<usize>,
>(spread: W, pick: P) -> bool {
    &&& forall|a: &Vec<T>, b: &Vec<T>, x: bool, y: bool|
        a@ == b@ && #[trigger] call_ensures(spread, (a,), x) && #[trigger] call_ensures(
            spread,
            (b,),
            y,
        ) ==> x == y
    &&& forall|a: &Vec<T>, b: &Vec<T>, word: u64, x: Option<usize>, y: Option<usize>|
        a@ == b@ && #[trigger] call_ensures(pick, (a, word), x) && #[trigger] call_ensures(
            pick,
            (b, word),
            y,
        ) ==> x == y
}

proof fn lemma_seed_prefix<T, W: Fn(&Vec<T>) -> bool, P: Fn(&Vec<T>, u64) -> Option<usize>>(
    points: Seq<T>,
    seed: u64,
    spread: W,
    pick: P,
    c1: Seq<T>,
    s1: Seq<u64>,
    c2: Seq<T>,
    s2: Seq<u64>,
    n: int,
)
    requires
        seeding_is_functional(spread, pick),
        seed_trace(points, seed, spread, pick, c1, s1),
        seed_trace(points, seed, spread, pick, c2, s2),
        c1.len() == c2.len(),
        1 <= n <= c1.len(),
    ensures
        c1.take(n) == c2.take(n),
        s1[n] == s2[n],
    decreases n,
{
    if n == 1 {
        assert(c1.take(1) =~= c2.take(1));
    } else {
        let j = n - 1;
        lemma_seed_prefix(points, seed, spread, pick, c1, s1, c2, s2, j);
        assert(drawn_at(points, spread, pick, c1, s1, j));
        assert(drawn_at(points, spread, pick, c2, s2, j));
        let (cur1, sp1, ch1) = choose|cur: Vec<T>, sp: bool, ch: Option<usize>|
            cur@ == c1.take(j) && #[trigger] seed_draw(
                points,
                spread,
                pick,
                cur,
                s1[j],
                sp,
                ch,
                c1[j],
                s1[j + 1],
            );
        let (cur2, sp2, ch2) = choose|cur: Vec<T>, sp: bool, ch: Option<usize>|
            cur@ == c2.take(j) && #[trigger] seed_draw(
                points,
                spread,
                pick,
                cur,
                s2[j],
                sp,
                ch,
                c2[j],
                s2[j + 1],
            );
        assert(call_ensures(spread, (&cur1,), sp1));
        assert(call_ensures(spread, (&cur2,), sp2));
        assert(sp1 == sp2);
        if sp1 {
            assert(call_ensures(pick, (&cur1, scramble_spec(xorshift_spec(s1[j]))), ch1));
            assert(call_ensures(pick, (&cur2, scramble_spec(xorshift_spec(s1[j]))), ch2));
            assert(ch1 == ch2);
        }
        assert(c1[j] == c2[j]);
        assert(c1.take(n) =~= c1.take(j).push(c1[j]));
        assert(c2.take(n) =~= c2.take(j).push(c2[j]));
    }
}

/// Seeding is deterministic: where `spread` and `pick` answer as functions, the same points
/// and seed give the same centres.
pub proof fn lemma_seeding_deterministic<
    T,
    W: Fn(&Vec<T>) -> bool,
    P: Fn(&Vec<T>, u64) -> Option<usize>,
>(
    points: Seq<T>,
    seed: u64,
    spread: W,
    pick: P,
    c1: Seq<T>,
    s1: Seq<u64>,
    c2: Seq<T>,
    s2: Seq<u64>,
)
    requires
        seeding_is_functional(spread, pick),
        seed_trace(points, seed, spread, pick, c1, s1),
        seed_trace(points, seed, spread, pick, c2, s2),
        c1.len() == c2.len(),
    ensures
        c1 == c2,
{
    lemma_seed_prefix(points, seed, spread, pick, c1, s1, c2, s2, c1.len() as int);
    assert(c1.take(c1.len() as int) =~= c1);
    assert(c2.take(c2.len() as int) =~= c2);
}

/// k-means++ seeding: `k` starting centres (one when `k` is 0), each one of the points,
/// drawn as `seed_trace` says.
///
/// The first centre is the point at an index drawn below the number of points from a
/// generator seeded with `seed`. Each further centre is drawn in the same way when
/// `spread(centres)` is false (the points lie, in all, no farther from the centres than a
/// rounding error); otherwise it is the point that `pick(centres, word)` chooses for the next
/// word of the generator, or the first point when `pick` chooses none.
pub fn seed_centres<T: Copy, W, P>(
    points: &Vec<T>,
    k: usize,
    seed: u64,
    spread: W,
    pick: P,
) -> (centres: Vec<T>) where
    W: Fn(&Vec<T>) -> bool,
    P: Fn(&Vec<T>, u64) -> Option<usize>,

    requires
        points@.len() > 0,
        forall|c: &Vec<T>| call_requires(spread, (c,)),
        forall|c: &Vec<T>, word: u64| call_requires(pick, (c, word)),
        forall|c: &Vec<T>, word: u64, chosen: Option<usize>|
            call_ensures(pick, (c, word), chosen) && chosen is Some ==> chosen->0 < points@.len(),
    ensures
        centres@.len() == if k == 0 {
            1
        } else {
            k as int
        },
        forall|i: int| 0 <= i < centres@.len() ==> points@.contains(#[trigger] centres@[i]),
        exists|states: Seq<u64>| #[trigger] seed_trace(points@, seed, spread, pick, centres@, states),
{
    let n = points.len();
    let mut rng = Rng::new(seed);
    let ghost start = rng.state();
    let first = rng.index(n);
    let mut centres: Vec<T> = Vec::new();
    centres.push(points[first]);
    let ghost mut states: Seq<u64> = seq![start, rng.state()];
    while centres.len() < k
        invariant
            n == points@.len(),
            n > 0,
            1 <= centres@.len(),
            k == 0 ==> centres@.len() == 1,
            k > 0 ==> centres@.len() <= k,
            forall|i: int| 0 <= i < centres@.len() ==> points@.contains(#[trigger] centres@[i]),
            forall|c: &Vec<T>| call_requires(spread, (c,)),
            forall|c: &Vec<T>, word: u64| call_requires(pick, (c, word)),
            forall|c: &Vec<T>, word: u64, chosen: Option<usize>|
                call_ensures(pick, (c, word), chosen) && chosen is Some ==> chosen->0 < n,
            states.len() == centres@.len() + 1,
            states[centres@.len() as int] == rng.state(),
            seed_trace(points@, seed, spread, pick, centres@, states),
        decreases k - centres@.len(),
    {
        let ghost current = centres;
        let ghost state = rng.state();
        let spreads = spread(&centres);
        let mut answer: Option<usize> = None;
        let chosen = if !spreads {
            rng.index(n)
        } else {
            let word = rng.next_u64();
            answer = pick(&centres, word);
            match answer {
                Some(index) => index,
                None => 0,
            }
        };
        let ghost before = centres@;
        centres.push(points[chosen]);
        proof {
            let old_states = states;
            states = states.push(rng.state());
            assert(seed_draw(
                points@,
                spread,
                pick,
                current,
                state,
                spreads,
                answer,
                centres@[before.len() as int],
                states[before.len() + 1int],
            ));
            assert(centres@.take(before.len() as int) =~= before);
            assert forall|j: int| 1 <= j < centres@.len() implies #[trigger] drawn_at(
                points@,
                spread,
                pick,
                centres@,
                states,
                j,
            ) by {
                if j < before.len() {
                    assert(drawn_at(points@, spread, pick, before, old_states, j));
                    let (cur, sp, ch) = choose|cur: Vec<T>, sp: bool, ch: Option<usize>|
                        cur@ == before.take(j) && #[trigger] seed_draw(
                            points@,
                            spread,
                            pick,
                            cur,
                            old_states[j],
                            sp,
                            ch,
                            before[j],
                            old_states[j + 1],
                        );
                    assert(centres@.take(j) =~= before.take(j));
                    assert(centres@[j] == before[j]);
                    assert(states[j] == old_states[j] && states[j + 1] == old_states[j + 1]);
                    assert(seed_draw(points@, spread, pick, cur, states[j], sp, ch, centres@[j], states[j + 1]));
                } else {
                    assert(j == before.len());
                    assert(current@ == centres@.take(j));
                    assert(states[j] == old_states[j]);
                    assert(states[j] == state);
                    assert(seed_draw(
                        points@,
                        spread,
                        pick,
                        current,
                        states[j],
                        spreads,
                        answer,
                        centres@[j],
                        states[j + 1],
                    ));
                }
            }
        }
        assert forall|i: int| 0 <= i < centres@.len() implies points@.contains(#[trigger] centres@[i]) by {
            if i < before.len() {
                assert(centres@[i] == before[i]);
            } else {
                assert(points@[chosen as int] == centres@[i]);
            }
        }
    }
    centres
}

/// `palette` lists the centres that received points under `assignment`, most populous
/// first (ties in centre order): each point goes to its nearest of the `centres` by `key`,
/// each entry weighs as many points as its centre received, and its centre is `mean` of the
/// `members` listed for it.
pub open spec fn palette_outcome<T, K: Fn(&T, &T) -> u64, A: Fn(&Vec<T>, &Vec<usize>) -> T>(
    points: &Vec<T>,
    centres: Seq<T>,
    palette: Seq<WeightedCentroid<T>>,
    key: K,
    mean: A,
    assignment: Seq<usize>,
    ids: Seq<usize>,
    members: Seq<Vec<usize>>,
) -> bool {
    &&& assignment.len() == points@.len()
    &&& forall|p: int|
        0 <= p < assignment.len() ==> goes_to(key, points@[p], centres, #[trigger] assignment[p] as int)
    &&& forall|p: int| 0 <= p < assignment.len() ==> #[trigger] assignment[p] < centres.len()
    &&& is_ranking(ids, counts_spec(assignment, centres.len()), false)
    &&& ids.len() == palette.len()
    &&& members.len() == palette.len()
    &&& forall|q: int|
        0 <= q < palette.len() ==> {
            &&& (#[trigger] palette[q]).weight == count_spec(assignment, ids[q] as int)
            &&& members[q]@ == members_spec(assignment, ids[q] as int)
            &&& call_ensures(mean, (points, &members[q]), palette[q].centroid)
        }
}

/// The palette of the points around the given centres: each point goes to its nearest centre
/// by `key`, the centres that received points are listed most populous first (ties in centre
/// order) with `mean` of their points as centre, and their weights add up to the number of
/// points.
pub fn palette_clusters<T: Copy, K, A>(
    points: &Vec<T>,
    centres: &Vec<T>,
    key: K,
    mean: A,
) -> (palette: Vec<WeightedCentroid<T>>) where
    K: Fn(&T, &T) -> u64,
    A: Fn(&Vec<T>, &Vec<usize>) -> T,

    requires
        centres@.len() > 0 || points@.len() == 0,
        forall|a: &T, b: &T| call_requires(key, (a, b)),
        forall|p: &Vec<T>, m: &Vec<usize>| call_requires(mean, (p, m)),
    ensures
        total_spec(weights_of(palette@)) == points@.len(),
        forall|i: int, j: int|
            0 <= i < j < palette@.len() ==> (#[trigger] palette@[i]).weight >= (
            #[trigger] palette@[j]).weight,
        exists|assignment: Seq<usize>, ids: Seq<usize>, members: Seq<Vec<usize>>|
            #[trigger] palette_outcome(points, centres@, palette@, key, mean, assignment, ids, members),
{
    let n = points.len();
    let k = centres.len();
    let mut assignments: Vec<usize> = Vec::new();
    let mut p: usize = 0;
    while p < n
        invariant
            n == points@.len(),
            k == centres@.len(),
            k > 0 || n == 0,
            p <= n,
            assignments@.len() == p,
            forall|q: int| 0 <= q < p ==> #[trigger] assignments@[q] < k,
            forall|q: int|
                0 <= q < p ==> goes_to(key, points@[q], centres@, #[trigger] assignments@[q] as int),
            forall|a: &T, b: &T| call_requires(key, (a, b)),
        decreases n - p,
    {
        let nearest = nearest_index(&points[p], centres, &key);
        assignments.push(nearest);
        p = p + 1;
    }
    let ranked = rank_clusters(&assignments, k);
    let ghost a = assignments@;
    let ghost ids = clusters_of(ranked@);
    let ghost mut witnesses: Seq<Vec<usize>> = Seq::empty();
    let mut palette: Vec<WeightedCentroid<T>> = Vec::new();
    let mut j: usize = 0;
    assert(ranked@.take(0) =~= Seq::<ClusterPopulation>::empty());
    while j < ranked.len()
        invariant
            a == assignments@,
            ids == clusters_of(ranked@),
            is_ranking(ids, counts_spec(a, k as nat), false),
            forall|p: &Vec<T>, m: &Vec<usize>| call_requires(mean, (p, m)),
            forall|q: int|
                0 <= q < ranked@.len() ==> (#[trigger] ranked@[q]).population == count_spec(
                    a,
                    ranked@[q].cluster as int,
                ),
            j <= ranked@.len(),
            palette@.len() == j,
            witnesses.len() == j,
            forall|q: int|
                0 <= q < j ==> {
                    &&& (#[trigger] palette@[q]).weight == ranked@[q].population
                    &&& witnesses[q]@ == members_spec(a, ids[q] as int)
                    &&& call_ensures(mean, (points, &witnesses[q]), palette@[q].centroid)
                },
            total_spec(weights_of(palette@)) == population_total_spec(ranked@.take(j as int)),
        decreases ranked@.len() - j,
    {
        let entry: ClusterPopulation = ranked[j];
        let members = members_of(&assignments, entry.cluster);
        let centroid = mean(points, &members);
        let ghost before = palette@;
        palette.push(WeightedCentroid { centroid, weight: entry.population });
        proof {
            witnesses = witnesses.push(members);
            assert(weights_of(palette@).drop_last() =~= weights_of(before));
            assert(ranked@.take(j + 1).drop_last() =~= ranked@.take(j as int));
        }
        j = j + 1;
    }
    assert(ranked@.take(ranked@.len() as int) =~= ranked@);
    proof {
        let w = counts_spec(a, k as nat);
        assert forall|i: int, j: int| 0 <= i < j < palette@.len() implies (#[trigger] palette@[i]).weight
            >= (#[trigger] palette@[j]).weight by {
            assert(ranks_before(w, ids[i] as int, ids[j] as int));
            assert(ids[i] < k && ids[j] < k);
        }
        assert(palette_outcome(points, centres@, palette@, key, mean, a, ids, witnesses));
    }
    palette
}

} // verus!
