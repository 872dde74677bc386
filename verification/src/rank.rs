use vstd::prelude::*;

verus! {

/// The weights as natural numbers.
pub open spec fn nat_seq(weights: Seq<usize>) -> Seq<nat> {
    weights.map_values(|w: usize| w as nat)
}

/// The sum of a sequence of weights.
pub open spec fn total_spec(weights: Seq<nat>) -> nat
    decreases weights.len(),
{
    if weights.len() == 0 {
        0
    } else {
        total_spec(weights.drop_last()) + weights.last()
    }
}

/// The sum of the weights of the listed indices.
pub open spec fn weighted_total_spec(order: Seq<usize>, weights: Seq<nat>) -> nat
    decreases order.len(),
{
    if order.len() == 0 {
        0
    } else {
        weighted_total_spec(order.drop_last(), weights) + weights[order.last() as int]
    }
}

/// Index `a` comes before index `b`: it weighs more, or weighs the same and comes first.
pub open spec fn ranks_before(weights: Seq<nat>, a: int, b: int) -> bool {
    weights[a] > weights[b] || (weights[a] == weights[b] && a < b)
}

/// `order` lists the indices of `weights` (all of them, or only those of positive weight
/// when `keep_empty` is false), each once, heaviest first and, among equal weights, in
/// the order they are given in.
pub open spec fn is_ranking(order: Seq<usize>, weights: Seq<nat>, keep_empty: bool) -> bool {
    &&& forall|k: int|
        0 <= k < order.len() ==> (#[trigger] order[k]) < weights.len() && (keep_empty
            || weights[order[k] as int] > 0)
    &&& forall|c: int|
        0 <= c < weights.len() && (keep_empty || weights[c] > 0) ==> #[trigger] order.contains(
            c as usize,
        )
    &&& forall|i: int, j: int|
        0 <= i < j < order.len() ==> ranks_before(
            weights,
            #[trigger] order[i] as int,
            #[trigger] order[j] as int,
        )
}

/// Two lists strictly ordered by `ranks_before` that hold the same indices are equal.
proof fn lemma_ranked_lists_equal(o1: Seq<usize>, o2: Seq<usize>, weights: Seq<nat>)
    requires
        forall|i: int, j: int|
            0 <= i < j < o1.len() ==> ranks_before(weights, #[trigger] o1[i] as int, #[trigger] o1[j] as int),
        forall|i: int, j: int|
            0 <= i < j < o2.len() ==> ranks_before(weights, #[trigger] o2[i] as int, #[trigger] o2[j] as int),
        forall|x: usize| o1.contains(x) <==> o2.contains(x),
    ensures
        o1 == o2,
    decreases o1.len(),
{
    if o1.len() == 0 {
        if o2.len() > 0 {
            assert(o2.contains(o2[0]));
        }
        assert(o1 =~= o2);
    } else {
        assert(o1.contains(o1[0]));
        assert(o2.len() > 0);
        assert(o2.contains(o2[0]));
        if o1[0] != o2[0] {
            let j = choose|j: int| 0 <= j < o2.len() && o2[j] == o1[0];
            let i = choose|i: int| 0 <= i < o1.len() && o1[i] == o2[0];
            assert(ranks_before(weights, o2[0] as int, o2[j] as int));
            assert(ranks_before(weights, o1[0] as int, o1[i] as int));
        }
        let (r1, r2) = (o1.drop_first(), o2.drop_first());
        assert forall|x: usize| r1.contains(x) <==> r2.contains(x) by {
            if r1.contains(x) {
                let i = choose|i: int| 0 <= i < r1.len() && r1[i] == x;
                assert(o1[i + 1] == x);
                assert(ranks_before(weights, o1[0] as int, o1[i + 1] as int));
                assert(o2.contains(x));
                let j = choose|j: int| 0 <= j < o2.len() && o2[j] == x;
                assert(j != 0);
                assert(r2[j - 1] == x);
            }
            if r2.contains(x) {
                let j = choose|j: int| 0 <= j < r2.len() && r2[j] == x;
                assert(o2[j + 1] == x);
                assert(ranks_before(weights, o2[0] as int, o2[j + 1] as int));
                assert(o1.contains(x));
                let i = choose|i: int| 0 <= i < o1.len() && o1[i] == x;
                assert(i != 0);
                assert(r1[i - 1] == x);
            }
        }
        assert forall|i: int, j: int| 0 <= i < j < r1.len() implies ranks_before(
            weights,
            #[trigger] r1[i] as int,
            #[trigger] r1[j] as int,
        ) by {
            assert(ranks_before(weights, o1[i + 1] as int, o1[j + 1] as int));
        }
        assert forall|i: int, j: int| 0 <= i < j < r2.len() implies ranks_before(
            weights,
            #[trigger] r2[i] as int,
            #[trigger] r2[j] as int,
        ) by {
            assert(ranks_before(weights, o2[i + 1] as int, o2[j + 1] as int));
        }
        lemma_ranked_lists_equal(r1, r2, weights);
        assert(o1 =~= seq![o1[0]] + r1);
        assert(o2 =~= seq![o2[0]] + r2);
    }
}

/// A ranking is unique: the weights alone decide which indices it lists and in what order.
pub proof fn lemma_ranking_unique(o1: Seq<usize>, o2: Seq<usize>, weights: Seq<nat>, keep_empty: bool)
    requires
        is_ranking(o1, weights, keep_empty),
        is_ranking(o2, weights, keep_empty),
    ensures
        o1 == o2,
{
    assert forall|x: usize| o1.contains(x) <==> o2.contains(x) by {
        if o1.contains(x) {
            let i = choose|i: int| 0 <= i < o1.len() && o1[i] == x;
            assert(o1[i] < weights.len());
            assert(o2.contains(x as int as usize));
        }
        if o2.contains(x) {
            let j = choose|j: int| 0 <= j < o2.len() && o2[j] == x;
            assert(o2[j] < weights.len());
            assert(o1.contains(x as int as usize));
        }
    }
    lemma_ranked_lists_equal(o1, o2, weights);
}

proof fn lemma_weighted_total_insert(order: Seq<usize>, weights: Seq<nat>, p: int, c: usize)
    requires
        0 <= p <= order.len(),
    ensures
        weighted_total_spec(order.insert(p, c), weights) == weighted_total_spec(order, weights)
            + weights[c as int],
    decreases order.len(),
{
    let inserted = order.insert(p, c);
    if p == order.len() {
        assert(inserted.drop_last() =~= order);
    } else {
        assert(inserted.drop_last() =~= order.drop_last().insert(p, c));
        assert(inserted.last() == order.last());
        lemma_weighted_total_insert(order.drop_last(), weights, p, c);
    }
}

proof fn lemma_total_take(weights: Seq<nat>, c: int)
    requires
        0 <= c < weights.len(),
    ensures
        total_spec(weights.take(c + 1)) == total_spec(weights.take(c)) + weights[c],
{
    assert(weights.take(c + 1).drop_last() =~= weights.take(c));
}

/// The ranking of `weights`: see `is_ranking`. Its weights add up to the total weight.
fn ranked_indices(weights: &Vec<usize>, keep_empty: bool) -> (order: Vec<usize>)
    ensures
        keep_empty ==> order@.len() == weights@.len(),
        is_ranking(order@, nat_seq(weights@), keep_empty),
        weighted_total_spec(order@, nat_seq(weights@)) == total_spec(nat_seq(weights@)),
{
    let ghost w = nat_seq(weights@);
    let n = weights.len();
    let mut order: Vec<usize> = Vec::new();
    let mut c: usize = 0;
    assert(w.take(0) =~= Seq::<nat>::empty());
    while c < n
        invariant
            n == weights@.len(),
            w == nat_seq(weights@),
            c <= n,
            keep_empty ==> order@.len() == c,
            forall|k: int|
                0 <= k < order@.len() ==> (#[trigger] order@[k]) < c && (keep_empty
                    || w[order@[k] as int] > 0),
            forall|d: int|
                0 <= d < c && (keep_empty || w[d] > 0) ==> #[trigger] order@.contains(d as usize),
            forall|i: int, j: int|
                0 <= i < j < order@.len() ==> ranks_before(
                    w,
                    #[trigger] order@[i] as int,
                    #[trigger] order@[j] as int,
                ),
            weighted_total_spec(order@, w) == total_spec(w.take(c as int)),
        decreases n - c,
    {
        proof {
            lemma_total_take(w, c as int);
        }
        if keep_empty || weights[c] > 0 {
            let mut p: usize = 0;
            while p < order.len() && weights[order[p]] >= weights[c]
                invariant
                    n == weights@.len(),
                    w == nat_seq(weights@),
                    c < n,
                    p <= order@.len(),
                    forall|k: int| 0 <= k < order@.len() ==> (#[trigger] order@[k]) < c,
                    forall|k: int| 0 <= k < p ==> w[(#[trigger] order@[k]) as int] >= w[c as int],
                decreases order@.len() - p,
            {
                p = p + 1;
            }
            let ghost old_order = order@;
            proof {
                lemma_weighted_total_insert(old_order, w, p as int, c);
                old_order.insert_ensures(p as int, c);
            }
            order.insert(p, c);
            assert forall|i: int, j: int|
                0 <= i < j < order@.len() implies ranks_before(
                w,
                #[trigger] order@[i] as int,
                #[trigger] order@[j] as int,
            ) by {
                if j < p {
                } else if j == p {
                    assert(old_order[i] < c);
                } else if i < p {
                    assert(order@[j] == old_order[j - 1]);
                } else if i == p {
                    assert(order@[j] == old_order[j - 1]);
                    assert(w[old_order[p as int] as int] < w[c as int]);
                    if j - 1 > p {
                        assert(ranks_before(w, old_order[p as int] as int, old_order[j - 1] as int));
                    }
                } else {
                    assert(order@[i] == old_order[i - 1]);
                    assert(order@[j] == old_order[j - 1]);
                }
            }
            assert forall|d: int|
                0 <= d < c + 1 && (keep_empty || w[d] > 0) implies #[trigger] order@.contains(
                d as usize,
            ) by {
                if d < c {
                    assert(old_order.contains(d as usize));
                    let k = choose|k: int| 0 <= k < old_order.len() && old_order[k] == d as usize;
                    if k < p {
                        assert(order@[k] == d as usize);
                    } else {
                        assert(order@[k + 1] == d as usize);
                    }
                } else {
                    assert(order@[p as int] == d as usize);
                }
            }
        }
        c = c + 1;
    }
    assert(w.take(n as int) =~= w);
    order
}

/// Indices of `weights`, heaviest first; equal weights keep the order they are given in.
pub fn order_by_weight_desc(weights: &Vec<usize>) -> (order: Vec<usize>)
    ensures
        is_ranking(order@, nat_seq(weights@), true),
        order@.len() == weights@.len(),
        weighted_total_spec(order@, nat_seq(weights@)) == total_spec(nat_seq(weights@)),
{
    ranked_indices(weights, true)
}

/// How many entries of `assignments` equal `c`.
pub open spec fn count_spec(assignments: Seq<usize>, c: int) -> nat
    decreases assignments.len(),
{
    if assignments.len() == 0 {
        0
    } else {
        count_spec(assignments.drop_last(), c) + if assignments.last() as int == c {
            1nat
        } else {
            0nat
        }
    }
}

/// The population of each of `n` clusters under `assignments`.
pub open spec fn counts_spec(assignments: Seq<usize>, n: nat) -> Seq<nat> {
    Seq::new(n, |c: int| count_spec(assignments, c))
}

proof fn lemma_count_bound(assignments: Seq<usize>, c: int)
    ensures
        count_spec(assignments, c) <= assignments.len(),
    decreases assignments.len(),
{
    if assignments.len() > 0 {
        lemma_count_bound(assignments.drop_last(), c);
    }
}

proof fn lemma_total_increment(weights: Seq<nat>, v: int)
    requires
        0 <= v < weights.len(),
    ensures
        total_spec(weights.update(v, weights[v] + 1)) == total_spec(weights) + 1,
    decreases weights.len(),
{
    let updated = weights.update(v, weights[v] + 1);
    if v == weights.len() - 1 {
        assert(updated.drop_last() =~= weights.drop_last());
    } else {
        assert(updated.drop_last() =~= weights.drop_last().update(v, weights[v] + 1));
        lemma_total_increment(weights.drop_last(), v);
    }
}

/// Counts, for each of `n_clusters` clusters, how many entries of `assignments` name it.
pub fn count_populations(assignments: &Vec<usize>, n_clusters: usize) -> (counts: Vec<usize>)
    requires
        forall|j: int| 0 <= j < assignments@.len() ==> #[trigger] assignments@[j] < n_clusters,
    ensures
        nat_seq(counts@) == counts_spec(assignments@, n_clusters as nat),
        total_spec(nat_seq(counts@)) == assignments@.len(),
{
    let mut counts: Vec<usize> = Vec::new();
    let mut c: usize = 0;
    while c < n_clusters
        invariant
            c <= n_clusters,
            counts@.len() == c,
            forall|d: int| 0 <= d < c ==> #[trigger] counts@[d] == 0,
            total_spec(nat_seq(counts@)) == 0,
        decreases n_clusters - c,
    {
        let ghost before = counts@;
        counts.push(0);
        assert(nat_seq(counts@).drop_last() =~= nat_seq(before));
        c = c + 1;
    }
    let ghost a = assignments@;
    let mut j: usize = 0;
    assert(nat_seq(counts@) =~= counts_spec(a.take(0), n_clusters as nat));
    while j < assignments.len()
        invariant
            a == assignments@,
            forall|i: int| 0 <= i < a.len() ==> #[trigger] a[i] < n_clusters,
            j <= a.len(),
            counts@.len() == n_clusters,
            nat_seq(counts@) == counts_spec(a.take(j as int), n_clusters as nat),
            total_spec(nat_seq(counts@)) == j,
        decreases a.len() - j,
    {
        let v = assignments[j];
        assert(a.take(j + 1).drop_last() =~= a.take(j as int));
        proof {
            lemma_count_bound(a.take(j as int), v as int);
            assert(nat_seq(counts@)[v as int] == count_spec(a.take(j as int), v as int));
            lemma_total_increment(nat_seq(counts@), v as int);
        }
        let ghost before = nat_seq(counts@);
        let updated = counts[v] + 1;
        counts.set(v, updated);
        assert(nat_seq(counts@) =~= before.update(v as int, before[v as int] + 1));
        j = j + 1;
        assert(nat_seq(counts@) =~= counts_spec(a.take(j as int), n_clusters as nat));
    }
    assert(a.take(a.len() as int) =~= a);
    counts
}

/// A palette entry's cluster and the number of pixels assigned to it.
#[derive(Debug, Clone, Copy, PartialEq, Eq, Structural)]
pub struct ClusterPopulation {
    pub cluster: usize,
    pub population: usize,
}

/// The clusters of a ranking, in order.
pub open spec fn clusters_of(ranked: Seq<ClusterPopulation>) -> Seq<usize> {
    ranked.map_values(|p: ClusterPopulation| p.cluster)
}

/// The sum of the populations of a ranking.
pub open spec fn population_total_spec(ranked: Seq<ClusterPopulation>) -> nat
    decreases ranked.len(),
{
    if ranked.len() == 0 {
        0
    } else {
        population_total_spec(ranked.drop_last()) + ranked.last().population as nat
    }
}

/// The clusters that received at least one of `assignments`, most populous first and, among
/// equal populations, in cluster order, each with its population. The populations add up
/// to the number of assignments: every pixel is counted in exactly one palette entry.
pub fn rank_clusters(assignments: &Vec<usize>, n_clusters: usize) -> (ranked: Vec<
    ClusterPopulation,
>)
    requires
        forall|j: int| 0 <= j < assignments@.len() ==> #[trigger] assignments@[j] < n_clusters,
    ensures
        is_ranking(clusters_of(ranked@), counts_spec(assignments@, n_clusters as nat), false),
        forall|k: int|
            0 <= k < ranked@.len() ==> (#[trigger] ranked@[k]).population == count_spec(
                assignments@,
                ranked@[k].cluster as int,
            ),
        population_total_spec(ranked@) == assignments@.len(),
{
    let counts = count_populations(assignments, n_clusters);
    let order = ranked_indices(&counts, false);
    let ghost w = nat_seq(counts@);
    let mut ranked: Vec<ClusterPopulation> = Vec::new();
    let mut k: usize = 0;
    assert(order@.take(0) =~= Seq::<usize>::empty());
    while k < order.len()
        invariant
            w == nat_seq(counts@),
            w == counts_spec(assignments@, n_clusters as nat),
            is_ranking(order@, w, false),
            k <= order@.len(),
            ranked@.len() == k,
            clusters_of(ranked@) == order@.take(k as int),
            forall|i: int|
                0 <= i < k ==> (#[trigger] ranked@[i]).cluster == order@[i]
                    && ranked@[i].population == w[order@[i] as int],
            population_total_spec(ranked@) == weighted_total_spec(order@.take(k as int), w),
        decreases order@.len() - k,
    {
        let cluster = order[k];
        let ghost before = ranked@;
        ranked.push(ClusterPopulation { cluster, population: counts[cluster] });
        assert(ranked@.drop_last() =~= before);
        assert(order@.take(k + 1).drop_last() =~= order@.take(k as int));
        k = k + 1;
        assert(clusters_of(ranked@) =~= order@.take(k as int));
    }
    assert(order@.take(order@.len() as int) =~= order@);
    assert forall|i: int| 0 <= i < ranked@.len() implies (#[trigger] ranked@[i]).population
        == count_spec(assignments@, ranked@[i].cluster as int) by {
        assert(order@[i] < n_clusters);
    }
    ranked
}

/// The first index holding the smallest key below `ceiling`, or 0 when no key is below it.
pub fn first_min_index(keys: &Vec<u64>, ceiling: u64) -> (best: usize)
    ensures
        (forall|j: int| 0 <= j < keys@.len() ==> #[trigger] keys@[j] >= ceiling) ==> best == 0,
        (exists|j: int| 0 <= j < keys@.len() && #[trigger] keys@[j] < ceiling) ==> {
            &&& best < keys@.len()
            &&& keys@[best as int] < ceiling
            &&& forall|j: int| 0 <= j < best ==> #[trigger] keys@[j] > keys@[best as int]
            &&& forall|j: int| best < j < keys@.len() ==> #[trigger] keys@[j] >= keys@[best as int]
        },
{
    let mut best: usize = 0;
    let mut best_key: u64 = ceiling;
    let mut i: usize = 0;
    while i < keys.len()
        invariant
            i <= keys@.len(),
            best_key <= ceiling,
            best_key == ceiling ==> best == 0 && forall|j: int| 0 <= j < i ==> #[trigger] keys@[j] >= ceiling,
            best_key < ceiling ==> best < i && keys@[best as int] == best_key,
            forall|j: int| 0 <= j < i ==> #[trigger] keys@[j] >= best_key,
            forall|j: int| 0 <= j < best ==> #[trigger] keys@[j] > best_key,
        decreases keys@.len() - i,
    {
        if keys[i] < best_key {
            best_key = keys[i];
            best = i;
        }
        i = i + 1;
    }
    best
}

/// The first index holding the largest key.
pub fn first_max_index(keys: &Vec<u64>) -> (best: usize)
    requires
        keys@.len() > 0,
    ensures
        best < keys@.len(),
        forall|j: int| 0 <= j < best ==> #[trigger] keys@[j] < keys@[best as int],
        forall|j: int| best < j < keys@.len() ==> #[trigger] keys@[j] <= keys@[best as int],
{
    let mut best: usize = 0;
    let mut i: usize = 1;
    while i < keys.len()
        invariant
            1 <= i <= keys@.len(),
            best < i,
            forall|j: int| 0 <= j < i ==> #[trigger] keys@[j] <= keys@[best as int],
            forall|j: int| 0 <= j < best ==> #[trigger] keys@[j] < keys@[best as int],
        decreases keys@.len() - i,
    {
        if keys[i] > keys[best] {
            best = i;
        }
        i = i + 1;
    }
    best
}

/// The clusters that received at least one of `assignments`, in cluster order, each with
/// its population; the populations add up to the number of assignments.
pub fn populated_clusters(assignments: &Vec<usize>, n_clusters: usize) -> (populated: Vec<
    ClusterPopulation,
>)
    requires
        forall|j: int| 0 <= j < assignments@.len() ==> #[trigger] assignments@[j] < n_clusters,
    ensures
        forall|k: int|
            0 <= k < populated@.len() ==> (#[trigger] populated@[k]).cluster < n_clusters
                && populated@[k].population == count_spec(assignments@, populated@[k].cluster as int)
                && populated@[k].population > 0,
        forall|c: int|
            0 <= c < n_clusters && count_spec(assignments@, c) > 0 ==> #[trigger] clusters_of(
                populated@,
            ).contains(c as usize),
        forall|i: int, j: int|
            0 <= i < j < populated@.len() ==> (#[trigger] populated@[i]).cluster < (
            #[trigger] populated@[j]).cluster,
        population_total_spec(populated@) == assignments@.len(),
{
    let counts = count_populations(assignments, n_clusters);
    let ghost w = nat_seq(counts@);
    let mut populated: Vec<ClusterPopulation> = Vec::new();
    let mut c: usize = 0;
    assert(w.take(0) =~= Seq::<nat>::empty());
    while c < n_clusters
        invariant
            w == nat_seq(counts@),
            w == counts_spec(assignments@, n_clusters as nat),
            total_spec(w) == assignments@.len(),
            c <= n_clusters,
            forall|k: int|
                0 <= k < populated@.len() ==> (#[trigger] populated@[k]).cluster < c
                    && populated@[k].population == w[populated@[k].cluster as int]
                    && populated@[k].population > 0,
            forall|d: int|
                0 <= d < c && w[d] > 0 ==> #[trigger] clusters_of(populated@).contains(d as usize),
            forall|i: int, j: int|
                0 <= i < j < populated@.len() ==> (#[trigger] populated@[i]).cluster < (
                #[trigger] populated@[j]).cluster,
            population_total_spec(populated@) == total_spec(w.take(c as int)),
        decreases n_clusters - c,
    {
        proof {
            lemma_total_take(w, c as int);
        }
        if counts[c] > 0 {
            let ghost before = populated@;
            populated.push(ClusterPopulation { cluster: c, population: counts[c] });
            assert(populated@.drop_last() =~= before);
            assert forall|d: int|
                0 <= d < c + 1 && w[d] > 0 implies #[trigger] clusters_of(populated@).contains(
                d as usize,
            ) by {
                if d < c {
                    assert(clusters_of(before).contains(d as usize));
                    let k = choose|k: int|
                        0 <= k < clusters_of(before).len() && clusters_of(before)[k] == d as usize;
                    assert(clusters_of(populated@)[k] == d as usize);
                } else {
                    assert(clusters_of(populated@)[populated@.len() - 1] == d as usize);
                }
            }
        }
        c = c + 1;
    }
    assert(w.take(n_clusters as int) =~= w);
    populated
}

} // verus!
