use vstd::prelude::*;

use crate::kmeans::{
    farthest_from, farthest_witness, goes_to, is_first_nearest, keys_to_centres, lloyd_outcome,
    lloyd_result, lloyd_step, lloyd_trace, mean_of_members, members_spec, min_key_spec,
    refresh_chain, refreshed_centre,
};
use crate::merge::WeightedCentroid;
use crate::rank::count_spec;

verus! {

/// `key`, `mean` and `settled` answer as functions of what they are asked: one answer for the
/// same arguments (for `mean`, the same points and members).
pub open spec fn lloyd_is_functional<
    T,
    K: Fn(&T, &T) -> u64,
    A: Fn(&Vec<T>, &Vec<usize>) -> T,
    S: Fn(&T, &T) -> bool,
>(key: K, mean: A, settled: S) -> bool {
    &&& forall|a: &T, b: &T, x: u64, y: u64|
        #[trigger] call_ensures(key, (a, b), x) && #[trigger] call_ensures(key, (a, b), y) ==> x
            == y
    &&& forall|p: &Vec<T>, q: &Vec<T>, m: &Vec<usize>, n: &Vec<usize>, x: T, y: T|
        p@ == q@ && m@ == n@ && #[trigger] call_ensures(mean, (p, m), x) && #[trigger] call_ensures(
            mean,
            (q, n),
            y,
        ) ==> x == y
    &&& forall|a: &T, b: &T, x: bool, y: bool|
        #[trigger] call_ensures(settled, (a, b), x) && #[trigger] call_ensures(settled, (a, b), y)
            ==> x == y
}

proof fn lemma_first_nearest_unique(keys: Seq<u64>, i: int, j: int)
    requires
        is_first_nearest(keys, i),
        is_first_nearest(keys, j),
    ensures
        i == j,
{
    if exists|l: int| 0 <= l < keys.len() && #[trigger] keys[l] < u64::MAX {
        if i < j {
            assert(keys[i] > keys[j]);
        } else if j < i {
            assert(keys[j] > keys[i]);
        }
    }
}

proof fn lemma_goes_to_unique<T, K: Fn(&T, &T) -> u64>(
    key: K,
    point: T,
    centres: Seq<T>,
    i: int,
    j: int,
)
    requires
        forall|a: &T, b: &T, x: u64, y: u64|
            #[trigger] call_ensures(key, (a, b), x) && #[trigger] call_ensures(key, (a, b), y) ==> x
                == y,
        goes_to(key, point, centres, i),
        goes_to(key, point, centres, j),
    ensures
        i == j,
{
    let k1 = choose|keys: Seq<u64>|
        {
            &&& keys.len() == centres.len()
            &&& forall|c: int|
                0 <= c < centres.len() ==> call_ensures(key, (&point, &centres[c]), #[trigger] keys[c])
            &&& is_first_nearest(keys, i)
        };
    let k2 = choose|keys: Seq<u64>|
        {
            &&& keys.len() == centres.len()
            &&& forall|c: int|
                0 <= c < centres.len() ==> call_ensures(key, (&point, &centres[c]), #[trigger] keys[c])
            &&& is_first_nearest(keys, j)
        };
    assert forall|c: int| 0 <= c < centres.len() implies k1[c] == k2[c] by {
        assert(call_ensures(key, (&point, &centres[c]), k1[c]));
        assert(call_ensures(key, (&point, &centres[c]), k2[c]));
    }
    assert(k1 =~= k2);
    lemma_first_nearest_unique(k1, i, j);
}

proof fn lemma_farthest_unique<T, K: Fn(&T, &T) -> u64>(
    key: K,
    points: Seq<T>,
    centres: Seq<T>,
    f1: T,
    f2: T,
)
    requires
        forall|a: &T, b: &T, x: u64, y: u64|
            #[trigger] call_ensures(key, (a, b), x) && #[trigger] call_ensures(key, (a, b), y) ==> x
                == y,
        farthest_from(key, points, centres, f1),
        farthest_from(key, points, centres, f2),
    ensures
        f1 == f2,
{
    let (t1, b1) = choose|table: Seq<Seq<u64>>, best: int|
        #[trigger] farthest_witness(key, points, centres, table, best) && f1 == points[best];
    let (t2, b2) = choose|table: Seq<Seq<u64>>, best: int|
        #[trigger] farthest_witness(key, points, centres, table, best) && f2 == points[best];
    assert forall|p: int| 0 <= p < points.len() implies #[trigger] t1[p] == t2[p] by {
        assert(keys_to_centres(key, points[p], centres, t1[p]));
        assert(keys_to_centres(key, points[p], centres, t2[p]));
        assert forall|c: int| 0 <= c < centres.len() implies t1[p][c] == t2[p][c] by {
            assert(call_ensures(key, (&points[p], &centres[c]), t1[p][c]));
            assert(call_ensures(key, (&points[p], &centres[c]), t2[p][c]));
        }
        assert(t1[p] =~= t2[p]);
    }
    if b1 < b2 {
        assert(min_key_spec(t2[b1]) < min_key_spec(t2[b2]));
        assert(min_key_spec(t1[b2]) <= min_key_spec(t1[b1]));
    } else if b2 < b1 {
        assert(min_key_spec(t1[b2]) < min_key_spec(t1[b1]));
        assert(min_key_spec(t2[b1]) <= min_key_spec(t2[b2]));
    }
}

proof fn lemma_refresh_unique<
    T,
    K: Fn(&T, &T) -> u64,
    A: Fn(&Vec<T>, &Vec<usize>) -> T,
    S: Fn(&T, &T) -> bool,
>(
    key: K,
    mean: A,
    settled: S,
    points: &Vec<T>,
    assignment: Seq<usize>,
    before: Seq<T>,
    c: int,
    after1: Seq<T>,
    ok1: bool,
    after2: Seq<T>,
    ok2: bool,
)
    requires
        lloyd_is_functional(key, mean, settled),
        refreshed_centre(key, mean, settled, points, assignment, before, c, after1, ok1),
        refreshed_centre(key, mean, settled, points, assignment, before, c, after2, ok2),
    ensures
        after1 == after2,
        ok1 == ok2,
{
    if count_spec(assignment, c) == 0 {
        let far1 = choose|far: T|
            #[trigger] farthest_from(key, points@, before, far) && after1 == before.update(c, far);
        let far2 = choose|far: T|
            #[trigger] farthest_from(key, points@, before, far) && after2 == before.update(c, far);
        lemma_farthest_unique(key, points@, before, far1, far2);
    } else {
        let (m1, v1) = choose|m: Vec<usize>, v: T|
            #[trigger] mean_of_members(mean, points, assignment, c, m, v) && call_ensures(
                settled,
                (&before[c], &v),
                ok1,
            ) && after1 == before.update(c, v);
        let (m2, v2) = choose|m: Vec<usize>, v: T|
            #[trigger] mean_of_members(mean, points, assignment, c, m, v) && call_ensures(
                settled,
                (&before[c], &v),
                ok2,
            ) && after2 == before.update(c, v);
        assert(m1@ == members_spec(assignment, c) && m2@ == members_spec(assignment, c));
        assert(call_ensures(mean, (points, &m1), v1));
        assert(call_ensures(mean, (points, &m2), v2));
        assert(v1 == v2);
        assert(call_ensures(settled, (&before[c], &v1), ok1));
        assert(call_ensures(settled, (&before[c], &v1), ok2));
    }
}

proof fn lemma_chain_unique<
    T,
    K: Fn(&T, &T) -> u64,
    A: Fn(&Vec<T>, &Vec<usize>) -> T,
    S: Fn(&T, &T) -> bool,
>(
    key: K,
    mean: A,
    settled: S,
    points: &Vec<T>,
    assignment: Seq<usize>,
    ch1: Seq<Seq<T>>,
    oks1: Seq<bool>,
    ch2: Seq<Seq<T>>,
    oks2: Seq<bool>,
    n: int,
)
    requires
        lloyd_is_functional(key, mean, settled),
        refresh_chain(key, mean, settled, points, assignment, ch1, oks1),
        refresh_chain(key, mean, settled, points, assignment, ch2, oks2),
        oks1.len() == oks2.len(),
        ch1[0] == ch2[0],
        0 <= n <= oks1.len(),
    ensures
        ch1[n] == ch2[n],
        forall|c: int| 0 <= c < n ==> oks1[c] == oks2[c],
    decreases n,
{
    if n > 0 {
        let c = n - 1;
        lemma_chain_unique(key, mean, settled, points, assignment, ch1, oks1, ch2, oks2, c);
        assert(refreshed_centre(key, mean, settled, points, assignment, ch1[c], c, ch1[c + 1], oks1[c]));
        assert(refreshed_centre(key, mean, settled, points, assignment, ch2[c], c, ch2[c + 1], oks2[c]));
        lemma_refresh_unique(
            key,
            mean,
            settled,
            points,
            assignment,
            ch1[c],
            c,
            ch1[c + 1],
            oks1[c],
            ch2[c + 1],
            oks2[c],
        );
    }
}

proof fn lemma_step_unique<
    T,
    K: Fn(&T, &T) -> u64,
    A: Fn(&Vec<T>, &Vec<usize>) -> T,
    S: Fn(&T, &T) -> bool,
>(
    key: K,
    mean: A,
    settled: S,
    points: &Vec<T>,
    centres: Seq<T>,
    assignment: Seq<usize>,
    nc1: Seq<T>,
    na1: Seq<usize>,
    changed1: bool,
    settled1: bool,
    nc2: Seq<T>,
    na2: Seq<usize>,
    changed2: bool,
    settled2: bool,
)
    requires
        lloyd_is_functional(key, mean, settled),
        lloyd_step(key, mean, settled, points, centres, assignment, nc1, na1, changed1, settled1),
        lloyd_step(key, mean, settled, points, centres, assignment, nc2, na2, changed2, settled2),
    ensures
        nc1 == nc2,
        na1 == na2,
        changed1 == changed2,
        settled1 == settled2,
{
    assert forall|p: int| 0 <= p < na1.len() implies na1[p] == na2[p] by {
        assert(goes_to(key, points@[p], centres, na1[p] as int));
        assert(goes_to(key, points@[p], centres, na2[p] as int));
        lemma_goes_to_unique(key, points@[p], centres, na1[p] as int, na2[p] as int);
    }
    assert(na1 =~= na2);
    let (ch1, oks1) = choose|chain: Seq<Seq<T>>, oks: Seq<bool>|
        #[trigger] refresh_chain(key, mean, settled, points, na1, chain, oks) && oks.len()
            == centres.len() && chain[0] == centres && chain[oks.len() as int] == nc1 && settled1
            == (forall|c: int| 0 <= c < oks.len() ==> #[trigger] oks[c]);
    let (ch2, oks2) = choose|chain: Seq<Seq<T>>, oks: Seq<bool>|
        #[trigger] refresh_chain(key, mean, settled, points, na2, chain, oks) && oks.len()
            == centres.len() && chain[0] == centres && chain[oks.len() as int] == nc2 && settled2
            == (forall|c: int| 0 <= c < oks.len() ==> #[trigger] oks[c]);
    lemma_chain_unique(
        key,
        mean,
        settled,
        points,
        na1,
        ch1,
        oks1,
        ch2,
        oks2,
        oks1.len() as int,
    );
    assert(oks1 =~= oks2);
}

proof fn lemma_trace_prefix<
    T,
    K: Fn(&T, &T) -> u64,
    A: Fn(&Vec<T>, &Vec<usize>) -> T,
    S: Fn(&T, &T) -> bool,
>(
    key: K,
    mean: A,
    settled: S,
    points: &Vec<T>,
    initial: Seq<T>,
    max_iterations: nat,
    c1: Seq<Seq<T>>,
    a1: Seq<Seq<usize>>,
    f1: Seq<(bool, bool)>,
    c2: Seq<Seq<T>>,
    a2: Seq<Seq<usize>>,
    f2: Seq<(bool, bool)>,
    n: int,
)
    requires
        lloyd_is_functional(key, mean, settled),
        lloyd_trace(key, mean, settled, points, initial, max_iterations, c1, a1, f1),
        lloyd_trace(key, mean, settled, points, initial, max_iterations, c2, a2, f2),
        0 <= n <= f1.len(),
        n <= f2.len(),
    ensures
        c1[n] == c2[n],
        a1[n] == a2[n],
        forall|i: int| 0 <= i < n ==> f1[i] == f2[i],
    decreases n,
{
    if n > 0 {
        let i = n - 1;
        lemma_trace_prefix(key, mean, settled, points, initial, max_iterations, c1, a1, f1, c2, a2, f2, i);
        assert(lloyd_step(key, mean, settled, points, c1[i], a1[i], c1[i + 1], a1[i + 1], f1[i].0, f1[i].1));
        assert(lloyd_step(key, mean, settled, points, c2[i], a2[i], c2[i + 1], a2[i + 1], f2[i].0, f2[i].1));
        lemma_step_unique(
            key,
            mean,
            settled,
            points,
            c1[i],
            a1[i],
            c1[i + 1],
            a1[i + 1],
            f1[i].0,
            f1[i].1,
            c2[i + 1],
            a2[i + 1],
            f2[i].0,
            f2[i].1,
        );
    }
}

proof fn lemma_trace_unique<
    T,
    K: Fn(&T, &T) -> u64,
    A: Fn(&Vec<T>, &Vec<usize>) -> T,
    S: Fn(&T, &T) -> bool,
>(
    key: K,
    mean: A,
    settled: S,
    points: &Vec<T>,
    initial: Seq<T>,
    max_iterations: nat,
    c1: Seq<Seq<T>>,
    a1: Seq<Seq<usize>>,
    f1: Seq<(bool, bool)>,
    c2: Seq<Seq<T>>,
    a2: Seq<Seq<usize>>,
    f2: Seq<(bool, bool)>,
)
    requires
        lloyd_is_functional(key, mean, settled),
        lloyd_trace(key, mean, settled, points, initial, max_iterations, c1, a1, f1),
        lloyd_trace(key, mean, settled, points, initial, max_iterations, c2, a2, f2),
    ensures
        c1.last() == c2.last(),
{
    if f1.len() < f2.len() {
        let n = f1.len() as int;
        lemma_trace_prefix(key, mean, settled, points, initial, max_iterations, c1, a1, f1, c2, a2, f2, n);
        assert(f2[n - 1].0 && !f2[n - 1].1);
    } else if f2.len() < f1.len() {
        let n = f2.len() as int;
        lemma_trace_prefix(key, mean, settled, points, initial, max_iterations, c1, a1, f1, c2, a2, f2, n);
        assert(f1[n - 1].0 && !f1[n - 1].1);
    } else {
        let n = f1.len() as int;
        lemma_trace_prefix(key, mean, settled, points, initial, max_iterations, c1, a1, f1, c2, a2, f2, n);
    }
}

proof fn lemma_increasing_same_members(s1: Seq<usize>, s2: Seq<usize>)
    requires
        forall|i: int, j: int| 0 <= i < j < s1.len() ==> #[trigger] s1[i] < #[trigger] s1[j],
        forall|i: int, j: int| 0 <= i < j < s2.len() ==> #[trigger] s2[i] < #[trigger] s2[j],
        forall|x: usize| s1.contains(x) <==> s2.contains(x),
    ensures
        s1 == s2,
    decreases s1.len(),
{
    if s1.len() == 0 {
        if s2.len() > 0 {
            assert(s2.contains(s2[0]));
        }
        assert(s1 =~= s2);
    } else if s2.len() == 0 {
        assert(s1.contains(s1[0]));
    } else {
        assert(s1.contains(s1[0]));
        assert(s2.contains(s2[0]));
        let j2 = choose|j: int| 0 <= j < s2.len() && s2[j] == s1[0];
        let j1 = choose|j: int| 0 <= j < s1.len() && s1[j] == s2[0];
        if j2 > 0 {
            assert(s2[0] < s2[j2]);
        }
        if j1 > 0 {
            assert(s1[0] < s1[j1]);
        }
        assert(s1[0] == s2[0]);
        let (t1, t2) = (s1.drop_first(), s2.drop_first());
        assert forall|x: usize| t1.contains(x) <==> t2.contains(x) by {
            if t1.contains(x) {
                let i = choose|i: int| 0 <= i < t1.len() && t1[i] == x;
                assert(s1[i + 1] == x);
                assert(s1[0] < s1[i + 1]);
                assert(s1.contains(x));
                let j = choose|j: int| 0 <= j < s2.len() && s2[j] == x;
                assert(j != 0);
                assert(t2[j - 1] == x);
            }
            if t2.contains(x) {
                let i = choose|i: int| 0 <= i < t2.len() && t2[i] == x;
                assert(s2[i + 1] == x);
                assert(s2[0] < s2[i + 1]);
                assert(s2.contains(x));
                let j = choose|j: int| 0 <= j < s1.len() && s1[j] == x;
                assert(j != 0);
                assert(t1[j - 1] == x);
            }
        }
        assert forall|i: int, j: int| 0 <= i < j < t1.len() implies #[trigger] t1[i] < #[trigger] t1[j] by {
            assert(s1[i + 1] < s1[j + 1]);
        }
        assert forall|i: int, j: int| 0 <= i < j < t2.len() implies #[trigger] t2[i] < #[trigger] t2[j] by {
            assert(s2[i + 1] < s2[j + 1]);
        }
        lemma_increasing_same_members(t1, t2);
        assert(s1 =~= seq![s1[0]] + t1);
        assert(s2 =~= seq![s2[0]] + t2);
    }
}

proof fn lemma_outcome_unique<
    T,
    K: Fn(&T, &T) -> u64,
    A: Fn(&Vec<T>, &Vec<usize>) -> T,
    S: Fn(&T, &T) -> bool,
>(
    key: K,
    mean: A,
    settled: S,
    points: &Vec<T>,
    k: nat,
    centres: Seq<T>,
    cl1: Seq<WeightedCentroid<T>>,
    as1: Seq<usize>,
    ids1: Seq<usize>,
    m1: Seq<Vec<usize>>,
    cl2: Seq<WeightedCentroid<T>>,
    as2: Seq<usize>,
    ids2: Seq<usize>,
    m2: Seq<Vec<usize>>,
)
    requires
        lloyd_is_functional(key, mean, settled),
        lloyd_outcome(points, k, cl1, key, mean, centres, as1, ids1, m1),
        lloyd_outcome(points, k, cl2, key, mean, centres, as2, ids2, m2),
    ensures
        cl1 == cl2,
{
    assert forall|p: int| 0 <= p < as1.len() implies as1[p] == as2[p] by {
        assert(goes_to(key, points@[p], centres, as1[p] as int));
        assert(goes_to(key, points@[p], centres, as2[p] as int));
        lemma_goes_to_unique(key, points@[p], centres, as1[p] as int, as2[p] as int);
    }
    assert(as1 =~= as2);
    assert forall|x: usize| ids1.contains(x) <==> ids2.contains(x) by {
        if ids1.contains(x) {
            let q = choose|q: int| 0 <= q < ids1.len() && ids1[q] == x;
            assert(ids1[q] < k && count_spec(as1, ids1[q] as int) > 0);
            assert(ids2.contains(x as int as usize));
        }
        if ids2.contains(x) {
            let q = choose|q: int| 0 <= q < ids2.len() && ids2[q] == x;
            assert(ids2[q] < k && count_spec(as2, ids2[q] as int) > 0);
            assert(ids1.contains(x as int as usize));
        }
    }
    lemma_increasing_same_members(ids1, ids2);
    assert forall|q: int| 0 <= q < cl1.len() implies #[trigger] cl1[q] == cl2[q] by {
        assert(cl1[q].weight == count_spec(as1, ids1[q] as int));
        assert(cl2[q].weight == count_spec(as2, ids2[q] as int));
        assert(m1[q]@ == members_spec(as1, ids1[q] as int));
        assert(m2[q]@ == members_spec(as2, ids2[q] as int));
        assert(call_ensures(mean, (points, &m1[q]), cl1[q].centroid));
        assert(call_ensures(mean, (points, &m2[q]), cl2[q].centroid));
    }
    assert(cl1 =~= cl2);
}

/// Lloyd's iterations are deterministic: where `key`, `mean` and `settled` answer as
/// functions, the same points, initial centres and iteration limit give the same clusters.
pub proof fn lemma_lloyd_deterministic<
    T,
    K: Fn(&T, &T) -> u64,
    A: Fn(&Vec<T>, &Vec<usize>) -> T,
    S: Fn(&T, &T) -> bool,
>(
    key: K,
    mean: A,
    settled: S,
    points: &Vec<T>,
    initial: Seq<T>,
    max_iterations: nat,
    clusters1: Seq<WeightedCentroid<T>>,
    centres1: Seq<Seq<T>>,
    assignments1: Seq<Seq<usize>>,
    flags1: Seq<(bool, bool)>,
    assignment1: Seq<usize>,
    ids1: Seq<usize>,
    members1: Seq<Vec<usize>>,
    clusters2: Seq<WeightedCentroid<T>>,
    centres2: Seq<Seq<T>>,
    assignments2: Seq<Seq<usize>>,
    flags2: Seq<(bool, bool)>,
    assignment2: Seq<usize>,
    ids2: Seq<usize>,
    members2: Seq<Vec<usize>>,
)
    requires
        lloyd_is_functional(key, mean, settled),
        lloyd_result(
            key,
            mean,
            settled,
            points,
            initial,
            max_iterations,
            clusters1,
            centres1,
            assignments1,
            flags1,
            assignment1,
            ids1,
            members1,
        ),
        lloyd_result(
            key,
            mean,
            settled,
            points,
            initial,
            max_iterations,
            clusters2,
            centres2,
            assignments2,
            flags2,
            assignment2,
            ids2,
            members2,
        ),
    ensures
        clusters1 == clusters2,
{
    lemma_trace_unique(
        key,
        mean,
        settled,
        points,
        initial,
        max_iterations,
        centres1,
        assignments1,
        flags1,
        centres2,
        assignments2,
        flags2,
    );
    lemma_outcome_unique(
        key,
        mean,
        settled,
        points,
        initial.len(),
        centres1.last(),
        clusters1,
        assignment1,
        ids1,
        members1,
        clusters2,
        assignment2,
        ids2,
        members2,
    );
}

} // verus!
