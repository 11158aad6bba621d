//! Pareto ranking of a population by a dominance relation: individual `i`
//! dominates `j` when `dominates[i][j]` holds. Each individual's rank is the
//! length of the longest chain of individuals that dominate one another above
//! it; the fronts group the individuals of equal rank.
use vstd::prelude::*;

verus! {

/// `i` dominates `j` in the relation `d`.
pub open spec fn rel(d: Seq<Vec<bool>>, i: int, j: int) -> bool {
    d[i]@[j]
}

/// `d` is an `n` by `n` strict partial order: no individual dominates itself,
/// and dominance is transitive.
pub open spec fn strict_partial_order(d: Seq<Vec<bool>>) -> bool {
    &&& forall|i: int| 0 <= i < d.len() ==> (#[trigger] d[i])@.len() == d.len()
    &&& forall|i: int| 0 <= i < d.len() ==> !#[trigger] rel(d, i, i)
    &&& forall|i: int, j: int, k: int|
        #![trigger rel(d, i, j), rel(d, j, k)]
        0 <= i < d.len() && 0 <= j < d.len() && 0 <= k < d.len() && rel(d, i, j) && rel(d, j, k)
            ==> rel(d, i, k)
}

/// `r` ranks the individuals of `d`: a dominator always ranks lower, and an
/// individual of rank `k > 0` has a dominator of rank `k - 1`.
pub open spec fn ranks_ok(d: Seq<Vec<bool>>, r: Seq<usize>) -> bool {
    &&& r.len() == d.len()
    &&& forall|i: int, j: int|
        #![trigger rel(d, i, j)]
        0 <= i < d.len() && 0 <= j < d.len() && rel(d, i, j) ==> r[i] < r[j]
    &&& forall|j: int|
        0 <= j < d.len() && #[trigger] r[j] > 0 ==> exists|i: int|
            0 <= i < d.len() && #[trigger] rel(d, i, j) && r[i] + 1 == r[j]
}

/// `f` lists the individuals by rank: front `k` holds, each once, exactly the
/// individuals of rank `k`; no front is empty; the first front is in
/// increasing order.
pub open spec fn fronts_ok(f: Seq<Vec<usize>>, r: Seq<usize>) -> bool {
    &&& forall|k: int| 0 <= k < f.len() ==> (#[trigger] f[k])@.len() > 0
    &&& forall|k: int, t: int|
        0 <= k < f.len() && 0 <= t < f[k]@.len() ==> #[trigger] f[k]@[t] < r.len() && r[f[k]@[t] as int]
            == k
    &&& forall|k: int| 0 <= k < f.len() ==> (#[trigger] f[k])@.no_duplicates()
    &&& forall|j: int| 0 <= j < r.len() ==> #[trigger] r[j] < f.len() && f[r[j] as int]@.contains(j as usize)
    &&& f.len() > 0 ==> forall|a: int, b: int|
        0 <= a < b < f[0]@.len() ==> #[trigger] f[0]@[a] < #[trigger] f[0]@[b]
}

/// Position `p` of the front `f` holds the last dominator of `j` in it.
pub open spec fn last_dominator_at(d: Seq<Vec<bool>>, f: Seq<usize>, j: usize, p: int) -> bool {
    &&& 0 <= p < f.len()
    &&& rel(d, f[p] as int, j as int)
    &&& forall|q: int| p < q < f.len() ==> !rel(d, #[trigger] f[q] as int, j as int)
}

/// The front `next` lists its individuals in the order in which the front
/// `prev` releases them: by the position of their last dominator in `prev`,
/// and by index among those released by the same one.
pub open spec fn release_ordered(d: Seq<Vec<bool>>, prev: Seq<usize>, next: Seq<usize>) -> bool {
    forall|a: int, b: int, pa: int, pb: int|
        #![trigger last_dominator_at(d, prev, next[a], pa), last_dominator_at(d, prev, next[b], pb)]
        0 <= a < b < next.len() && last_dominator_at(d, prev, next[a], pa) && last_dominator_at(
            d,
            prev,
            next[b],
            pb,
        ) ==> pa < pb || (pa == pb && next[a] < next[b])
}

/// Front `k + 1` of `f` is in release order after front `k`.
pub open spec fn released_in_order(d: Seq<Vec<bool>>, f: Seq<Vec<usize>>, k: int) -> bool {
    release_ordered(d, f[k]@, f[k + 1]@)
}

/// The last dominator of `j` in a front has one position.
proof fn lemma_last_dominator_unique(d: Seq<Vec<bool>>, f: Seq<usize>, j: usize, p1: int, p2: int)
    requires
        last_dominator_at(d, f, j, p1),
        last_dominator_at(d, f, j, p2),
    ensures
        p1 == p2,
{
    if p1 < p2 {
        assert(!rel(d, f[p2] as int, j as int));
    }
    if p2 < p1 {
        assert(!rel(d, f[p1] as int, j as int));
    }
}

/// The number of individuals below `m` that dominate `j` and are not yet
/// marked in `done`.
pub open spec fn open_dominators(d: Seq<Vec<bool>>, done: Seq<bool>, j: int, m: nat) -> nat
    decreases m,
{
    if m == 0 {
        0
    } else {
        open_dominators(d, done, j, (m - 1) as nat) + if rel(d, m - 1, j) && !done[m - 1] {
            1nat
        } else {
            0nat
        }
    }
}

/// The number of marks below `m`.
pub open spec fn num_marked(s: Seq<bool>, m: nat) -> nat
    decreases m,
{
    if m == 0 {
        0
    } else {
        num_marked(s, (m - 1) as nat) + if s[m - 1] {
            1nat
        } else {
            0nat
        }
    }
}

proof fn lemma_num_marked_bound(s: Seq<bool>, m: nat)
    ensures
        num_marked(s, m) <= m,
    decreases m,
{
    if m > 0 {
        lemma_num_marked_bound(s, (m - 1) as nat);
    }
}

proof fn lemma_push_contains(s: Seq<usize>, v: usize)
    ensures
        s.push(v).contains(v),
        forall|x: usize| s.contains(x) ==> #[trigger] s.push(v).contains(x),
{
    assert(s.push(v)[s.len() as int] == v);
    assert forall|x: usize| s.contains(x) implies #[trigger] s.push(v).contains(x) by {
        let k = choose|k: int| 0 <= k < s.len() && s[k] == x;
        assert(s.push(v)[k] == x);
    }
}

proof fn lemma_num_marked_zero(s: Seq<bool>, m: nat)
    requires
        m <= s.len(),
        forall|x: int| 0 <= x < s.len() ==> !s[x],
    ensures
        num_marked(s, m) == 0,
    decreases m,
{
    if m > 0 {
        lemma_num_marked_zero(s, (m - 1) as nat);
    }
}

proof fn lemma_not_all_marked(s: Seq<bool>, x: int, m: nat)
    requires
        0 <= x < m,
        m <= s.len(),
        !s[x],
    ensures
        num_marked(s, m) < m,
    decreases m,
{
    lemma_num_marked_bound(s, (m - 1) as nat);
    if x < m - 1 {
        lemma_not_all_marked(s, x, (m - 1) as nat);
    }
}

proof fn lemma_num_marked_set(s: Seq<bool>, x: int, m: nat)
    requires
        0 <= x < s.len(),
        m <= s.len(),
        !s[x],
    ensures
        num_marked(s.update(x, true), m) == num_marked(s, m) + if x < m {
            1nat
        } else {
            0nat
        },
    decreases m,
{
    if m > 0 {
        lemma_num_marked_set(s, x, (m - 1) as nat);
    }
}

/// Marking `x` as done removes it from the open dominators of `j`.
proof fn lemma_open_mark(d: Seq<Vec<bool>>, done: Seq<bool>, x: int, j: int, m: nat)
    requires
        0 <= x < done.len(),
        m <= done.len(),
        !done[x],
    ensures
        open_dominators(d, done.update(x, true), j, m) + if x < m && rel(d, x, j) {
            1nat
        } else {
            0nat
        } == open_dominators(d, done, j, m),
    decreases m,
{
    if m > 0 {
        lemma_open_mark(d, done, x, j, (m - 1) as nat);
    }
}

/// An open dominator below `m` is counted.
proof fn lemma_open_positive(d: Seq<Vec<bool>>, done: Seq<bool>, x: int, j: int, m: nat)
    requires
        0 <= x < m,
        rel(d, x, j),
        !done[x],
    ensures
        open_dominators(d, done, j, m) >= 1,
    decreases m,
{
    if x < m - 1 {
        lemma_open_positive(d, done, x, j, (m - 1) as nat);
    }
}

/// With no open dominator left, every dominator below `m` is done; with
/// exactly one, it is the only one not done.
proof fn lemma_open_few(d: Seq<Vec<bool>>, done: Seq<bool>, j: int, m: nat)
    ensures
        open_dominators(d, done, j, m) == 0 ==> forall|x: int|
            0 <= x < m && #[trigger] rel(d, x, j) ==> done[x],
        open_dominators(d, done, j, m) > 0 ==> exists|x: int|
            0 <= x < m && #[trigger] rel(d, x, j) && !done[x],
        forall|y: int|
            0 <= y < m && rel(d, y, j) && !done[y] && open_dominators(d, done, j, m) == 1 ==> forall|
                x: int,
            |
                0 <= x < m && #[trigger] rel(d, x, j) ==> done[x] || x == y,
    decreases m,
{
    if m > 0 {
        lemma_open_few(d, done, j, (m - 1) as nat);
        let l = (m - 1) as int;
        assert forall|y: int|
            0 <= y < m && rel(d, y, j) && !done[y] && open_dominators(d, done, j, m) == 1 implies forall|
                x: int,
            |
                0 <= x < m && #[trigger] rel(d, x, j) ==> done[x] || x == y by {
            if y < l {
                if rel(d, l, j) && !done[l] {
                    lemma_open_positive(d, done, y, j, (m - 1) as nat);
                }
            } else {
                assert(open_dominators(d, done, j, (m - 1) as nat) == 0);
            }
        }
    }
}

/// The number of dominators of `j` below `m`.
pub open spec fn all_dominators(d: Seq<Vec<bool>>, j: int, m: nat) -> nat
    decreases m,
{
    if m == 0 {
        0
    } else {
        all_dominators(d, j, (m - 1) as nat) + if rel(d, m - 1, j) {
            1nat
        } else {
            0nat
        }
    }
}

/// In a strict partial order a dominator has fewer dominators.
proof fn lemma_fewer_dominators(d: Seq<Vec<bool>>, i: int, j: int, m: nat)
    requires
        strict_partial_order(d),
        0 <= i < d.len(),
        0 <= j < d.len(),
        m <= d.len(),
        rel(d, i, j),
    ensures
        all_dominators(d, i, m) + if i < m {
            1nat
        } else {
            0nat
        } <= all_dominators(d, j, m),
    decreases m,
{
    if m > 0 {
        lemma_fewer_dominators(d, i, j, (m - 1) as nat);
        let l = (m - 1) as int;
        if rel(d, l, i) {
            assert(rel(d, l, j));
        }
        if l == i {
            assert(!rel(d, i, i));
        }
    }
}

/// In a strict partial order, if every individual outside `placed` has a
/// dominator outside `placed`, every individual is in `placed`.
proof fn lemma_no_endless_descent(d: Seq<Vec<bool>>, placed: Seq<bool>, j: int)
    requires
        strict_partial_order(d),
        placed.len() == d.len(),
        0 <= j < d.len(),
        forall|x: int|
            0 <= x < d.len() && !#[trigger] placed[x] ==> exists|y: int|
                0 <= y < d.len() && rel(d, y, x) && !placed[y],
    ensures
        placed[j],
    decreases all_dominators(d, j, d.len() as nat),
{
    if !placed[j] {
        let y = choose|y: int| 0 <= y < d.len() && rel(d, y, j) && !placed[y];
        lemma_fewer_dominators(d, y, j, d.len() as nat);
        lemma_no_endless_descent(d, placed, y);
    }
}

/// Sorts a population into Pareto fronts by the dominance relation
/// `dominates` (`dominates[i][j]`: individual `i` dominates individual `j`).
/// Returns the fronts and each individual's rank: the first front holds the
/// individuals that nothing dominates, in increasing order; each later front
/// holds those whose dominators all lie in earlier fronts, one of them in the
/// front just before.
pub fn non_dominated_sort(dominates: &Vec<Vec<bool>>) -> (res: (Vec<Vec<usize>>, Vec<usize>))
    requires
        strict_partial_order(dominates@),
    ensures
        ranks_ok(dominates@, res.1@),
        fronts_ok(res.0@, res.1@),
        forall|k: int| 0 <= k < res.0@.len() - 1 ==> #[trigger] released_in_order(dominates@, res.0@, k),
{
    let n = dominates.len();
    let ghost d = dominates@;
    let ghost none: Seq<bool> = Seq::new(n as nat, |x: int| false);
    let mut domination_count: Vec<usize> = Vec::new();
    let mut ranks: Vec<usize> = Vec::new();
    let mut front0: Vec<usize> = Vec::new();
    let ghost mut placed: Seq<bool> = Seq::empty();
    for i in 0..n
        invariant
            n == dominates.len(),
            d == dominates@,
            strict_partial_order(d),
            none == Seq::new(n as nat, |x: int| false),
            domination_count.len() == i,
            ranks.len() == i,
            placed.len() == i,
            forall|j: int|
                0 <= j < i ==> #[trigger] domination_count[j] == open_dominators(d, none, j, n as nat),
            forall|j: int| 0 <= j < i ==> #[trigger] ranks[j] == 0,
            forall|j: int| 0 <= j < i ==> (#[trigger] placed[j] <==> domination_count[j] == 0),
            forall|t: int|
                0 <= t < front0.len() ==> #[trigger] front0[t] < i && placed[front0[t] as int],
            forall|j: int| 0 <= j < i && #[trigger] placed[j] ==> front0@.contains(j as usize),
            forall|a: int, b: int| 0 <= a < b < front0.len() ==> #[trigger] front0[a] < #[trigger] front0[b],
    {
        let mut count: usize = 0;
        for j in 0..n
            invariant
                n == dominates.len(),
                d == dominates@,
                strict_partial_order(d),
                none == Seq::new(n as nat, |x: int| false),
                0 <= i < n,
                count == open_dominators(d, none, i as int, j as nat),
                count <= j,
        {
            proof {
                if rel(d, i as int, j as int) && rel(d, j as int, i as int) {
                    assert(rel(d, i as int, i as int));
                }
            }
            if i != j && !dominates[i][j] && dominates[j][i] {
                count += 1;
            }
        }
        domination_count.push(count);
        ranks.push(0);
        if count == 0 {
            proof {
                lemma_push_contains(front0@, i);
            }
            front0.push(i);
            proof {
                placed = placed.push(true);
            }
        } else {
            proof {
                placed = placed.push(false);
            }
        }
    }
    proof {
        assert(front0@.no_duplicates()) by {
            assert forall|a: int, b: int| 0 <= a < b < front0.len() implies front0[a] != front0[b] by {
                assert(front0[a] < front0[b]);
            }
        }
    }
    let mut fronts: Vec<Vec<usize>> = Vec::new();
    fronts.push(front0);
    let ghost mut done: Seq<bool> = none;
    let mut front_idx: usize = 0;
    proof {
        lemma_num_marked_zero(none, n as nat);
        assert forall|x: int, j: int|
            0 <= x < n && 0 <= j < n && placed[j] && rel(d, x, j) implies done[x] && ranks[x]
                < ranks[j] by {
            lemma_open_positive(d, none, x, j, n as nat);
        }
    }
    while fronts[front_idx].len() > 0
        invariant
            n == dominates.len(),
            d == dominates@,
            strict_partial_order(d),
            domination_count.len() == n,
            ranks.len() == n,
            placed.len() == n,
            done.len() == n,
            fronts.len() == front_idx + 1,
            front_idx <= num_marked(done, n as nat),
            forall|k: int, t: int|
                0 <= k <= front_idx && 0 <= t < fronts[k]@.len() ==> #[trigger] fronts[k]@[t] < n
                    && placed[fronts[k]@[t] as int] && ranks[fronts[k]@[t] as int] == k,
            forall|k: int| 0 <= k < front_idx ==> (#[trigger] fronts[k])@.len() > 0,
            forall|k: int| 0 <= k <= front_idx ==> (#[trigger] fronts[k])@.no_duplicates(),
            forall|j: int|
                0 <= j < n && #[trigger] placed[j] ==> ranks[j] <= front_idx && fronts[ranks[j] as int]@.contains(
                    j as usize,
                ),
            forall|a: int, b: int|
                0 <= a < b < fronts[0]@.len() ==> #[trigger] fronts[0]@[a] < #[trigger] fronts[0]@[b],
            forall|k: int| 0 <= k < front_idx ==> #[trigger] released_in_order(d, fronts@, k),
            forall|j: int| 0 <= j < n ==> (#[trigger] done[j] <==> placed[j] && ranks[j] < front_idx),
            forall|j: int|
                0 <= j < n && !#[trigger] placed[j] ==> domination_count[j] == open_dominators(
                    d,
                    done,
                    j,
                    n as nat,
                ) && domination_count[j] > 0,
            forall|x: int, j: int|
                0 <= x < n && 0 <= j < n && placed[j] && #[trigger] rel(d, x, j) ==> done[x]
                    && ranks[x] < ranks[j],
            forall|j: int|
                0 <= j < n && placed[j] && #[trigger] ranks[j] > 0 ==> exists|x: int|
                    0 <= x < n && #[trigger] rel(d, x, j) && ranks[x] + 1 == ranks[j],
        decreases n - num_marked(done, n as nat),
    {
        let ghost done_before = done;
        let ghost fronts_before = fronts@;
        let mut next_front: Vec<usize> = Vec::new();
        let ghost mut keys: Seq<int> = Seq::empty();
        let cur_len = fronts[front_idx].len();
        proof {
            lemma_num_marked_bound(done, n as nat);
            let j0 = fronts@[front_idx as int]@[0];
            assert(!done[j0 as int]);
            lemma_not_all_marked(done, j0 as int, n as nat);
        }
        for p in 0..cur_len
            invariant
                n == dominates.len(),
                d == dominates@,
                strict_partial_order(d),
                domination_count.len() == n,
                ranks.len() == n,
                placed.len() == n,
                done.len() == n,
                done_before.len() == n,
                fronts@ == fronts_before,
                fronts.len() == front_idx + 1,
                cur_len == fronts[front_idx as int]@.len(),
                front_idx < n,
                num_marked(done, n as nat) == num_marked(done_before, n as nat) + p,
                forall|k: int, t: int|
                    0 <= k <= front_idx && 0 <= t < fronts[k]@.len() ==> #[trigger] fronts[k]@[t]
                        < n && placed[fronts[k]@[t] as int] && ranks[fronts[k]@[t] as int] == k,
                forall|k: int| 0 <= k <= front_idx ==> (#[trigger] fronts[k])@.no_duplicates(),
                forall|t: int|
                    0 <= t < next_front.len() ==> #[trigger] next_front[t] < n && placed[next_front[t] as int]
                        && ranks[next_front[t] as int] == front_idx + 1,
                next_front@.no_duplicates(),
                keys.len() == next_front@.len(),
                forall|t: int|
                    0 <= t < keys.len() ==> #[trigger] keys[t] < p && last_dominator_at(
                        d,
                        fronts_before[front_idx as int]@,
                        next_front@[t],
                        keys[t],
                    ),
                forall|a: int, b: int|
                    0 <= a < b < keys.len() ==> #[trigger] keys[a] < #[trigger] keys[b] || (keys[a]
                        == keys[b] && next_front@[a] < next_front@[b]),
                forall|j: int|
                    0 <= j < n && #[trigger] placed[j] ==> ranks[j] <= front_idx + 1 && (ranks[j]
                        <= front_idx ==> fronts[ranks[j] as int]@.contains(j as usize)) && (ranks[j]
                        == front_idx + 1 ==> next_front@.contains(j as usize)),
                forall|j: int|
                    0 <= j < n ==> (#[trigger] done_before[j] <==> placed[j] && ranks[j] < front_idx),
                forall|j: int|
                    0 <= j < n ==> (#[trigger] done[j] <==> done_before[j] || exists|t: int|
                        0 <= t < p && fronts[front_idx as int]@[t] == j),
                forall|j: int|
                    0 <= j < n && !#[trigger] placed[j] ==> domination_count[j] == open_dominators(
                        d,
                        done,
                        j,
                        n as nat,
                    ) && domination_count[j] > 0,
                forall|x: int, j: int|
                    0 <= x < n && 0 <= j < n && placed[j] && #[trigger] rel(d, x, j) ==> done[x]
                        && ranks[x] < ranks[j],
                forall|j: int|
                    0 <= j < n && placed[j] && #[trigger] ranks[j] > 0 ==> exists|x: int|
                        0 <= x < n && #[trigger] rel(d, x, j) && ranks[x] + 1 == ranks[j],
        {
            let i = fronts[front_idx][p];
            let ghost done_prev = done;
            let ghost placed_prev = placed;
            let ghost ranks_prev = ranks@;
            proof {
                assert(fronts@[front_idx as int]@[p as int] == i);
                assert(!done_prev[i as int]) by {
                    if exists|t: int| 0 <= t < p && fronts@[front_idx as int]@[t] == i {
                        let t = choose|t: int| 0 <= t < p && fronts@[front_idx as int]@[t] == i;
                        assert(fronts@[front_idx as int]@.no_duplicates());
                    }
                }
                lemma_num_marked_set(done, i as int, n as nat);
                done = done.update(i as int, true);
                assert forall|q: int| p < q < cur_len implies !done_prev[#[trigger] fronts_before[front_idx as int]@[q] as int]
                    && fronts_before[front_idx as int]@[q] != i by {
                    let x = fronts_before[front_idx as int]@[q];
                    assert(fronts@[front_idx as int]@.no_duplicates());
                    if exists|t: int| 0 <= t < p && fronts@[front_idx as int]@[t] == x {
                        let t = choose|t: int| 0 <= t < p && fronts@[front_idx as int]@[t] == x;
                        assert(fronts@[front_idx as int]@[t] == fronts@[front_idx as int]@[q]);
                    }
                }
            }
            let ghost cur = fronts_before[front_idx as int]@;
            for jj in 0..n
                invariant
                    cur == fronts_before[front_idx as int]@,
                    cur.len() == cur_len,
                    p < cur_len,
                    cur[p as int] == i,
                    forall|q: int| p < q < cur_len ==> !done_prev[#[trigger] cur[q] as int] && cur[q] != i,
                    forall|q: int| 0 <= q < cur_len ==> #[trigger] cur[q] < n,
                    keys.len() == next_front@.len(),
                    forall|t: int|
                        0 <= t < keys.len() ==> #[trigger] keys[t] <= p && last_dominator_at(
                            d,
                            cur,
                            next_front@[t],
                            keys[t],
                        ) && (keys[t] == p ==> next_front@[t] < jj),
                    forall|a: int, b: int|
                        0 <= a < b < keys.len() ==> #[trigger] keys[a] < #[trigger] keys[b] || (
                        keys[a] == keys[b] && next_front@[a] < next_front@[b]),
                    n == dominates.len(),
                    d == dominates@,
                    strict_partial_order(d),
                    domination_count.len() == n,
                    ranks.len() == n,
                    placed.len() == n,
                    done.len() == n,
                    done_prev.len() == n,
                    done == done_prev.update(i as int, true),
                    !done_prev[i as int],
                    placed_prev.len() == n,
                    ranks_prev.len() == n,
                    forall|j: int|
                        0 <= j < n && #[trigger] placed_prev[j] ==> placed[j] && ranks[j] == ranks_prev[j],
                    forall|j: int|
                        0 <= j < n && #[trigger] placed[j] && !placed_prev[j] ==> ranks[j] == front_idx + 1,
                    0 <= i < n,
                    front_idx < n,
                    ranks[i as int] == front_idx,
                    placed[i as int],
                    forall|j: int|
                        0 <= j < n ==> (#[trigger] done_prev[j] ==> placed[j] && ranks[j] <= front_idx),
                    forall|t: int|
                        0 <= t < next_front.len() ==> #[trigger] next_front[t] < n && placed[next_front[t] as int]
                            && ranks[next_front[t] as int] == front_idx + 1,
                    next_front@.no_duplicates(),
                    forall|j: int|
                        0 <= j < n && #[trigger] placed[j] ==> ranks[j] <= front_idx + 1 && (ranks[j]
                            == front_idx + 1 ==> next_front@.contains(j as usize)),
                    forall|j: int|
                        0 <= j < n && !#[trigger] placed[j] ==> domination_count[j] + (if rel(d, i as int, j)
                            && j < jj {
                            1int
                        } else {
                            0int
                        }) == open_dominators(d, done_prev, j, n as nat) && domination_count[j] > 0,
                    forall|x: int, j: int|
                        0 <= x < n && 0 <= j < n && placed[j] && #[trigger] rel(d, x, j) ==> (done_prev[x]
                            || (x == i && j < jj)) && ranks[x] < ranks[j],
                    forall|j: int|
                        0 <= j < n && placed[j] && #[trigger] ranks[j] > 0 ==> exists|x: int|
                            0 <= x < n && #[trigger] rel(d, x, j) && ranks[x] + 1 == ranks[j],
            {
                if dominates[i][jj] {
                    proof {
                        assert(rel(d, i as int, jj as int));
                        lemma_open_positive(d, done_prev, i as int, jj as int, n as nat);
                    }
                    let c = domination_count[jj] - 1;
                    domination_count.set(jj, c);
                    if c == 0 {
                        proof {
                            lemma_open_few(d, done_prev, jj as int, n as nat);
                        }
                        ranks.set(jj, front_idx + 1);
                        proof {
                            lemma_push_contains(next_front@, jj);
                        }
                        next_front.push(jj);
                        proof {
                            assert forall|q: int| p < q < cur.len() implies !rel(
                                d,
                                #[trigger] cur[q] as int,
                                jj as int,
                            ) by {
                                assert(!done_prev[cur[q] as int] && cur[q] != i);
                            }
                            assert(last_dominator_at(d, cur, jj, p as int));
                            keys = keys.push(p as int);
                            placed = placed.update(jj as int, true);
                            assert(rel(d, i as int, jj as int));
                            assert(next_front@[next_front@.len() - 1] == jj);
                        }
                    }
                }
            }
            proof {
                assert forall|j: int|
                    0 <= j < n && !#[trigger] placed[j] implies domination_count[j] == open_dominators(
                        d,
                        done,
                        j,
                        n as nat,
                    ) && domination_count[j] > 0 by {
                    lemma_open_mark(d, done_prev, i as int, j, n as nat);
                }
                assert forall|j: int|
                    0 <= j < n implies (#[trigger] done[j] <==> done_before[j] || exists|t: int|
                        0 <= t < p + 1 && fronts[front_idx as int]@[t] == j) by {
                    if j == i {
                        assert(fronts[front_idx as int]@[p as int] == i);
                    }
                    if exists|t: int| 0 <= t < p + 1 && fronts[front_idx as int]@[t] == j {
                        let t = choose|t: int| 0 <= t < p + 1 && fronts[front_idx as int]@[t] == j;
                        if t < p {
                            assert(exists|t: int| 0 <= t < p && fronts[front_idx as int]@[t] == j);
                        }
                    }
                }
            }
        }
        proof {
            assert forall|j: int|
                0 <= j < n implies (#[trigger] done[j] <==> placed[j] && ranks[j] < front_idx + 1) by {
                if placed[j] && ranks[j] == front_idx {
                    let t = choose|t: int|
                        0 <= t < fronts[front_idx as int]@.len() && fronts[front_idx as int]@[t] == j;
                    assert(exists|t: int| 0 <= t < cur_len && fronts[front_idx as int]@[t] == j);
                }
                if done[j] && !done_before[j] {
                    let t = choose|t: int| 0 <= t < cur_len && fronts[front_idx as int]@[t] == j;
                    assert(fronts[front_idx as int]@[t] == j);
                }
            }
        }
        proof {
            lemma_num_marked_bound(done, n as nat);
            assert(release_ordered(d, fronts@[front_idx as int]@, next_front@)) by {
                assert forall|a: int, b: int, pa: int, pb: int|
                    0 <= a < b < next_front@.len() && last_dominator_at(
                        d,
                        fronts@[front_idx as int]@,
                        next_front@[a],
                        pa,
                    ) && last_dominator_at(
                        d,
                        fronts@[front_idx as int]@,
                        next_front@[b],
                        pb,
                    ) implies pa < pb || (pa == pb && next_front@[a] < next_front@[b]) by {
                    assert(keys[a] < keys[b] || (keys[a] == keys[b] && next_front@[a] < next_front@[b]));
                    lemma_last_dominator_unique(d, fronts@[front_idx as int]@, next_front@[a], pa, keys[a]);
                    lemma_last_dominator_unique(d, fronts@[front_idx as int]@, next_front@[b], pb, keys[b]);
                }
            }
        }
        let ghost fronts_old = fronts@;
        fronts.push(next_front);
        proof {
            assert forall|k: int| 0 <= k < front_idx + 1 implies #[trigger] released_in_order(
                d,
                fronts@,
                k,
            ) by {
                assert(fronts@[k] == fronts_old[k]);
                if k < front_idx {
                    assert(released_in_order(d, fronts_old, k));
                    assert(fronts@[k + 1] == fronts_old[k + 1]);
                }
            }
        }
        front_idx += 1;
    }
    proof {
        assert forall|x: int|
            0 <= x < n && !#[trigger] placed[x] implies exists|y: int|
                0 <= y < n && rel(d, y, x) && !placed[y] by {
            lemma_open_few(d, done, x, n as nat);
            let y = choose|y: int| 0 <= y < n && #[trigger] rel(d, y, x) && !done[y];
            if placed[y] {
                assert(ranks[y] <= front_idx);
                if ranks[y] == front_idx {
                    assert(fronts[front_idx as int]@.contains(y as usize));
                }
            }
        }
        assert forall|j: int| 0 <= j < n implies #[trigger] placed[j] by {
            lemma_no_endless_descent(d, placed, j);
        }
        assert forall|j: int| 0 <= j < n implies #[trigger] ranks[j] < front_idx by {
            assert(placed[j]);
            if ranks[j] == front_idx {
                assert(fronts[front_idx as int]@.contains(j as usize));
            }
        }
    }
    let ghost fronts_full = fronts@;
    fronts.pop();
    proof {
        assert(fronts@ == fronts_full.subrange(0, front_idx as int));
        let f = fronts@;
        let r = ranks@;
        assert forall|k: int| 0 <= k < f.len() implies (#[trigger] f[k])@.len() > 0 by {
            assert(f[k] == fronts_full[k]);
        }
        assert forall|k: int, t: int|
            0 <= k < f.len() && 0 <= t < f[k]@.len() implies #[trigger] f[k]@[t] < r.len() && r[f[k]@[t] as int]
                == k by {
            assert(f[k] == fronts_full[k]);
        }
        assert forall|k: int| 0 <= k < f.len() implies (#[trigger] f[k])@.no_duplicates() by {
            assert(f[k] == fronts_full[k]);
        }
        assert forall|j: int| 0 <= j < r.len() implies #[trigger] r[j] < f.len() && f[r[j] as int]@.contains(
            j as usize,
        ) by {
            assert(placed[j]);
            assert(f[r[j] as int] == fronts_full[r[j] as int]);
        }
        if f.len() > 0 {
            assert(f[0] == fronts_full[0]);
        }
        assert forall|k: int| 0 <= k < f.len() - 1 implies #[trigger] released_in_order(d, f, k) by {
            assert(released_in_order(d, fronts_full, k));
            assert(f[k] == fronts_full[k]);
            assert(f[k + 1] == fronts_full[k + 1]);
        }
    }
    (fronts, ranks)
}

} // verus!
