use vstd::prelude::*;

use crate::flow::{acyclic, dep_lists, depends_on_index, deps_in_range, ranked_by};

verus! {

/// Step `s` has not run yet, and every step it depends on has.
pub open spec fn ready(deps: Seq<Seq<usize>>, done: Seq<bool>, s: int) -> bool {
    &&& !done[s]
    &&& forall|j: int| 0 <= j < deps[s].len() ==> #[trigger] done[deps[s][j] as int]
}

/// The steps that have run once the first `k` levels have.
pub open spec fn done_after(deps: Seq<Seq<usize>>, k: nat) -> Seq<bool>
    decreases k,
{
    if k == 0 {
        Seq::new(deps.len(), |s: int| false)
    } else {
        let d = done_after(deps, (k - 1) as nat);
        Seq::new(deps.len(), |s: int| d[s] || ready(deps, d, s))
    }
}

/// The step positions below `m`, ascending.
pub open spec fn indices(m: nat) -> Seq<usize> {
    Seq::new(m, |i: int| i as usize)
}

pub open spec fn ready_pred(deps: Seq<Seq<usize>>, done: Seq<bool>) -> spec_fn(usize) -> bool {
    |i: usize| ready(deps, done, i as int)
}

/// The steps that are ready, in ascending order, once `done` have run.
pub open spec fn ready_steps(deps: Seq<Seq<usize>>, done: Seq<bool>) -> Seq<usize> {
    indices(deps.len()).filter(ready_pred(deps, done))
}

/// Level `k`: the steps whose dependencies all lie in earlier levels.
pub open spec fn level_spec(deps: Seq<Seq<usize>>, k: nat) -> Seq<usize> {
    ready_steps(deps, done_after(deps, k))
}

/// `levels` are the levels of `deps`, up to the first empty one.
pub open spec fn leveling(deps: Seq<Seq<usize>>, levels: Seq<Seq<usize>>) -> bool {
    &&& forall|k: int| 0 <= k < levels.len() ==> #[trigger] levels[k] == level_spec(deps, k as nat)
    &&& forall|k: int| 0 <= k < levels.len() ==> #[trigger] level_spec(deps, k as nat).len() > 0
    &&& level_spec(deps, levels.len()).len() == 0
}

/// `x` is among the first `m` entries of `level`.
spec fn marked(level: Seq<usize>, m: int, x: int) -> bool {
    exists|i: int| 0 <= i < m && level[i] == x
}

/// Count of steps that have not run.
spec fn undone_count(d: Seq<bool>) -> nat
    decreases d.len(),
{
    if d.len() == 0 {
        0
    } else {
        undone_count(d.drop_last()) + if d.last() {
            0nat
        } else {
            1nat
        }
    }
}

proof fn lemma_undone_count_mono(a: Seq<bool>, b: Seq<bool>)
    requires
        a.len() == b.len(),
        forall|i: int| 0 <= i < a.len() && a[i] ==> b[i],
    ensures
        undone_count(b) <= undone_count(a),
    decreases a.len(),
{
    if a.len() > 0 {
        lemma_undone_count_mono(a.drop_last(), b.drop_last());
    }
}

proof fn lemma_undone_count_strict(a: Seq<bool>, b: Seq<bool>, w: int)
    requires
        a.len() == b.len(),
        forall|i: int| 0 <= i < a.len() && a[i] ==> b[i],
        0 <= w < a.len(),
        !a[w],
        b[w],
    ensures
        undone_count(b) < undone_count(a),
    decreases a.len(),
{
    if w == a.len() - 1 {
        lemma_undone_count_mono(a.drop_last(), b.drop_last());
    } else {
        lemma_undone_count_strict(a.drop_last(), b.drop_last(), w);
    }
}

/// Whether every step of `ds` has run.
fn all_done(ds: &Vec<usize>, done: &Vec<bool>) -> (r: bool)
    requires
        forall|j: int| 0 <= j < ds@.len() ==> ds@[j] < done@.len(),
    ensures
        r == forall|j: int| 0 <= j < ds@.len() ==> #[trigger] done@[ds@[j] as int],
{
    let mut j: usize = 0;
    while j < ds.len()
        invariant
            0 <= j <= ds@.len(),
            forall|x: int| 0 <= x < ds@.len() ==> ds@[x] < done@.len(),
            forall|x: int| 0 <= x < j ==> #[trigger] done@[ds@[x] as int],
        decreases ds@.len() - j,
    {
        if !done[ds[j]] {
            return false;
        }
        j = j + 1;
    }
    true
}

/// Groups the steps into execution levels: level 0 holds the steps without
/// dependencies, and each later level the steps whose dependencies have all been
/// scheduled in earlier levels. Leveling stops at the first empty level; steps
/// on or behind a cycle are then left out.
pub fn topo_levels(num_steps: usize, deps: &Vec<Vec<usize>>) -> (levels: Vec<Vec<usize>>)
    requires
        deps@.len() == num_steps,
        deps_in_range(dep_lists(deps@)),
    ensures
        leveling(dep_lists(deps@), dep_lists(levels@)),
        forall|k: int, i: int|
            0 <= k < levels@.len() && 0 <= i < levels@[k]@.len() ==> levels@[k]@[i] < num_steps,
{
    let ghost dl = dep_lists(deps@);
    let n = num_steps;
    let mut done: Vec<bool> = Vec::new();
    let mut c: usize = 0;
    while c < n
        invariant
            0 <= c <= n,
            done@.len() == c,
            forall|x: int| 0 <= x < c ==> !done@[x],
        decreases n - c,
    {
        done.push(false);
        c = c + 1;
    }
    assert(done@ =~= done_after(dl, 0));
    let mut levels: Vec<Vec<usize>> = Vec::new();
    loop
        invariant
            dl == dep_lists(deps@),
            dl.len() == n,
            deps_in_range(dl),
            done@ == done_after(dl, levels@.len() as nat),
            forall|k: int|
                0 <= k < levels@.len() ==> #[trigger] dep_lists(levels@)[k] == level_spec(dl, k as nat),
            forall|k: int| 0 <= k < levels@.len() ==> #[trigger] level_spec(dl, k as nat).len() > 0,
        ensures
            leveling(dl, dep_lists(levels@)),
        decreases undone_count(done@),
    {
        let ghost d0 = done@;
        let ghost pred = ready_pred(dl, d0);
        let mut level: Vec<usize> = Vec::new();
        let mut s: usize = 0;
        while s < n
            invariant
                dl == dep_lists(deps@),
                dl.len() == n,
                deps_in_range(dl),
                done@ == d0,
                d0.len() == n,
                pred == ready_pred(dl, d0),
                0 <= s <= n,
                level@ == indices(s as nat).filter(pred),
                forall|i: int| 0 <= i < level@.len() ==> level@[i] < s && ready(dl, d0, level@[i] as int),
                forall|x: int| 0 <= x < s && ready(dl, d0, x) ==> level@.contains(x as usize),
            decreases n - s,
        {
            proof {
                assert(indices((s + 1) as nat) =~= indices(s as nat).push(s));
                indices(s as nat).lemma_filter_push(s, pred);
            }
            assert(dl[s as int] == deps@[s as int]@);
            let ghost lv0 = level@;
            if !done[s] && all_done(&deps[s], &done) {
                assert(ready(dl, d0, s as int));
                level.push(s);
            }
            proof {
                assert forall|x: int| 0 <= x < s + 1 && ready(dl, d0, x) implies level@.contains(
                    x as usize,
                ) by {
                    if x < s {
                        assert(lv0.contains(x as usize));
                        let i = choose|i: int| 0 <= i < lv0.len() && #[trigger] lv0[i] == x as usize;
                        assert(level@[i] == x as usize);
                    } else {
                        assert(level@[level@.len() - 1] == s);
                    }
                }
            }
            s = s + 1;
        }
        assert(level@ == level_spec(dl, levels@.len() as nat));
        if level.len() == 0 {
            assert(dep_lists(levels@).len() == levels@.len());
            break;
        }
        let mut idx: usize = 0;
        while idx < level.len()
            invariant
                d0.len() == n,
                done@.len() == n,
                0 <= idx <= level@.len(),
                forall|i: int| 0 <= i < level@.len() ==> level@[i] < n,
                forall|x: int| 0 <= x < n ==> #[trigger] done@[x] == (d0[x] || marked(level@, idx as int, x)),
            decreases level@.len() - idx,
        {
            let ghost dprev = done@;
            done.set(level[idx], true);
            proof {
                assert forall|x: int| 0 <= x < n implies #[trigger] done@[x] == (d0[x] || marked(level@, idx + 1, x)) by {
                    if level@[idx as int] == x {
                        assert(0 <= idx < idx + 1 && level@[idx as int] == x);
                    } else {
                        assert(done@[x] == dprev[x]);
                        if marked(level@, idx + 1, x) {
                            let i = choose|i: int| 0 <= i < idx + 1 && #[trigger] level@[i] == x;
                            assert(0 <= i < idx && level@[i] == x);
                        }
                    }
                }
            }
            idx = idx + 1;
        }
        proof {
            let k = levels@.len() as nat;
            assert forall|x: int| 0 <= x < n implies done@[x] == done_after(dl, k + 1)[x] by {
                if ready(dl, d0, x) {
                    assert(level@.contains(x as usize));
                    let i = choose|i: int| 0 <= i < level@.len() && level@[i] == x as usize;
                    assert(0 <= i < idx && level@[i] == x);
                    assert(marked(level@, idx as int, x));
                }
            }
            assert(done@ =~= done_after(dl, k + 1));
            lemma_undone_count_strict(d0, done@, level@[0] as int);
        }
        let ghost old_levels = levels@;
        let ghost this_level = level@;
        levels.push(level);
        proof {
            assert forall|k: int| 0 <= k < levels@.len() implies #[trigger] dep_lists(levels@)[k] == level_spec(dl, k as nat) by {
                if k < old_levels.len() {
                    assert(levels@[k] == old_levels[k]);
                    assert(dep_lists(old_levels)[k] == level_spec(dl, k as nat));
                } else {
                    assert(levels@[k]@ == this_level);
                }
            }
            assert forall|k: int| 0 <= k < levels@.len() implies #[trigger] level_spec(dl, k as nat).len() > 0 by {
                if k == old_levels.len() {
                    assert(this_level.len() > 0);
                }
            }
        }
    }
    proof {
        assert forall|k: int, i: int|
            0 <= k < levels@.len() && 0 <= i < levels@[k]@.len() implies levels@[k]@[i] < num_steps by {
            lemma_level_member(dl, dep_lists(levels@), k, 0);
            assert(dep_lists(levels@)[k] == levels@[k]@);
        }
    }
    levels
}

// ---------------------------------------------------------------- properties

/// A walk along dependency edges: each step depends on the next.
pub open spec fn dep_path(deps: Seq<Seq<usize>>, p: Seq<int>) -> bool {
    &&& p.len() >= 2
    &&& forall|i: int| 0 <= i < p.len() ==> 0 <= #[trigger] p[i] < deps.len()
    &&& forall|i: int| 0 <= i < p.len() - 1 ==> #[trigger] depends_on_index(deps, p[i], p[i + 1])
}

/// Step `a` depends on step `b`, directly or through other steps.
pub open spec fn depends_transitively(deps: Seq<Seq<usize>>, a: int, b: int) -> bool {
    exists|p: Seq<int>| dep_path(deps, p) && p[0] == a && p.last() == b
}

/// Step `s` stands in level `k`.
pub open spec fn in_level(levels: Seq<Seq<usize>>, k: int, s: int) -> bool {
    exists|i: int| 0 <= i < levels[k].len() && levels[k][i] as int == s
}

/// Step `s` stands in some level.
pub open spec fn scheduled(levels: Seq<Seq<usize>>, s: int) -> bool {
    exists|k: int| 0 <= k < levels.len() && in_level(levels, k, s)
}

/// Step `s` stands in a level before level `k`.
pub open spec fn scheduled_before(levels: Seq<Seq<usize>>, k: int, s: int) -> bool {
    exists|k2: int| 0 <= k2 < k && in_level(levels, k2, s)
}

proof fn lemma_ready_steps(deps: Seq<Seq<usize>>, done: Seq<bool>, m: nat)
    requires
        m <= usize::MAX,
    ensures
        ({
            let f = indices(m).filter(ready_pred(deps, done));
            &&& forall|i: int| 0 <= i < f.len() ==> f[i] < m && ready(deps, done, f[i] as int)
            &&& forall|i: int, j: int| 0 <= i < j < f.len() ==> f[i] < f[j]
            &&& forall|x: int|
                0 <= x < m && ready(deps, done, x) ==> exists|i: int|
                    0 <= i < f.len() && f[i] as int == x
        }),
    decreases m,
{
    let pred = ready_pred(deps, done);
    if m == 0 {
        reveal(Seq::filter);
    } else {
        let m1 = (m - 1) as nat;
        lemma_ready_steps(deps, done, m1);
        assert(indices(m) =~= indices(m1).push(m1 as usize));
        indices(m1).lemma_filter_push(m1 as usize, pred);
        let f0 = indices(m1).filter(pred);
        let f = indices(m).filter(pred);
        if ready(deps, done, m1 as int) {
            assert(f[f.len() - 1] == m1 as usize);
            assert forall|x: int| 0 <= x < m && ready(deps, done, x) implies exists|i: int|
                0 <= i < f.len() && f[i] as int == x by {
                if x < m1 {
                    let i = choose|i: int| 0 <= i < f0.len() && f0[i] as int == x;
                    assert(f[i] == f0[i]);
                } else {
                    assert(f[f.len() - 1] as int == x);
                }
            }
        } else {
            assert forall|x: int| 0 <= x < m && ready(deps, done, x) implies exists|i: int|
                0 <= i < f.len() && f[i] as int == x by {
                let i = choose|i: int| 0 <= i < f0.len() && f0[i] as int == x;
                assert(f[i] == f0[i]);
            }
        }
    }
}

proof fn lemma_done_len(deps: Seq<Seq<usize>>, k: nat)
    ensures
        done_after(deps, k).len() == deps.len(),
    decreases k,
{
    if k > 0 {
        lemma_done_len(deps, (k - 1) as nat);
    }
}

/// A step that has run stays run.
proof fn lemma_done_mono(deps: Seq<Seq<usize>>, k1: nat, k2: nat, s: int)
    requires
        k1 <= k2,
        0 <= s < deps.len(),
        done_after(deps, k1)[s],
    ensures
        done_after(deps, k2)[s],
    decreases k2,
{
    if k1 < k2 {
        lemma_done_mono(deps, k1, (k2 - 1) as nat, s);
        lemma_done_len(deps, (k2 - 1) as nat);
    }
}

/// A step that has run was ready in some earlier round.
proof fn lemma_done_origin(deps: Seq<Seq<usize>>, k: nat, s: int)
    requires
        0 <= s < deps.len(),
        done_after(deps, k)[s],
    ensures
        exists|k2: nat| k2 < k && ready(deps, done_after(deps, k2), s),
    decreases k,
{
    if k == 0 {
    } else {
        let k1 = (k - 1) as nat;
        lemma_done_len(deps, k1);
        if done_after(deps, k1)[s] {
            lemma_done_origin(deps, k1, s);
            let k2 = choose|k2: nat| k2 < k1 && ready(deps, done_after(deps, k2), s);
            assert(k2 < k);
        } else {
            assert(ready(deps, done_after(deps, k1), s));
        }
    }
}

/// Level `k` holds exactly the steps ready after the earlier levels.
proof fn lemma_level_member(deps: Seq<Seq<usize>>, levels: Seq<Seq<usize>>, k: int, s: int)
    requires
        deps.len() <= usize::MAX,
        leveling(deps, levels),
        0 <= k < levels.len(),
    ensures
        in_level(levels, k, s) <==> (0 <= s < deps.len() && ready(deps, done_after(deps, k as nat), s)),
        forall|i: int| 0 <= i < levels[k].len() ==> levels[k][i] < deps.len(),
        forall|i: int, j: int| 0 <= i < j < levels[k].len() ==> levels[k][i] < levels[k][j],
{
    let done = done_after(deps, k as nat);
    lemma_ready_steps(deps, done, deps.len());
    assert(levels[k] == level_spec(deps, k as nat));
    if in_level(levels, k, s) {
        let i = choose|i: int| 0 <= i < levels[k].len() && levels[k][i] as int == s;
        assert(ready(deps, done, levels[k][i] as int));
    }
}

/// A step whose dependencies are ranked, if not yet run, has a not-yet-run
/// ancestor that is ready.
proof fn lemma_find_ready(deps: Seq<Seq<usize>>, done: Seq<bool>, rank: Seq<nat>, s: int)
    requires
        deps_in_range(deps),
        ranked_by(deps, rank),
        done.len() == deps.len(),
        0 <= s < deps.len(),
        !done[s],
    ensures
        exists|t: int| 0 <= t < deps.len() && ready(deps, done, t),
    decreases rank[s],
{
    if !ready(deps, done, s) {
        let j = choose|j: int| 0 <= j < deps[s].len() && !#[trigger] done[deps[s][j] as int];
        assert(rank[deps[s][j] as int] < rank[s]);
        lemma_find_ready(deps, done, rank, deps[s][j] as int);
    }
}

/// Leveling an acyclic graph schedules every step: each stands in one level,
/// and only once.
pub proof fn lemma_levels_partition(deps: Seq<Seq<usize>>, levels: Seq<Seq<usize>>)
    requires
        deps.len() <= usize::MAX,
        deps_in_range(deps),
        acyclic(deps),
        leveling(deps, levels),
    ensures
        forall|s: int| 0 <= s < deps.len() ==> #[trigger] scheduled(levels, s),
        forall|k: int, i: int|
            0 <= k < levels.len() && 0 <= i < levels[k].len() ==> levels[k][i] < deps.len(),
        forall|k1: int, i1: int, k2: int, i2: int|
            0 <= k1 < levels.len() && 0 <= i1 < levels[k1].len() && 0 <= k2 < levels.len() && 0
                <= i2 < levels[k2].len() && levels[k1][i1] == levels[k2][i2] ==> k1 == k2 && i1 == i2,
{
    let n = deps.len();
    let len = levels.len();
    assert forall|s: int| 0 <= s < n implies #[trigger] scheduled(levels, s) by {
        let done = done_after(deps, len);
        lemma_done_len(deps, len);
        if !done[s] {
            let rank = choose|rank: Seq<nat>| ranked_by(deps, rank);
            lemma_find_ready(deps, done, rank, s);
            let t = choose|t: int| 0 <= t < n && ready(deps, done, t);
            lemma_ready_steps(deps, done, n);
            assert(level_spec(deps, len) == indices(n).filter(ready_pred(deps, done)));
            assert(false);
        }
        lemma_done_origin(deps, len, s);
        let k = choose|k: nat| k < len && ready(deps, done_after(deps, k), s);
        lemma_level_member(deps, levels, k as int, s);
        assert(in_level(levels, k as int, s));
    }
    assert forall|k: int, i: int| 0 <= k < len && 0 <= i < levels[k].len() implies levels[k][i] < n by {
        lemma_level_member(deps, levels, k, 0);
    }
    assert forall|k1: int, i1: int, k2: int, i2: int|
        0 <= k1 < len && 0 <= i1 < levels[k1].len() && 0 <= k2 < len && 0 <= i2 < levels[k2].len()
            && levels[k1][i1] == levels[k2][i2] implies k1 == k2 && i1 == i2 by {
        let s = levels[k1][i1] as int;
        lemma_level_member(deps, levels, k1, s);
        lemma_level_member(deps, levels, k2, s);
        if k1 < k2 {
            lemma_done_len(deps, k1 as nat);
            assert(done_after(deps, (k1 + 1) as nat)[s]);
            lemma_done_mono(deps, (k1 + 1) as nat, k2 as nat, s);
        } else if k2 < k1 {
            lemma_done_len(deps, k2 as nat);
            assert(done_after(deps, (k2 + 1) as nat)[s]);
            lemma_done_mono(deps, (k2 + 1) as nat, k1 as nat, s);
        } else {
            if i1 < i2 {
                assert(levels[k1][i1] < levels[k1][i2]);
            } else if i2 < i1 {
                assert(levels[k1][i2] < levels[k1][i1]);
            }
        }
    }
}

/// Every dependency of a scheduled step stands in a strictly earlier level.
pub proof fn lemma_levels_respect_deps(deps: Seq<Seq<usize>>, levels: Seq<Seq<usize>>)
    requires
        deps.len() <= usize::MAX,
        deps_in_range(deps),
        leveling(deps, levels),
    ensures
        forall|k: int, i: int, j: int|
            0 <= k < levels.len() && 0 <= i < levels[k].len() && 0 <= j
                < deps[levels[k][i] as int].len() ==> #[trigger] scheduled_before(
                levels,
                k,
                deps[levels[k][i] as int][j] as int,
            ),
{
    assert forall|k: int, i: int, j: int|
        0 <= k < levels.len() && 0 <= i < levels[k].len() && 0 <= j < deps[levels[k][i] as int].len()
            implies #[trigger] scheduled_before(levels, k, deps[levels[k][i] as int][j] as int) by {
        let s = levels[k][i] as int;
        lemma_level_member(deps, levels, k, s);
        let d = deps[s][j] as int;
        assert(done_after(deps, k as nat)[deps[s][j] as int]);
        lemma_done_origin(deps, k as nat, d);
        let k2 = choose|k2: nat| k2 < k && ready(deps, done_after(deps, k2), d);
        lemma_level_member(deps, levels, k2 as int, d);
        assert(in_level(levels, k2 as int, d));
    }
}

/// Along a dependency walk from a step ready in round `k`, every later step has
/// already run by then.
proof fn lemma_path_done(deps: Seq<Seq<usize>>, k: nat, p: Seq<int>, i: int)
    requires
        deps_in_range(deps),
        dep_path(deps, p),
        ready(deps, done_after(deps, k), p[0]),
        1 <= i < p.len(),
    ensures
        done_after(deps, k)[p[i]],
    decreases i,
{
    let prev = i - 1;
    assert(depends_on_index(deps, p[prev], p[prev + 1]));
    let j = choose|j: int| 0 <= j < deps[p[prev]].len() && deps[p[prev]][j] == p[prev + 1];
    if i == 1 {
        assert(done_after(deps, k)[deps[p[0]][j] as int]);
    } else {
        lemma_path_done(deps, k, p, prev);
        lemma_done_origin(deps, k, p[prev]);
        let k2 = choose|k2: nat| k2 < k && ready(deps, done_after(deps, k2), p[prev]);
        assert(done_after(deps, k2)[deps[p[prev]][j] as int]);
        lemma_done_mono(deps, k2, k, p[i]);
    }
}

/// No step of a level depends, directly or transitively, on a step of the same level.
pub proof fn lemma_levels_independent(deps: Seq<Seq<usize>>, levels: Seq<Seq<usize>>)
    requires
        deps.len() <= usize::MAX,
        deps_in_range(deps),
        leveling(deps, levels),
    ensures
        forall|k: int, a: int, b: int|
            0 <= k < levels.len() && #[trigger] in_level(levels, k, a) && #[trigger] in_level(
                levels,
                k,
                b,
            ) ==> !depends_transitively(deps, a, b),
{
    assert forall|k: int, a: int, b: int|
        0 <= k < levels.len() && #[trigger] in_level(levels, k, a) && #[trigger] in_level(
            levels,
            k,
            b,
        ) implies !depends_transitively(deps, a, b) by {
        lemma_level_member(deps, levels, k, a);
        lemma_level_member(deps, levels, k, b);
        if depends_transitively(deps, a, b) {
            let p = choose|p: Seq<int>| dep_path(deps, p) && p[0] == a && p.last() == b;
            lemma_path_done(deps, k as nat, p, p.len() - 1);
        }
    }
}

/// Leveling is deterministic: a dependency graph has exactly one leveling.
pub proof fn lemma_leveling_unique(deps: Seq<Seq<usize>>, a: Seq<Seq<usize>>, b: Seq<Seq<usize>>)
    requires
        leveling(deps, a),
        leveling(deps, b),
    ensures
        a == b,
{
    if a.len() < b.len() {
        let k: int = a.len() as int;
        assert(0 <= k < b.len());
        assert(b[k] == level_spec(deps, k as nat));
        assert(level_spec(deps, k as nat).len() > 0);
    }
    if b.len() < a.len() {
        let k: int = b.len() as int;
        assert(0 <= k < a.len());
        assert(a[k] == level_spec(deps, k as nat));
        assert(level_spec(deps, k as nat).len() > 0);
    }
    assert forall|k: int| 0 <= k < a.len() implies a[k] == b[k] by {
        assert(a[k] == level_spec(deps, k as nat));
        assert(b[k] == level_spec(deps, k as nat));
    }
    assert(a =~= b);
}

/// How many entries the levels hold in all.
pub open spec fn total(levels: Seq<Seq<usize>>) -> nat {
    levels.flatten().len()
}

/// How many steps below `m` are ready once `done` have run.
spec fn ready_count(deps: Seq<Seq<usize>>, done: Seq<bool>, m: nat) -> nat
    decreases m,
{
    if m == 0 {
        0
    } else {
        ready_count(deps, done, (m - 1) as nat) + if ready(deps, done, m - 1) {
            1nat
        } else {
            0nat
        }
    }
}

proof fn lemma_ready_count_is_filter_len(deps: Seq<Seq<usize>>, done: Seq<bool>, m: nat)
    requires
        m <= usize::MAX,
    ensures
        indices(m).filter(ready_pred(deps, done)).len() == ready_count(deps, done, m),
    decreases m,
{
    if m == 0 {
        reveal(Seq::filter);
    } else {
        let m1 = (m - 1) as nat;
        lemma_ready_count_is_filter_len(deps, done, m1);
        assert(indices(m) =~= indices(m1).push(m1 as usize));
        indices(m1).lemma_filter_push(m1 as usize, ready_pred(deps, done));
    }
}

/// One round marks exactly the ready steps as run.
proof fn lemma_round_count(deps: Seq<Seq<usize>>, d: Seq<bool>, a: Seq<bool>, b: Seq<bool>)
    requires
        a.len() == b.len(),
        a.len() <= d.len(),
        forall|s: int| 0 <= s < a.len() ==> a[s] == d[s],
        forall|s: int| 0 <= s < b.len() ==> b[s] == (d[s] || ready(deps, d, s)),
    ensures
        undone_count(a) == undone_count(b) + ready_count(deps, d, a.len()),
    decreases a.len(),
{
    if a.len() > 0 {
        lemma_round_count(deps, d, a.drop_last(), b.drop_last());
    }
}

proof fn lemma_undone_all(d: Seq<bool>, v: bool)
    requires
        forall|s: int| 0 <= s < d.len() ==> d[s] == v,
    ensures
        undone_count(d) == if v {
            0
        } else {
            d.len()
        },
    decreases d.len(),
{
    if d.len() > 0 {
        lemma_undone_all(d.drop_last(), v);
    }
}

/// The first `k` levels hold as many entries as the steps that have run after them.
proof fn lemma_total_prefix(deps: Seq<Seq<usize>>, levels: Seq<Seq<usize>>, k: nat)
    requires
        deps.len() <= usize::MAX,
        leveling(deps, levels),
        k <= levels.len(),
    ensures
        total(levels.take(k as int)) + undone_count(done_after(deps, k)) == deps.len(),
    decreases k,
{
    if k == 0 {
        assert(levels.take(0) =~= Seq::<Seq<usize>>::empty());
        assert(Seq::<Seq<usize>>::empty().flatten() =~= Seq::<usize>::empty()) by {
            reveal_with_fuel(Seq::flatten, 1);
        }
        lemma_undone_all(done_after(deps, 0), false);
    } else {
        let k1 = (k - 1) as nat;
        lemma_total_prefix(deps, levels, k1);
        assert(levels.take(k as int) =~= levels.take(k1 as int).push(levels[k1 as int]));
        levels.take(k1 as int).lemma_flatten_push(levels[k1 as int]);
        let d = done_after(deps, k1);
        lemma_done_len(deps, k1);
        lemma_ready_count_is_filter_len(deps, d, deps.len());
        assert(levels[k1 as int] == level_spec(deps, k1));
        lemma_round_count(deps, d, d, done_after(deps, k));
    }
}

/// Leveling an acyclic graph schedules as many entries as there are steps.
pub proof fn lemma_levels_cover_all(deps: Seq<Seq<usize>>, levels: Seq<Seq<usize>>)
    requires
        deps.len() <= usize::MAX,
        deps_in_range(deps),
        acyclic(deps),
        leveling(deps, levels),
    ensures
        total(levels) == deps.len(),
{
    let len = levels.len();
    let done = done_after(deps, len);
    lemma_done_len(deps, len);
    assert forall|s: int| 0 <= s < deps.len() implies done[s] by {
        if !done[s] {
            let rank = choose|rank: Seq<nat>| ranked_by(deps, rank);
            lemma_find_ready(deps, done, rank, s);
            let t = choose|t: int| 0 <= t < deps.len() && ready(deps, done, t);
            lemma_ready_steps(deps, done, deps.len());
            assert(level_spec(deps, len) == indices(deps.len()).filter(ready_pred(deps, done)));
            assert(false);
        }
    }
    lemma_undone_all(done, true);
    lemma_total_prefix(deps, levels, len);
    assert(levels.take(len as int) =~= levels);
}

/// Every entry of a leveling is a step of the graph.
pub proof fn lemma_levels_in_range(deps: Seq<Seq<usize>>, levels: Seq<Seq<usize>>)
    requires
        deps.len() <= usize::MAX,
        leveling(deps, levels),
    ensures
        forall|k: int, i: int|
            0 <= k < levels.len() && 0 <= i < levels[k].len() ==> levels[k][i] < deps.len(),
{
    assert forall|k: int, i: int| 0 <= k < levels.len() && 0 <= i < levels[k].len() implies levels[k][i]
        < deps.len() by {
        lemma_level_member(deps, levels, k, 0);
    }
}

} // verus!
