use vstd::prelude::*;

use crate::config::{FlowDef, StepDef};

verus! {

/// A validated flow: step dependencies resolved from identifiers to indices.
pub struct ValidatedFlow {
    /// For each step index, the indices of the steps it depends on.
    pub deps: Vec<Vec<usize>>,
}

/// Why a flow could not be validated or run.
#[derive(Clone, Debug)]
pub enum FlowError {
    /// Two steps share an identifier; `first < second` are their positions.
    DuplicateStep { id: String, first: usize, second: usize },
    /// A step names a dependency that no step of the flow has as identifier.
    UnknownDependency { step: String, dependency: String },
    /// The dependencies loop; each identifier of `path` depends on the next one,
    /// and the last is the first again.
    CycleDetected { path: Vec<String> },
    /// No flow of that name is defined.
    UnknownFlow { name: String },
    /// Leveling left steps unscheduled: an internal consistency failure.
    Unscheduled { flow: String },
}

// ---------------------------------------------------------------- models

/// The identifiers of the steps at positions below `m` are pairwise distinct.
pub open spec fn distinct_before(steps: Seq<StepDef>, m: int) -> bool {
    forall|i: int, j: int| 0 <= i < j < m ==> steps[i].id@ != steps[j].id@
}

pub open spec fn ids_distinct(steps: Seq<StepDef>) -> bool {
    distinct_before(steps, steps.len() as int)
}

/// Some step of the flow has identifier `name`.
pub open spec fn names_step(steps: Seq<StepDef>, name: Seq<char>) -> bool {
    exists|i: int| 0 <= i < steps.len() && steps[i].id@ == name
}

/// The `j`-th dependency of step `s` names a step of the flow.
pub open spec fn dep_known(steps: Seq<StepDef>, s: int, j: int) -> bool {
    names_step(steps, steps[s].depends_on@[j]@)
}

pub open spec fn deps_known(steps: Seq<StepDef>) -> bool {
    forall|s: int, j: int|
        0 <= s < steps.len() && 0 <= j < steps[s].depends_on@.len() ==> dep_known(steps, s, j)
}

/// The position of the step with identifier `name`.
pub open spec fn index_of(steps: Seq<StepDef>, name: Seq<char>) -> int {
    choose|i: int| 0 <= i < steps.len() && steps[i].id@ == name
}

/// The dependency graph of a flow: for each step, the positions of the steps it names.
pub open spec fn flow_deps(steps: Seq<StepDef>) -> Seq<Seq<usize>> {
    Seq::new(
        steps.len(),
        |s: int|
            Seq::new(
                steps[s].depends_on@.len(),
                |j: int| index_of(steps, steps[s].depends_on@[j]@) as usize,
            ),
    )
}

/// The view of a list of index lists.
pub open spec fn dep_lists(v: Seq<Vec<usize>>) -> Seq<Seq<usize>> {
    v.map_values(|d: Vec<usize>| d@)
}

pub open spec fn deps_in_range(deps: Seq<Seq<usize>>) -> bool {
    forall|s: int, j: int|
        0 <= s < deps.len() && 0 <= j < deps[s].len() ==> deps[s][j] < deps.len()
}

/// Step `s` directly depends on step `d`.
pub open spec fn depends_on_index(deps: Seq<Seq<usize>>, s: int, d: int) -> bool {
    exists|j: int| 0 <= j < deps[s].len() && deps[s][j] == d
}

/// `rank` strictly decreases along every dependency edge.
pub open spec fn ranked_by(deps: Seq<Seq<usize>>, rank: Seq<nat>) -> bool {
    &&& rank.len() == deps.len()
    &&& forall|s: int, j: int|
        0 <= s < deps.len() && 0 <= j < deps[s].len() ==> #[trigger] rank[deps[s][j] as int]
            < rank[s]
}

/// No step depends, directly or transitively, on itself.
pub open spec fn acyclic(deps: Seq<Seq<usize>>) -> bool {
    exists|rank: Seq<nat>| ranked_by(deps, rank)
}

/// `p` walks dependency edges and comes back to where it started.
pub open spec fn is_cycle(deps: Seq<Seq<usize>>, p: Seq<int>) -> bool {
    &&& p.len() >= 2
    &&& p[0] == p.last()
    &&& forall|i: int| 0 <= i < p.len() ==> 0 <= #[trigger] p[i] < deps.len()
    &&& forall|i: int| 0 <= i < p.len() - 1 ==> #[trigger] depends_on_index(deps, p[i], p[i + 1])
}

/// `names` are the identifiers of the steps at the positions `p`.
pub open spec fn names_path(steps: Seq<StepDef>, p: Seq<int>, names: Seq<String>) -> bool {
    &&& names.len() == p.len()
    &&& forall|i: int| 0 <= i < p.len() ==> #[trigger] names[i]@ == steps[p[i]].id@
}

pub open spec fn reports_cycle(
    steps: Seq<StepDef>,
    deps: Seq<Seq<usize>>,
    names: Seq<String>,
) -> bool {
    exists|p: Seq<int>| is_cycle(deps, p) && simple(p) && names_path(steps, p, names)
}

/// Apart from the closing entry, no entry of `p` repeats.
pub open spec fn simple(p: Seq<int>) -> bool {
    forall|i: int, j: int| 0 <= i < j < p.len() - 1 ==> p[i] != p[j]
}

/// What `validate` returns for a flow with these steps.
pub open spec fn validation_result(steps: Seq<StepDef>, r: Result<ValidatedFlow, FlowError>) -> bool {
    match r {
        Ok(v) => {
            &&& ids_distinct(steps)
            &&& deps_known(steps)
            &&& dep_lists(v.deps@) == flow_deps(steps)
            &&& deps_in_range(flow_deps(steps))
            &&& acyclic(flow_deps(steps))
        },
        Err(FlowError::DuplicateStep { id, first, second }) => {
            &&& first < second < steps.len()
            &&& steps[first as int].id@ == id@
            &&& steps[second as int].id@ == id@
            &&& distinct_before(steps, second as int)
        },
        Err(FlowError::UnknownDependency { step, dependency }) => {
            &&& ids_distinct(steps)
            &&& exists|s: int, j: int|
                0 <= s < steps.len() && 0 <= j < steps[s].depends_on@.len() && steps[s].id@
                    == step@ && steps[s].depends_on@[j]@ == dependency@ && !dep_known(steps, s, j)
                    && (forall|s2: int, j2: int|
                    0 <= s2 < s && 0 <= j2 < steps[s2].depends_on@.len() ==> dep_known(
                        steps,
                        s2,
                        j2,
                    )) && (forall|j2: int| 0 <= j2 < j ==> dep_known(steps, s, j2))
        },
        Err(FlowError::CycleDetected { path }) => {
            &&& ids_distinct(steps)
            &&& deps_known(steps)
            &&& !acyclic(flow_deps(steps))
            &&& reports_cycle(steps, flow_deps(steps), path@)
        },
        Err(_) => false,
    }
}

// ---------------------------------------------------------------- lemmas

/// Along a walk of dependency edges the rank strictly decreases.
proof fn lemma_rank_decreases(deps: Seq<Seq<usize>>, rank: Seq<nat>, p: Seq<int>, k: int)
    requires
        ranked_by(deps, rank),
        is_cycle(deps, p),
        1 <= k < p.len(),
    ensures
        rank[p[k]] < rank[p[0]],
    decreases k,
{
    let i = k - 1;
    assert(depends_on_index(deps, p[i], p[i + 1]));
    let j = choose|j: int|
        0 <= j < deps[p[k - 1]].len() && #[trigger] deps[p[k - 1]][j] == p[k];
    assert(rank[deps[p[k - 1]][j] as int] < rank[p[k - 1]]);
    if k > 1 {
        lemma_rank_decreases(deps, rank, p, k - 1);
    }
}

/// A graph that has a cycle is not acyclic.
pub proof fn lemma_cycle_not_acyclic(deps: Seq<Seq<usize>>, p: Seq<int>)
    requires
        is_cycle(deps, p),
    ensures
        !acyclic(deps),
{
    if acyclic(deps) {
        let rank = choose|rank: Seq<nat>| ranked_by(deps, rank);
        lemma_rank_decreases(deps, rank, p, p.len() - 1);
    }
}


/// `v` is one of the nodes on `path`.
spec fn on_path(path: Seq<usize>, v: int) -> bool {
    exists|i: int| 0 <= i < path.len() && path[i] as int == v
}

/// Count of white (unvisited) marks.
spec fn white_count(c: Seq<u8>) -> nat
    decreases c.len(),
{
    if c.len() == 0 {
        0
    } else {
        white_count(c.drop_last()) + if c.last() == 0 {
            1nat
        } else {
            0nat
        }
    }
}

/// Marking nodes visited never adds white ones.
proof fn lemma_white_count_mono(a: Seq<u8>, b: Seq<u8>)
    requires
        a.len() == b.len(),
        forall|i: int| 0 <= i < a.len() && a[i] != 0 ==> b[i] != 0,
    ensures
        white_count(b) <= white_count(a),
    decreases a.len(),
{
    if a.len() > 0 {
        lemma_white_count_mono(a.drop_last(), b.drop_last());
    }
}

/// Marking a white node visited removes one white node.
proof fn lemma_white_count_strict(a: Seq<u8>, b: Seq<u8>, w: int)
    requires
        a.len() == b.len(),
        forall|i: int| 0 <= i < a.len() && a[i] != 0 ==> b[i] != 0,
        0 <= w < a.len(),
        a[w] == 0,
        b[w] != 0,
    ensures
        white_count(b) < white_count(a),
    decreases a.len(),
{
    if w == a.len() - 1 {
        lemma_white_count_mono(a.drop_last(), b.drop_last());
    } else {
        lemma_white_count_strict(a.drop_last(), b.drop_last(), w);
    }
}

/// Every entry of `adj[d]` is a step that depends on `d`.
spec fn adj_sound(deps: Seq<Seq<usize>>, adj: Seq<Seq<usize>>) -> bool {
    &&& adj.len() == deps.len()
    &&& forall|d: int, k: int|
        0 <= d < adj.len() && 0 <= k < adj[d].len() ==> adj[d][k] < deps.len()
            && depends_on_index(deps, adj[d][k] as int, d)
}

/// The `j`-th dependency edge of step `s` is listed in the adjacency of its target.
spec fn edge_listed(deps: Seq<Seq<usize>>, adj: Seq<Seq<usize>>, s: int, j: int) -> bool {
    exists|k: int|
        0 <= k < adj[deps[s][j] as int].len() && adj[deps[s][j] as int][k] == s
}

/// The state of the depth-first traversal: white 0, gray 1, black 2; the gray
/// nodes are those on `path`, which follows edges; black nodes only reach black
/// nodes that finished earlier.
spec fn dfs_inv(
    adj: Seq<Seq<usize>>,
    color: Seq<u8>,
    path: Seq<usize>,
    fin: Seq<nat>,
    cnt: nat,
) -> bool {
    let n = adj.len();
    &&& color.len() == n
    &&& fin.len() == n
    &&& forall|d: int, k: int| 0 <= d < n && 0 <= k < adj[d].len() ==> adj[d][k] < n
    &&& forall|i: int| 0 <= i < path.len() ==> path[i] < n
    &&& forall|v: int| 0 <= v < n ==> (#[trigger] color[v] == 1 <==> on_path(path, v))
    &&& forall|i: int|
        0 <= i < path.len() - 1 ==> adj[#[trigger] path[i] as int].contains(path[i + 1])
    &&& forall|b: int, k: int|
        0 <= b < n && color[b] == 2 && 0 <= k < adj[b].len() ==> color[adj[b][k] as int] == 2
            && fin[adj[b][k] as int] < fin[b]
    &&& forall|b: int| 0 <= b < n && color[b] == 2 ==> fin[b] < cnt
    &&& forall|b: int| 0 <= b < n ==> color[b] <= 2
    &&& forall|i: int, j: int| 0 <= i < j < path.len() ==> path[i] != path[j]
}

/// `b` can be reached from `a` along adjacency edges (in zero or more steps).
spec fn adj_reaches(adj: Seq<Seq<usize>>, a: int, b: int) -> bool {
    exists|q: Seq<int>|
        {
            &&& q.len() >= 1
            &&& q[0] == a
            &&& q.last() == b
            &&& forall|i: int| 0 <= i < q.len() - 1 ==> adj[#[trigger] q[i]].contains(q[i + 1] as usize)
        }
}

proof fn lemma_reaches_self(adj: Seq<Seq<usize>>, a: int)
    ensures
        adj_reaches(adj, a, a),
{
    let q = seq![a];
    assert(q.last() == a);
}

/// An edge followed by a walk is a walk.
proof fn lemma_reaches_prepend(adj: Seq<Seq<usize>>, a: int, b: int, c: int)
    requires
        adj[a].contains(b as usize),
        0 <= b,
        adj_reaches(adj, b, c),
    ensures
        adj_reaches(adj, a, c),
{
    let q = choose|q: Seq<int>|
        {
            &&& q.len() >= 1
            &&& q[0] == b
            &&& q.last() == c
            &&& forall|i: int| 0 <= i < q.len() - 1 ==> adj[#[trigger] q[i]].contains(q[i + 1] as usize)
        };
    let q2 = seq![a] + q;
    assert forall|i: int| 0 <= i < q2.len() - 1 implies adj[#[trigger] q2[i]].contains(q2[i + 1] as usize) by {
        if i == 0 {
            assert(q2[1] == b);
        } else {
            assert(q2[i] == q[i - 1]);
            assert(q2[i + 1] == q[i]);
        }
    }
    assert(q2.last() == c);
}

/// `names`, read backwards, walk adjacency edges from a node back to itself.
spec fn reports_adj_cycle(steps: Seq<StepDef>, adj: Seq<Seq<usize>>, names: Seq<String>) -> bool {
    exists|q: Seq<int>|
        {
            &&& q.len() >= 2
            &&& q[0] == q.last()
            &&& (forall|i: int| 0 <= i < q.len() ==> 0 <= #[trigger] q[i] < adj.len())
            &&& (forall|i: int|
                0 <= i < q.len() - 1 ==> adj[#[trigger] q[i]].contains(q[i + 1] as usize))
            &&& simple(q)
            &&& names.len() == q.len()
            &&& forall|t: int|
                0 <= t < q.len() ==> #[trigger] names[t]@ == steps[q[q.len() - 1 - t]].id@
        }
}

// ---------------------------------------------------------------- validation

/// The position of the step with identifier `name`, if any.
fn lookup(steps: &Vec<StepDef>, name: &String) -> (r: Option<usize>)
    ensures
        match r {
            Some(i) => i < steps@.len() && steps@[i as int].id@ == name@,
            None => !names_step(steps@, name@),
        },
{
    let mut i: usize = 0;
    while i < steps.len()
        invariant
            0 <= i <= steps@.len(),
            forall|k: int| 0 <= k < i ==> steps@[k].id@ != name@,
        decreases steps@.len() - i,
    {
        if steps[i].id == *name {
            return Some(i);
        }
        i = i + 1;
    }
    None
}

/// Validates a flow: step identifiers are unique, every dependency names a
/// step, and the dependencies form no cycle. On success the dependencies are
/// resolved to step positions.
pub fn validate(flow: &FlowDef) -> (r: Result<ValidatedFlow, FlowError>)
    ensures
        validation_result(flow.steps@, r),
{
    let steps = &flow.steps;
    let n = steps.len();
    let mut i: usize = 0;
    while i < n
        invariant
            steps@ == flow.steps@,
            n == steps@.len(),
            0 <= i <= n,
            distinct_before(steps@, i as int),
        decreases n - i,
    {
        let mut k: usize = 0;
        while k < i
            invariant
                steps@ == flow.steps@,
                n == steps@.len(),
                0 <= k <= i < n,
                distinct_before(steps@, i as int),
                forall|a: int| 0 <= a < k ==> steps@[a].id@ != steps@[i as int].id@,
            decreases i - k,
        {
            if steps[k].id == steps[i].id {
                return Err(FlowError::DuplicateStep { id: steps[i].id.clone(), first: k, second: i });
            }
            k = k + 1;
        }
        i = i + 1;
    }
    let ghost fd = flow_deps(steps@);
    let mut deps: Vec<Vec<usize>> = Vec::new();
    let mut s: usize = 0;
    while s < n
        invariant
            steps@ == flow.steps@,
            n == steps@.len(),
            fd == flow_deps(steps@),
            ids_distinct(steps@),
            0 <= s <= n,
            deps@.len() == s,
            forall|s2: int| 0 <= s2 < s ==> deps@[s2]@ == fd[s2],
            forall|s2: int, j2: int|
                0 <= s2 < s && 0 <= j2 < steps@[s2].depends_on@.len() ==> dep_known(
                    steps@,
                    s2,
                    j2,
                ),
        decreases n - s,
    {
        let mut sd: Vec<usize> = Vec::new();
        let mut j: usize = 0;
        while j < steps[s].depends_on.len()
            invariant
                steps@ == flow.steps@,
                n == steps@.len(),
                fd == flow_deps(steps@),
                ids_distinct(steps@),
                0 <= s < n,
                0 <= j <= steps@[s as int].depends_on@.len(),
                sd@ == fd[s as int].take(j as int),
                forall|s2: int, j2: int|
                    0 <= s2 < s && 0 <= j2 < steps@[s2].depends_on@.len() ==> dep_known(
                        steps@,
                        s2,
                        j2,
                    ),
                forall|j2: int| 0 <= j2 < j ==> dep_known(steps@, s as int, j2),
            decreases steps@[s as int].depends_on@.len() - j,
        {
            match lookup(steps, &steps[s].depends_on[j]) {
                Some(idx) => {
                    proof {
                        let name = steps@[s as int].depends_on@[j as int]@;
                        let c = index_of(steps@, name);
                        assert(steps@[idx as int].id@ == name);
                        assert(0 <= c < steps@.len() && steps@[c].id@ == name);
                        assert(c == idx);
                    }
                    sd.push(idx);
                    assert(sd@ =~= fd[s as int].take(j + 1));
                },
                None => {
                    assert(!dep_known(steps@, s as int, j as int));
                    return Err(
                        FlowError::UnknownDependency {
                            step: steps[s].id.clone(),
                            dependency: steps[s].depends_on[j].clone(),
                        },
                    );
                },
            }
            j = j + 1;
        }
        assert(sd@ =~= fd[s as int]);
        deps.push(sd);
        s = s + 1;
    }
    assert(dep_lists(deps@) =~= fd);
    proof {
        assert forall|s2: int, j2: int|
            0 <= s2 < fd.len() && 0 <= j2 < fd[s2].len() implies fd[s2][j2] < fd.len() by {
            let name = steps@[s2].depends_on@[j2]@;
            assert(dep_known(steps@, s2, j2));
            let c = index_of(steps@, name);
            assert(0 <= c < steps@.len());
        }
    }
    match detect_cycle(steps, &deps) {
        Ok(()) => Ok(ValidatedFlow { deps }),
        Err(e) => {
            proof {
                if let FlowError::CycleDetected { ref path } = e {
                    let p = choose|p: Seq<int>| is_cycle(fd, p) && names_path(steps@, p, path@);
                    lemma_cycle_not_acyclic(fd, p);
                }
            }
            Err(e)
        },
    }
}

/// Rejects a dependency graph that has a cycle, reporting one.
fn detect_cycle(steps: &Vec<StepDef>, deps: &Vec<Vec<usize>>) -> (r: Result<(), FlowError>)
    requires
        deps@.len() == steps@.len(),
        deps_in_range(dep_lists(deps@)),
    ensures
        match r {
            Ok(()) => acyclic(dep_lists(deps@)),
            Err(FlowError::CycleDetected { path }) => reports_cycle(
                steps@,
                dep_lists(deps@),
                path@,
            ),
            Err(_) => false,
        },
{
    let ghost dl = dep_lists(deps@);
    let n = steps.len();
    // adj[d]: the steps that depend on d
    let mut adj: Vec<Vec<usize>> = Vec::new();
    let mut d: usize = 0;
    while d < n
        invariant
            0 <= d <= n,
            adj@.len() == d,
            forall|x: int| 0 <= x < d ==> adj@[x]@.len() == 0,
        decreases n - d,
    {
        adj.push(Vec::new());
        d = d + 1;
    }
    let mut s: usize = 0;
    while s < n
        invariant
            n == deps@.len(),
            dl == dep_lists(deps@),
            deps_in_range(dl),
            0 <= s <= n,
            adj_sound(dl, dep_lists(adj@)),
            forall|s2: int, j2: int|
                0 <= s2 < s && 0 <= j2 < dl[s2].len() ==> edge_listed(dl, dep_lists(adj@), s2, j2),
        decreases n - s,
    {
        let mut j: usize = 0;
        while j < deps[s].len()
            invariant
                n == deps@.len(),
                dl == dep_lists(deps@),
                deps_in_range(dl),
                0 <= s < n,
                0 <= j <= dl[s as int].len(),
                adj_sound(dl, dep_lists(adj@)),
                forall|s2: int, j2: int|
                    0 <= s2 < s && 0 <= j2 < dl[s2].len() ==> edge_listed(
                        dl,
                        dep_lists(adj@),
                        s2,
                        j2,
                    ),
                forall|j2: int| 0 <= j2 < j ==> edge_listed(dl, dep_lists(adj@), s as int, j2),
            decreases dl[s as int].len() - j,
        {
            let t = deps[s][j];
            assert(dl[s as int][j as int] == t);
            let ghost before = dep_lists(adj@);
            adj[t].push(s);
            proof {
                let after = dep_lists(adj@);
                assert(after[t as int] == before[t as int].push(s));
                assert forall|x: int| 0 <= x < n && x != t implies after[x] == before[x] by {}
                assert forall|s2: int, j2: int|
                    0 <= s2 < s && 0 <= j2 < dl[s2].len() implies edge_listed(
                        dl,
                        after,
                        s2,
                        j2,
                    ) by {
                    assert(edge_listed(dl, before, s2, j2));
                    let k = choose|k: int|
                        0 <= k < before[dl[s2][j2] as int].len() && #[trigger] before[dl[s2][j2] as int][k]
                            == s2;
                    assert(after[dl[s2][j2] as int][k] == s2);
                }
                assert forall|j2: int| 0 <= j2 < j + 1 implies edge_listed(
                    dl,
                    after,
                    s as int,
                    j2,
                ) by {
                    if j2 < j {
                        assert(edge_listed(dl, before, s as int, j2));
                        let k = choose|k: int|
                            0 <= k < before[dl[s as int][j2] as int].len()
                                && #[trigger] before[dl[s as int][j2] as int][k] == s;
                        assert(after[dl[s as int][j2] as int][k] == s);
                    } else {
                        assert(after[t as int][before[t as int].len() as int] == s);
                    }
                }
                assert forall|x: int, k: int|
                    0 <= x < after.len() && 0 <= k < after[x].len() implies after[x][k] < dl.len()
                        && depends_on_index(dl, after[x][k] as int, x) by {
                    if x == t && k == before[x].len() {
                        assert(dl[s as int][j as int] == x);
                    } else {
                        assert(after[x][k] == before[x][k]);
                    }
                }
            }
            j = j + 1;
        }
        s = s + 1;
    }
    let ghost al = dep_lists(adj@);
    let mut color: Vec<u8> = Vec::new();
    let mut c: usize = 0;
    while c < n
        invariant
            0 <= c <= n,
            color@.len() == c,
            forall|x: int| 0 <= x < c ==> color@[x] == 0,
        decreases n - c,
    {
        color.push(0);
        c = c + 1;
    }
    let mut path: Vec<usize> = Vec::new();
    let mut fin: Ghost<Seq<nat>> = Ghost(Seq::new(n as nat, |x: int| 0nat));
    let mut cnt: Ghost<nat> = Ghost(0nat);
    assert(dfs_inv(al, color@, path@, fin@, cnt@));
    let mut start: usize = 0;
    while start < n
        invariant
            n == deps@.len(),
            al == dep_lists(adj@),
            adj_sound(dl, al),
            0 <= start <= n,
            dfs_inv(al, color@, path@, fin@, cnt@),
            path@.len() == 0,
            al.len() == n,
            dl.len() == n,
            dl == dep_lists(deps@),
            steps@.len() == n,
            forall|x: int| 0 <= x < start ==> color@[x] != 0,
        decreases n - start,
    {
        if color[start] == 0 {
            match dfs_visit(start, &adj, &mut color, &mut path, steps, &mut fin, &mut cnt) {
                Ok(()) => {},
                Err(e) => {
                    proof {
                        if let FlowError::CycleDetected { path: ref names } = e {
                            let q = choose|q: Seq<int>|
                                {
                                    &&& q.len() >= 2
                                    &&& q[0] == q.last()
                                    &&& (forall|i: int| 0 <= i < q.len() ==> 0 <= #[trigger] q[i] < al.len())
                                    &&& (forall|i: int|
                                        0 <= i < q.len() - 1 ==> al[#[trigger] q[i]].contains(
                                            q[i + 1] as usize,
                                        ))
                                    &&& simple(q)
                                    &&& names@.len() == q.len()
                                    &&& forall|t: int|
                                        0 <= t < q.len() ==> #[trigger] names@[t]@ == steps@[q[q.len() - 1 - t]].id@
                                };
                            let p = q.reverse();
                            assert forall|i: int| 0 <= i < p.len() - 1 implies #[trigger] depends_on_index(dl, p[i], p[i + 1]) by {
                                let m = q.len() - 1;
                                assert(p[i] == q[m - i]);
                                assert(p[i + 1] == q[m - i - 1]);
                                assert(al[q[m - i - 1]].contains(q[m - i] as usize));
                                let k = choose|k: int| 0 <= k < al[q[m - i - 1]].len() && #[trigger] al[q[m - i - 1]][k] == q[m - i] as usize;
                                assert(depends_on_index(dl, al[q[m - i - 1]][k] as int, q[m - i - 1]));
                            }
                            assert(is_cycle(dl, p));
                            assert forall|i: int, j: int| 0 <= i < j < p.len() - 1 implies p[i] != p[j] by {
                                let m = q.len() - 1;
                                assert(p[i] == q[m - i]);
                                assert(p[j] == q[m - j]);
                                if i == 0 {
                                    assert(q[m] == q[0]);
                                }
                            }
                            assert(simple(p));
                            assert(names_path(steps@, p, names@));
                        }
                    }
                    return Err(e);
                },
            }
        }
        start = start + 1;
    }
    proof {
        let rank = Seq::new(n as nat, |x: int| (cnt@ - fin@[x]) as nat);
        assert forall|x: int| 0 <= x < n implies color@[x] == 2 by {
            if color@[x] == 1 {
                assert(on_path(path@, x));
            }
        }
        assert forall|s2: int, j2: int|
            0 <= s2 < dl.len() && 0 <= j2 < dl[s2].len() implies #[trigger] rank[dl[s2][j2] as int] < rank[s2] by {
            let t = dl[s2][j2] as int;
            assert(edge_listed(dl, al, s2, j2));
            let k = choose|k: int| 0 <= k < al[t].len() && #[trigger] al[t][k] == s2;
            assert(0 <= t < n);
            assert(color@[t] == 2);
            assert(fin@[al[t][k] as int] < fin@[t]);
            assert(fin@[s2] < fin@[t]);
            assert(fin@[t] < cnt@);
        }
        assert(ranked_by(dl, rank));
    }
    Ok(())
}

/// The identifiers of the cycle closed by the edge from the end of `path` to
/// `next`, which lies on `path`, listed in dependency order.
fn cycle_names(
    path: &Vec<usize>,
    next: usize,
    steps: &Vec<StepDef>,
    al: Ghost<Seq<Seq<usize>>>,
) -> (names: Vec<String>)
    requires
        path@.len() > 0,
        al@.len() == steps@.len(),
        next < steps@.len(),
        forall|i: int| 0 <= i < path@.len() ==> path@[i] < steps@.len(),
        forall|i: int|
            0 <= i < path@.len() - 1 ==> al@[#[trigger] path@[i] as int].contains(path@[i + 1]),
        al@[path@.last() as int].contains(next),
        on_path(path@, next as int),
        forall|i: int, j: int| 0 <= i < j < path@.len() ==> path@[i] != path@[j],
    ensures
        reports_adj_cycle(steps@, al@, names@),
{
    let mut ps: usize = 0;
    while ps < path.len() && path[ps] != next
        invariant
            0 <= ps <= path@.len(),
            forall|i: int| 0 <= i < ps ==> path@[i] != next,
        decreases path@.len() - ps,
    {
        ps = ps + 1;
    }
    proof {
        if ps == path@.len() {
            let i = choose|i: int| 0 <= i < path@.len() && #[trigger] path@[i] as int == next as int;
            assert(false);
        }
    }
    let ghost q: Seq<int> = path@.subrange(ps as int, path@.len() as int).push(next).map_values(
        |x: usize| x as int,
    );
    let ghost m = q.len() - 1;
    let mut names: Vec<String> = Vec::new();
    names.push(steps[next].id.clone());
    let mut i: usize = path.len();
    while i > ps
        invariant
            ps < path@.len(),
            ps <= i <= path@.len(),
            forall|x: int| 0 <= x < path@.len() ==> path@[x] < steps@.len(),
            q == path@.subrange(ps as int, path@.len() as int).push(next).map_values(
                |x: usize| x as int,
            ),
            m == q.len() - 1,
            names@.len() == 1 + path@.len() - i,
            forall|t: int| 0 <= t < names@.len() ==> #[trigger] names@[t]@ == steps@[q[m - t]].id@,
        decreases i - ps,
    {
        i = i - 1;
        assert(q[m - (names@.len() as int)] == path@[i as int] as int);
        names.push(steps[path[i]].id.clone());
    }
    proof {
        assert(path@[ps as int] == next);
        assert forall|x: int| 0 <= x < q.len() implies 0 <= #[trigger] q[x] < al@.len() by {
            if x < m {
                assert(q[x] == path@[ps + x] as int);
            }
        }
        assert forall|x: int| 0 <= x < q.len() - 1 implies al@[#[trigger] q[x]].contains(
            q[x + 1] as usize,
        ) by {
            if x < m - 1 {
                assert(q[x] == path@[ps + x] as int);
                assert(q[x + 1] == path@[ps + x + 1] as int);
            } else {
                assert(q[x] == path@.last() as int);
                assert(q[x + 1] == next as int);
            }
        }
        assert forall|x: int, y: int| 0 <= x < y < q.len() - 1 implies q[x] != q[y] by {
            assert(q[x] == path@[ps + x] as int);
            assert(q[y] == path@[ps + y] as int);
        }
    }
    names
}

/// Depth-first visit from a white node over the "depended upon by" edges.
#[verifier::spinoff_prover]
#[verifier::rlimit(100)]
fn dfs_visit(
    node: usize,
    adj: &Vec<Vec<usize>>,
    color: &mut Vec<u8>,
    path: &mut Vec<usize>,
    steps: &Vec<StepDef>,
    fin: &mut Ghost<Seq<nat>>,
    cnt: &mut Ghost<nat>,
) -> (r: Result<(), FlowError>)
    requires
        node < adj@.len(),
        steps@.len() == adj@.len(),
        dfs_inv(dep_lists(adj@), old(color)@, old(path)@, old(fin)@, old(cnt)@),
        old(color)@[node as int] == 0,
        old(path)@.len() > 0 ==> adj@[old(path)@.last() as int]@.contains(node),
    ensures
        match r {
            Ok(()) => {
                &&& dfs_inv(dep_lists(adj@), final(color)@, final(path)@, final(fin)@, final(cnt)@)
                &&& final(path)@ == old(path)@
                &&& final(color)@[node as int] == 2
                &&& forall|v: int| 0 <= v < adj@.len() && old(color)@[v] == 2 ==> final(color)@[v] == 2
                &&& forall|v: int| 0 <= v < adj@.len() && old(color)@[v] != 0 ==> final(color)@[v] != 0
                &&& white_count(final(color)@) < white_count(old(color)@)
                &&& forall|v: int|
                    0 <= v < adj@.len() && #[trigger] final(color)@[v] != old(color)@[v] ==> old(
                        color,
                    )@[v] == 0 && final(color)@[v] == 2 && (v == node || adj_reaches(
                        dep_lists(adj@),
                        node as int,
                        v,
                    ))
            },
            Err(FlowError::CycleDetected { path: names }) => reports_adj_cycle(steps@, dep_lists(adj@), names@),
            Err(_) => false,
        },
    decreases white_count(old(color)@),
{
    let ghost al = dep_lists(adj@);
    let ghost c0 = color@;
    let ghost outer = path@;
    color.set(node, 1);
    path.push(node);
    proof {
        lemma_white_count_strict(c0, color@, node as int);
        assert(!on_path(outer, node as int));
        assert forall|v: int| 0 <= v < al.len() implies (#[trigger] color@[v] == 1 <==> on_path(path@, v)) by {
            if v != node {
                if on_path(outer, v) {
                    let i = choose|i: int| 0 <= i < outer.len() && #[trigger] outer[i] as int == v;
                    assert(path@[i] == v as usize);
                }
                if on_path(path@, v) {
                    let i = choose|i: int| 0 <= i < path@.len() && #[trigger] path@[i] as int == v;
                    assert(path@[outer.len() as int] == node);
                    assert(i < outer.len());
                    assert(outer[i] == v as usize);
                }
            } else {
                assert(path@[outer.len() as int] == node);
            }
        }
        assert forall|i: int, j: int| 0 <= i < j < path@.len() implies path@[i] != path@[j] by {
            if j == outer.len() {
                assert(path@[j] == node);
                assert(path@[i] == outer[i]);
                if outer[i] == node {
                    assert(on_path(outer, node as int));
                }
            } else {
                assert(path@[i] == outer[i] && path@[j] == outer[j]);
            }
        }
        assert forall|v: int| 0 <= v < adj@.len() && #[trigger] color@[v] != c0[v] implies v == node
            || adj_reaches(al, node as int, v) by {}
        assert forall|i: int| 0 <= i < path@.len() - 1 implies al[#[trigger] path@[i] as int].contains(path@[i + 1]) by {
            if i < outer.len() - 1 {
                assert(path@[i] == outer[i] && path@[i + 1] == outer[i + 1]);
            } else {
                assert(path@[i] == outer.last());
            }
        }
    }
    let mut k: usize = 0;
    while k < adj[node].len()
        invariant
            al == dep_lists(adj@),
            steps@.len() == adj@.len(),
            node < adj@.len(),
            dfs_inv(al, color@, path@, fin@, cnt@),
            path@ == outer.push(node),
            !on_path(outer, node as int),
            color@[node as int] == 1,
            c0[node as int] == 0,
            0 <= k <= al[node as int].len(),
            forall|i: int| 0 <= i < k ==> color@[al[node as int][i] as int] == 2,
            forall|v: int| 0 <= v < adj@.len() && c0[v] == 2 ==> color@[v] == 2,
            forall|v: int| 0 <= v < adj@.len() && c0[v] != 0 ==> color@[v] != 0,
            white_count(color@) < white_count(c0),
            forall|v: int|
                0 <= v < adj@.len() && #[trigger] color@[v] != c0[v] ==> v == node || adj_reaches(
                    al,
                    node as int,
                    v,
                ),
            c0.len() == adj@.len(),
            c0 == old(color)@,
        decreases al[node as int].len() - k,
    {
        let next = adj[node][k];
        assert(al[node as int][k as int] == next);
        if color[next] == 1 {
            proof {
                assert(on_path(path@, next as int));
                assert(path@.last() == node);
                assert(al[node as int].contains(next));
            }
            let names = cycle_names(path, next, steps, Ghost(al));
            return Err(FlowError::CycleDetected { path: names });
        }
        if color[next] == 0 {
            proof {
                assert(al[node as int] == adj@[node as int]@);
                assert(al[node as int].contains(next));
                assert(path@.last() == node);
                assert(adj@[path@.last() as int]@.contains(next));
            }
            let ghost c1 = color@;
            match dfs_visit(next, adj, color, path, steps, fin, cnt) {
                Ok(()) => {
                    proof {
                        assert forall|i: int| 0 <= i < k implies color@[al[node as int][i] as int] == 2 by {
                            assert(c1[al[node as int][i] as int] == 2);
                        }
                        assert forall|v: int| 0 <= v < adj@.len() && c0[v] == 2 implies color@[v] == 2 by {
                            assert(c1[v] == 2);
                        }
                        assert forall|v: int| 0 <= v < adj@.len() && c0[v] != 0 implies color@[v] != 0 by {
                            assert(c1[v] != 0);
                        }
                        assert forall|v: int| 0 <= v < adj@.len() && #[trigger] color@[v] != c0[v] implies v
                            == node || adj_reaches(al, node as int, v) by {
                            if color@[v] != c1[v] {
                                if v == next {
                                    lemma_reaches_self(al, v);
                                }
                                assert(adj_reaches(al, next as int, v));
                                lemma_reaches_prepend(al, node as int, next as int, v);
                            } else {
                                assert(c1[v] != c0[v]);
                            }
                        }
                    }
                },
                Err(e) => {
                    return Err(e);
                },
            }
        }
        k = k + 1;
    }
    let ghost c2 = color@;
    path.pop();
    assert(path@ =~= outer);
    proof {
        fin@ = fin@.update(node as int, cnt@);
        cnt@ = cnt@ + 1;
    }
    color.set(node, 2);
    proof {
        lemma_white_count_mono(c2, color@);
        assert forall|v: int| 0 <= v < al.len() implies (#[trigger] color@[v] == 1 <==> on_path(path@, v)) by {
            if v != node {
                assert(c2[v] == 1 <==> on_path(outer.push(node), v));
                if on_path(outer.push(node), v) {
                    let i = choose|i: int| 0 <= i < outer.len() + 1 && #[trigger] outer.push(node)[i] as int == v;
                    assert(outer.push(node)[outer.len() as int] == node);
                    assert(i < outer.len());
                }
                if on_path(outer, v) {
                    let i = choose|i: int| 0 <= i < outer.len() && #[trigger] outer[i] as int == v;
                    assert(outer.push(node)[i] == v as usize);
                }
            }
        }
        assert forall|v: int| 0 <= v < adj@.len() && #[trigger] color@[v] != c0[v] implies c0[v] == 0
            && color@[v] == 2 && (v == node || adj_reaches(al, node as int, v)) by {
            if v != node {
                assert(c2[v] != c0[v]);
                assert(c0[v] != 2);
                if c0[v] == 1 {
                    assert(on_path(outer, v));
                    assert(color@[v] == 1);
                }
                if color@[v] == 1 {
                    assert(on_path(outer, v));
                }
            }
        }
    }
    Ok(())
}

} // verus!
