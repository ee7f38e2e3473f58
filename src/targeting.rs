use vstd::prelude::*;

use crate::config::{find_key, key_index};
use crate::strings::{
    clone_strings, is_tag, keys_sorted, lemma_name_lt_irreflexive, name_lt, string_views, strip_tag,
};
use crate::registry::{has_tag, Node, NodeRegistry};

verus! {

/// The nodes a command acts on, each with its name.
pub struct ResolvedTargets {
    pub nodes: Vec<(String, Node)>,
}

/// Why targets could not be resolved.
#[derive(Clone, Debug)]
pub enum TargetError {
    /// No target was given and not all nodes were asked for.
    NoTargets,
    /// A target names no node.
    UnknownNode { name: String },
    /// The targets matched no node.
    NoMatch,
}

/// What a node holds, as plain values.
pub open spec fn node_view(n: Node) -> (Seq<char>, Seq<char>, Seq<char>, Seq<Seq<char>>) {
    (n.system@, n.hostname@, n.ssh_user@, string_views(n.tags@))
}

/// The names of a list of named nodes.
pub open spec fn entry_names(v: Seq<(String, Node)>) -> Seq<Seq<char>> {
    v.map_values(|e: (String, Node)| e.0@)
}

/// The names of the nodes of `reg` tagged `tag`, in registry order.
pub open spec fn tagged(reg: Seq<(String, Node)>, tag: Seq<char>) -> Seq<Seq<char>>
    decreases reg.len(),
{
    if reg.len() == 0 {
        Seq::empty()
    } else {
        tagged(reg.drop_last(), tag) + if string_views(reg.last().1.tags@).contains(tag) {
            seq![reg.last().0@]
        } else {
            Seq::empty()
        }
    }
}

/// `sel` extended by each of `names` not yet in it, in order.
pub open spec fn add_new(sel: Seq<Seq<char>>, names: Seq<Seq<char>>) -> Seq<Seq<char>>
    decreases names.len(),
{
    if names.len() == 0 {
        sel
    } else {
        let s = add_new(sel, names.drop_last());
        if s.contains(names.last()) {
            s
        } else {
            s.push(names.last())
        }
    }
}

/// The node names one target stands for.
pub open spec fn target_names(reg: Seq<(String, Node)>, t: Seq<char>) -> Seq<Seq<char>> {
    if is_tag(t) {
        tagged(reg, t.drop_first())
    } else {
        seq![t]
    }
}

/// The node names the targets select, first mention first, each once.
pub open spec fn selection(reg: Seq<(String, Node)>, targets: Seq<Seq<char>>) -> Seq<Seq<char>>
    decreases targets.len(),
{
    if targets.len() == 0 {
        Seq::empty()
    } else {
        add_new(selection(reg, targets.drop_last()), target_names(reg, targets.last()))
    }
}

/// Target `t` is a plain name that no node has.
pub open spec fn unknown_name(reg: Seq<(String, Node)>, t: Seq<char>) -> bool {
    !is_tag(t) && key_index(reg, t) is None
}

/// No two nodes share a name.
pub open spec fn names_distinct(reg: Seq<(String, Node)>) -> bool {
    forall|i: int, j: int| 0 <= i < j < reg.len() ==> reg[i].0@ != reg[j].0@
}

/// Each entry of `v` is the registry's node of that name.
pub open spec fn from_registry(reg: Seq<(String, Node)>, v: Seq<(String, Node)>) -> bool {
    forall|i: int|
        0 <= i < v.len() ==> (#[trigger] key_index(reg, v[i].0@) matches Some(j) && node_view(
            v[i].1,
        ) == node_view(reg[j].1))
}

/// A copy of a node.
fn copy_node(n: &Node) -> (r: Node)
    ensures
        node_view(r) == node_view(*n),
{
    Node {
        system: n.system.clone(),
        hostname: n.hostname.clone(),
        ssh_user: n.ssh_user.clone(),
        tags: clone_strings(&n.tags),
    }
}

/// Whether a node of `v` is called `name`.
fn has_name(v: &Vec<(String, Node)>, name: &String) -> (r: bool)
    ensures
        r == entry_names(v@).contains(name@),
{
    let mut i: usize = 0;
    while i < v.len()
        invariant
            0 <= i <= v@.len(),
            forall|j: int| 0 <= j < i ==> v@[j].0@ != name@,
        decreases v@.len() - i,
    {
        if v[i].0 == *name {
            assert(entry_names(v@)[i as int] == name@);
            return true;
        }
        i = i + 1;
    }
    proof {
        if entry_names(v@).contains(name@) {
            let j = choose|j: int| 0 <= j < v@.len() && entry_names(v@)[j] == name@;
            assert(v@[j].0@ == name@);
        }
    }
    false
}

impl ResolvedTargets {
    /// Exactly one node was resolved.
    pub fn is_single(&self) -> (r: bool)
        ensures
            r == (self.nodes@.len() == 1),
    {
        self.nodes.len() == 1
    }

    /// The resolved nodes' names, in order.
    pub fn names(&self) -> (r: Vec<&str>)
        ensures
            r@.len() == self.nodes@.len(),
            forall|i: int| 0 <= i < r@.len() ==> #[trigger] r@[i]@ == self.nodes@[i].0@,
    {
        let mut r: Vec<&str> = Vec::new();
        let mut i: usize = 0;
        while i < self.nodes.len()
            invariant
                0 <= i <= self.nodes@.len(),
                r@.len() == i,
                forall|j: int| 0 <= j < i ==> #[trigger] r@[j]@ == self.nodes@[j].0@,
            decreases self.nodes@.len() - i,
        {
            r.push(self.nodes[i].0.as_str());
            i = i + 1;
        }
        r
    }
}

/// In a registry without repeated names, a node's name finds that node.
proof fn lemma_key_index_distinct(reg: Seq<(String, Node)>, j: int)
    requires
        names_distinct(reg),
        0 <= j < reg.len(),
    ensures
        key_index(reg, reg[j].0@) == Some(j),
{
    let key = reg[j].0@;
    assert(0 <= j < reg.len() && reg[j].0@ == key);
    let c = choose|c: int|
        0 <= c < reg.len() && reg[c].0@ == key && forall|x: int| 0 <= x < c ==> reg[x].0@ != key;
    assert(0 <= j < reg.len() && reg[j].0@ == key && forall|x: int| 0 <= x < j ==> reg[x].0@ != key);
    if c != j {
        assert(reg[c].0@ == reg[j].0@);
    }
}

/// What `resolve` returns for explicit targets.
pub open spec fn resolution(
    reg: Seq<(String, Node)>,
    ts: Seq<Seq<char>>,
    r: Result<ResolvedTargets, TargetError>,
) -> bool {
    match r {
        Err(TargetError::UnknownNode { name }) => exists|i: int|
            0 <= i < ts.len() && #[trigger] unknown_name(reg, ts[i]) && name@ == ts[i] && forall|j: int|
                0 <= j < i ==> !unknown_name(reg, ts[j]),
        Err(TargetError::NoMatch) => {
            &&& forall|i: int| 0 <= i < ts.len() ==> !#[trigger] unknown_name(reg, ts[i])
            &&& selection(reg, ts).len() == 0
        },
        Ok(rt) => {
            &&& forall|i: int| 0 <= i < ts.len() ==> !#[trigger] unknown_name(reg, ts[i])
            &&& entry_names(rt.nodes@) == selection(reg, ts)
            &&& selection(reg, ts).len() > 0
            &&& from_registry(reg, rt.nodes@)
        },
        Err(TargetError::NoTargets) => false,
    }
}

/// A registry in ascending name order has no repeated name.
proof fn lemma_sorted_distinct(reg: Seq<(String, Node)>)
    requires
        keys_sorted(reg),
    ensures
        names_distinct(reg),
{
    assert forall|i: int, j: int| 0 <= i < j < reg.len() implies reg[i].0@ != reg[j].0@ by {
        assert(name_lt(reg[i].0@, reg[j].0@));
        lemma_name_lt_irreflexive(reg[i].0@);
    }
}

/// Every name `tagged` yields is the name of some node of `reg`.
pub open spec fn named_in(reg: Seq<(String, Node)>, x: Seq<char>) -> bool {
    exists|k: int| 0 <= k < reg.len() && reg[k].0@ == x
}

/// In a registry in ascending name order, the nodes with a tag come in
/// ascending name order too.
pub proof fn lemma_tagged_sorted(reg: Seq<(String, Node)>, tag: Seq<char>)
    requires
        keys_sorted(reg),
    ensures
        forall|x: int| 0 <= x < tagged(reg, tag).len() ==> #[trigger] named_in(reg, tagged(reg, tag)[x]),
        forall|x: int, y: int|
            0 <= x < y < tagged(reg, tag).len() ==> name_lt(
                #[trigger] tagged(reg, tag)[x],
                #[trigger] tagged(reg, tag)[y],
            ),
    decreases reg.len(),
{
    if reg.len() > 0 {
        let d = reg.drop_last();
        assert(keys_sorted(d)) by {
            assert forall|i: int, j: int| 0 <= i < j < d.len() implies name_lt(#[trigger] d[i].0@, #[trigger] d[j].0@) by {
                assert(d[i] == reg[i] && d[j] == reg[j]);
            }
        }
        lemma_tagged_sorted(d, tag);
        let t0 = tagged(d, tag);
        let t = tagged(reg, tag);
        assert forall|x: int| 0 <= x < t0.len() implies #[trigger] named_in(reg, t0[x]) by {
            assert(named_in(d, t0[x]));
            let k = choose|k: int| 0 <= k < d.len() && d[k].0@ == t0[x];
            assert(reg[k] == d[k]);
        }
        if string_views(reg.last().1.tags@).contains(tag) {
            assert(t =~= t0.push(reg.last().0@));
            assert(named_in(reg, reg.last().0@)) by {
                assert(reg[reg.len() - 1].0@ == reg.last().0@);
            }
            assert forall|x: int| 0 <= x < t.len() implies #[trigger] named_in(reg, t[x]) by {
                if x < t0.len() {
                    assert(t[x] == t0[x]);
                }
            }
            assert forall|x: int, y: int| 0 <= x < y < t.len() implies name_lt(#[trigger] t[x], #[trigger] t[y]) by {
                if y == t0.len() {
                    assert(named_in(d, t0[x]));
                    let k = choose|k: int| 0 <= k < d.len() && d[k].0@ == t0[x];
                    assert(d[k] == reg[k]);
                    assert(name_lt(reg[k].0@, reg[reg.len() - 1].0@));
                } else {
                    assert(t[x] == t0[x] && t[y] == t0[y]);
                }
            }
        } else {
            assert(t =~= t0);
        }
    }
}

/// Resolves target selectors against the registry, whose names ascend. With
/// `all`, every node in name order. Otherwise each target is a node name, or
/// `@tag` for the nodes with that tag in name order; the selected nodes come
/// first mention first, each once. No targets, an unknown name, or an empty
/// selection is an error.
pub fn resolve(registry: &NodeRegistry, targets: &[String], all: bool) -> (r: Result<ResolvedTargets, TargetError>)
    requires
        keys_sorted(registry@),
    ensures
        all ==> (r matches Ok(rt) && entry_names(rt.nodes@) == entry_names(registry@)
            && keys_sorted(rt.nodes@) && from_registry(registry@, rt.nodes@)),
        !all && targets@.len() == 0 ==> r matches Err(TargetError::NoTargets),
        !all && targets@.len() > 0 ==> resolution(registry@, string_views(targets@), r),
{
    let ghost reg = registry@;
    proof {
        lemma_sorted_distinct(reg);
    }
    let mut result: Vec<(String, Node)> = Vec::new();
    if all {
        let mut j: usize = 0;
        while j < registry.len()
            invariant
                reg == registry@,
                names_distinct(reg),
                0 <= j <= reg.len(),
                entry_names(result@) == entry_names(reg.take(j as int)),
                from_registry(reg, result@),
            decreases reg.len() - j,
        {
            let ghost before = result@;
            result.push((registry[j].0.clone(), copy_node(&registry[j].1)));
            proof {
                lemma_key_index_distinct(reg, j as int);
                assert(entry_names(result@) =~= entry_names(before).push(reg[j as int].0@));
                assert(entry_names(reg.take(j + 1)) =~= entry_names(reg.take(j as int)).push(reg[j as int].0@));
                assert(entry_names(result@) =~= entry_names(reg.take(j + 1)));
                assert forall|x: int| 0 <= x < result@.len() implies (#[trigger] key_index(reg, result@[x].0@) matches Some(y) && node_view(result@[x].1) == node_view(reg[y].1)) by {
                    if x < before.len() {
                        assert(result@[x] == before[x]);
                    }
                }
            }
            j = j + 1;
        }
        assert(reg.take(reg.len() as int) =~= reg);
        assert forall|a: int, b: int| 0 <= a < b < result@.len() implies name_lt(#[trigger] result@[a].0@, #[trigger] result@[b].0@) by {
            assert(entry_names(result@)[a] == entry_names(reg)[a]);
            assert(entry_names(result@)[b] == entry_names(reg)[b]);
            assert(name_lt(reg[a].0@, reg[b].0@));
        }
        return Ok(ResolvedTargets { nodes: result });
    }
    if targets.len() == 0 {
        return Err(TargetError::NoTargets);
    }
    let ghost ts = string_views(targets@);
    let mut i: usize = 0;
    while i < targets.len()
        invariant
            reg == registry@,
            names_distinct(reg),
            ts == string_views(targets@),
            !all,
            0 <= i <= targets@.len(),
            entry_names(result@) == selection(reg, ts.take(i as int)),
            from_registry(reg, result@),
            forall|x: int| 0 <= x < i ==> !#[trigger] unknown_name(reg, ts[x]),
        decreases targets@.len() - i,
    {
        let ghost sel0 = entry_names(result@);
        proof {
            assert(ts.take(i + 1).drop_last() =~= ts.take(i as int));
            assert(ts.take(i + 1).last() == ts[i as int]);
            assert(selection(reg, ts.take(i + 1)) == add_new(sel0, target_names(reg, ts[i as int])));
        }
        match strip_tag(&targets[i]) {
            Some(tag) => {
                let mut j: usize = 0;
                while j < registry.len()
                    invariant
                        reg == registry@,
                        names_distinct(reg),
                        0 <= j <= reg.len(),
                        entry_names(result@) == add_new(sel0, tagged(reg.take(j as int), tag@)),
                        from_registry(reg, result@),
                    decreases reg.len() - j,
                {
                    let ghost before = result@;
                    let ghost tg0 = tagged(reg.take(j as int), tag@);
                    proof {
                        assert(reg.take(j + 1).drop_last() =~= reg.take(j as int));
                        assert(reg.take(j + 1).last() == reg[j as int]);
                    }
                    let t = has_tag(&registry[j].1.tags, &tag);
                    proof {
                        let sv = string_views(reg[j as int].1.tags@);
                        if t {
                            let k = choose|k: int| 0 <= k < reg[j as int].1.tags@.len() && reg[j as int].1.tags@[k]@ == tag@;
                            assert(sv[k] == tag@);
                        }
                        if sv.contains(tag@) {
                            let k = choose|k: int| 0 <= k < sv.len() && sv[k] == tag@;
                            assert(reg[j as int].1.tags@[k]@ == tag@);
                        }
                    }
                    if t {
                        proof {
                            let tg1 = tagged(reg.take(j + 1), tag@);
                            assert(tg1 =~= tg0.push(reg[j as int].0@));
                            assert(tg1.drop_last() =~= tg0);
                        }
                        if !has_name(&result, &registry[j].0) {
                            result.push((registry[j].0.clone(), copy_node(&registry[j].1)));
                            proof {
                                lemma_key_index_distinct(reg, j as int);
                                assert(entry_names(result@) =~= entry_names(before).push(reg[j as int].0@));
                                assert forall|x: int| 0 <= x < result@.len() implies (#[trigger] key_index(reg, result@[x].0@) matches Some(y) && node_view(result@[x].1) == node_view(reg[y].1)) by {
                                    if x < before.len() {
                                        assert(result@[x] == before[x]);
                                    }
                                }
                            }
                        }
                    } else {
                        assert(tagged(reg.take(j + 1), tag@) =~= tg0);
                    }
                    j = j + 1;
                }
                proof {
                    assert(reg.take(reg.len() as int) =~= reg);
                    assert(is_tag(ts[i as int]));
                    assert(target_names(reg, ts[i as int]) == tagged(reg, tag@));
                    assert(entry_names(result@) == selection(reg, ts.take(i + 1)));
                }
            },
            None => {
                match find_key(registry, &targets[i]) {
                    None => {
                        proof {
                            assert(unknown_name(reg, ts[i as int]));
                        }
                        return Err(TargetError::UnknownNode { name: targets[i].clone() });
                    },
                    Some(j) => {
                        let ghost before = result@;
                        proof {
                            assert(seq![ts[i as int]].drop_last() =~= Seq::<Seq<char>>::empty());
                            assert(!unknown_name(reg, ts[i as int]));
                            assert(target_names(reg, ts[i as int]) == seq![ts[i as int]]);
                            assert(add_new(sel0, Seq::<Seq<char>>::empty()) == sel0);
                        }
                        if !has_name(&result, &targets[i]) {
                            result.push((targets[i].clone(), copy_node(&registry[j].1)));
                            proof {
                                assert(entry_names(result@) =~= entry_names(before).push(ts[i as int]));
                                assert forall|x: int| 0 <= x < result@.len() implies (#[trigger] key_index(reg, result@[x].0@) matches Some(y) && node_view(result@[x].1) == node_view(reg[y].1)) by {
                                    if x < before.len() {
                                        assert(result@[x] == before[x]);
                                    }
                                }
                            }
                        }
                    },
                }
            },
        }
        i = i + 1;
    }
    assert(ts.take(targets@.len() as int) =~= ts);
    if result.len() == 0 {
        return Err(TargetError::NoMatch);
    }
    Ok(ResolvedTargets { nodes: result })
}

} // verus!
