use vstd::prelude::*;

use crate::strings::{is_sorted_by_key, keys_sorted};

verus! {

/// A shell predicate that gates whether a step runs.
#[derive(Clone, Debug)]
pub struct ConditionDef {
    pub command: String,
}

/// The closed set of actions a step can perform.
#[derive(Clone, Debug)]
pub enum ActionDef {
    Deploy { show_trace: bool, dry_run: bool },
    Build { show_trace: bool },
    Diff,
    Status,
    Ping,
    Rollback,
    Reboot,
    Exec { command: Vec<String> },
    Shell { command: String },
    /// Runs the flake's `darwin-rebuild` app.
    DarwinRebuild { show_trace: bool },
    /// Runs the flake's standalone `home-manager-rebuild` app.
    HomeManagerRebuild { show_trace: bool },
    /// Runs `nix flake update`, optionally for the named inputs only.
    FlakeUpdate { inputs: Vec<String> },
}

/// One named unit of work of a flow.
#[derive(Clone, Debug)]
pub struct StepDef {
    pub id: String,
    pub action: ActionDef,
    /// Empty: inherit the invocation's targets.
    pub targets: Vec<String>,
    pub depends_on: Vec<String>,
    pub condition: Option<ConditionDef>,
}

/// A described, ordered list of steps.
#[derive(Clone, Debug)]
pub struct FlowDef {
    pub description: String,
    pub steps: Vec<StepDef>,
}

/// Connection settings shared by every node.
#[derive(Debug)]
pub struct SshConfig {
    pub connect_timeout: u32,
    pub strict_host_key: String,
    /// Extra `-o` options, keyed by option name.
    pub options: Vec<(String, String)>,
}

impl Default for SshConfig {
    fn default() -> (r: SshConfig)
        ensures
            r.connect_timeout == 5,
            r.strict_host_key@ == "accept-new"@,
            r.options@.len() == 0,
    {
        proof {
            reveal_strlit("accept-new");
        }
        SshConfig {
            connect_timeout: 5,
            strict_host_key: "accept-new".to_string(),
            options: Vec::new(),
        }
    }
}

/// Deployment settings shared by every node.
#[derive(Debug)]
pub struct DeployConfig {
    pub show_trace: bool,
    pub magic_rollback: bool,
}

impl Default for DeployConfig {
    fn default() -> (r: DeployConfig)
        ensures
            !r.show_trace,
            r.magic_rollback,
    {
        DeployConfig { show_trace: false, magic_rollback: true }
    }
}

/// Per-node replacements of the shared connection settings.
#[derive(Debug, Default)]
pub struct SshOverride {
    pub connect_timeout: Option<u32>,
    pub strict_host_key: Option<String>,
    pub options: Vec<(String, String)>,
}

/// Per-node replacements of the shared deployment settings.
#[derive(Debug, Default)]
pub struct DeployOverride {
    pub show_trace: Option<bool>,
    pub magic_rollback: Option<bool>,
}

/// The settings one node overrides.
#[derive(Debug, Default)]
pub struct NodeOverride {
    pub ssh: SshOverride,
    pub deploy: DeployOverride,
}

/// Shell scripts run before and after a command.
#[derive(Debug, Default)]
pub struct HookPair {
    pub pre: Option<String>,
    pub post: Option<String>,
}

/// The fleet's configuration. Each list is keyed by name, in ascending name
/// order (see `wf`).
#[derive(Debug, Default)]
pub struct FleetConfig {
    pub ssh: SshConfig,
    pub deploy: DeployConfig,
    pub nodes: Vec<(String, NodeOverride)>,
    pub hooks: Vec<(String, HookPair)>,
    pub flows: Vec<(String, FlowDef)>,
}

/// Connection settings for one node, overrides applied.
pub struct ResolvedSsh {
    pub connect_timeout: u32,
    pub strict_host_key: String,
    pub options: Vec<(String, String)>,
}

/// Deployment settings for one node, overrides applied.
pub struct ResolvedDeploy {
    pub show_trace: bool,
    pub magic_rollback: bool,
}

/// The position of the first entry keyed `key`, if any.
pub open spec fn key_index<V>(list: Seq<(String, V)>, key: Seq<char>) -> Option<int> {
    if exists|i: int| 0 <= i < list.len() && list[i].0@ == key {
        Some(
            choose|i: int|
                0 <= i < list.len() && list[i].0@ == key && forall|j: int|
                    0 <= j < i ==> list[j].0@ != key,
        )
    } else {
        None
    }
}

/// The position of the first entry keyed `key`.
pub(crate) fn find_key<V>(list: &Vec<(String, V)>, key: &String) -> (r: Option<usize>)
    ensures
        match r {
            Some(i) => i < list@.len() && list@[i as int].0@ == key@ && forall|j: int|
                0 <= j < i ==> list@[j].0@ != key@,
            None => forall|j: int| 0 <= j < list@.len() ==> list@[j].0@ != key@,
        },
        r matches Some(i) ==> key_index(list@, key@) == Some(i as int),
        r is None ==> key_index(list@, key@) is None,
{
    let mut i: usize = 0;
    while i < list.len()
        invariant
            0 <= i <= list@.len(),
            forall|j: int| 0 <= j < i ==> list@[j].0@ != key@,
        decreases list@.len() - i,
    {
        if list[i].0 == *key {
            proof {
                let c = choose|c: int|
                    0 <= c < list@.len() && list@[c].0@ == key@ && forall|j: int|
                        0 <= j < c ==> list@[j].0@ != key@;
                assert(0 <= i < list@.len() && list@[i as int].0@ == key@ && forall|j: int|
                    0 <= j < i ==> list@[j].0@ != key@);
                if c < i {
                    assert(list@[c].0@ != key@);
                } else if c > i {
                    assert(list@[i as int].0@ != key@);
                }
            }
            return Some(i);
        }
        i = i + 1;
    }
    None
}

/// `list` with the entry keyed `k` set to `v`: entries keyed `k` take the
/// value, or a new entry is appended.
pub open spec fn set_option(list: Seq<(String, String)>, k: String, v: String) -> Seq<(String, String)> {
    if exists|i: int| 0 <= i < list.len() && list[i].0@ == k@ {
        Seq::new(list.len(), |i: int| if list[i].0@ == k@ { (list[i].0, v) } else { list[i] })
    } else {
        list.push((k, v))
    }
}

/// `base` with each entry of `over` set in turn.
pub open spec fn merged_options(base: Seq<(String, String)>, over: Seq<(String, String)>) -> Seq<(String, String)>
    decreases over.len(),
{
    if over.len() == 0 {
        base
    } else {
        let m = merged_options(base, over.drop_last());
        set_option(m, over.last().0, over.last().1)
    }
}

fn set_option_exec(list: &mut Vec<(String, String)>, k: &String, v: &String)
    ensures
        final(list)@ == set_option(old(list)@, *k, *v),
{
    let ghost l0 = list@;
    let mut found = false;
    let mut i: usize = 0;
    while i < list.len()
        invariant
            0 <= i <= list@.len(),
            list@.len() == l0.len(),
            forall|j: int| 0 <= j < i ==> list@[j] == (if l0[j].0@ == k@ { (l0[j].0, *v) } else { l0[j] }),
            forall|j: int| i <= j < l0.len() ==> list@[j] == l0[j],
            found == exists|j: int| 0 <= j < i && l0[j].0@ == k@,
        decreases l0.len() - i,
    {
        if list[i].0 == *k {
            let key = list[i].0.clone();
            list.set(i, (key, v.clone()));
            found = true;
        }
        proof {
            if !found {
                assert forall|j: int| 0 <= j < i + 1 implies !(l0[j].0@ == k@) by {}
            }
        }
        i = i + 1;
    }
    if !found {
        list.push((k.clone(), v.clone()));
        assert(list@ =~= set_option(l0, *k, *v));
    } else {
        assert(list@ =~= set_option(l0, *k, *v));
    }
}

fn clone_options(v: &Vec<(String, String)>) -> (r: Vec<(String, String)>)
    ensures
        r@ == v@,
{
    let mut r: Vec<(String, String)> = Vec::new();
    let mut i: usize = 0;
    while i < v.len()
        invariant
            0 <= i <= v@.len(),
            r@ == v@.take(i as int),
        decreases v@.len() - i,
    {
        r.push((v[i].0.clone(), v[i].1.clone()));
        assert(r@ =~= v@.take(i + 1));
        i = i + 1;
    }
    assert(v@.take(v@.len() as int) =~= v@);
    r
}

impl FleetConfig {
    /// Node overrides, hooks and flows are each listed in ascending name order,
    /// so no name repeats within a list.
    pub open spec fn wf(&self) -> bool {
        &&& keys_sorted(self.nodes@)
        &&& keys_sorted(self.hooks@)
        &&& keys_sorted(self.flows@)
    }

    /// Whether the configuration's lists are in ascending name order.
    pub fn is_well_formed(&self) -> (r: bool)
        ensures
            r == self.wf(),
    {
        is_sorted_by_key(&self.nodes) && is_sorted_by_key(&self.hooks) && is_sorted_by_key(
            &self.flows,
        )
    }

    /// The position in `hooks` of the hooks of the command called `name`.
    pub fn find_hook(&self, name: &str) -> (r: Option<usize>)
        ensures
            match r {
                Some(i) => i < self.hooks@.len() && key_index(self.hooks@, name@) == Some(i as int),
                None => key_index(self.hooks@, name@) is None,
            },
    {
        let key = name.to_string();
        find_key(&self.hooks, &key)
    }

    /// Connection settings for `node_name`: the shared ones, with that node's
    /// overrides applied (options merged key by key).
    pub fn resolve_ssh(&self, node_name: &str) -> (r: ResolvedSsh)
        ensures
            match key_index(self.nodes@, node_name@) {
                None => {
                    &&& r.connect_timeout == self.ssh.connect_timeout
                    &&& r.strict_host_key@ == self.ssh.strict_host_key@
                    &&& r.options@ == self.ssh.options@
                },
                Some(i) => {
                    let o = self.nodes@[i].1.ssh;
                    &&& r.connect_timeout == (match o.connect_timeout {
                        Some(t) => t,
                        None => self.ssh.connect_timeout,
                    })
                    &&& r.strict_host_key@ == (match o.strict_host_key {
                        Some(h) => h@,
                        None => self.ssh.strict_host_key@,
                    })
                    &&& r.options@ == merged_options(self.ssh.options@, o.options@)
                },
            },
    {
        let mut connect_timeout = self.ssh.connect_timeout;
        let mut strict_host_key = self.ssh.strict_host_key.clone();
        let mut options = clone_options(&self.ssh.options);
        let name = node_name.to_string();
        if let Some(i) = find_key(&self.nodes, &name) {
            let o = &self.nodes[i].1.ssh;
            if let Some(t) = o.connect_timeout {
                connect_timeout = t;
            }
            if let Some(h) = &o.strict_host_key {
                strict_host_key = h.clone();
            }
            let mut j: usize = 0;
            while j < o.options.len()
                invariant
                    0 <= j <= o.options@.len(),
                    options@ == merged_options(self.ssh.options@, o.options@.take(j as int)),
                decreases o.options@.len() - j,
            {
                set_option_exec(&mut options, &o.options[j].0, &o.options[j].1);
                assert(o.options@.take(j + 1).drop_last() =~= o.options@.take(j as int));
                j = j + 1;
            }
            assert(o.options@.take(o.options@.len() as int) =~= o.options@);
        }
        ResolvedSsh { connect_timeout, strict_host_key, options }
    }

    /// Deployment settings for `node_name`: the shared ones, with that node's
    /// overrides applied.
    pub fn resolve_deploy(&self, node_name: &str) -> (r: ResolvedDeploy)
        ensures
            match key_index(self.nodes@, node_name@) {
                None => r.show_trace == self.deploy.show_trace && r.magic_rollback
                    == self.deploy.magic_rollback,
                Some(i) => {
                    let o = self.nodes@[i].1.deploy;
                    &&& r.show_trace == (match o.show_trace {
                        Some(v) => v,
                        None => self.deploy.show_trace,
                    })
                    &&& r.magic_rollback == (match o.magic_rollback {
                        Some(v) => v,
                        None => self.deploy.magic_rollback,
                    })
                },
            },
    {
        let mut r = ResolvedDeploy {
            show_trace: self.deploy.show_trace,
            magic_rollback: self.deploy.magic_rollback,
        };
        let name = node_name.to_string();
        if let Some(i) = find_key(&self.nodes, &name) {
            let o = &self.nodes[i].1.deploy;
            if let Some(v) = o.show_trace {
                r.show_trace = v;
            }
            if let Some(v) = o.magic_rollback {
                r.magic_rollback = v;
            }
        }
        r
    }

    /// The position in `flows` of the flow called `name`.
    pub fn find_flow(&self, name: &String) -> (r: Option<usize>)
        ensures
            match r {
                Some(i) => i < self.flows@.len() && key_index(self.flows@, name@) == Some(i as int),
                None => key_index(self.flows@, name@) is None,
            },
    {
        find_key(&self.flows, name)
    }
}

} // verus!
