use vstd::prelude::*;

use crate::strings::{clone_strings, join_strings, joined, string_views};
use crate::config::{key_index, ActionDef, FleetConfig, FlowDef, StepDef};
use crate::dag::{
    in_level, leveling, lemma_leveling_unique, lemma_levels_cover_all, lemma_levels_in_range,
    lemma_levels_partition,
    scheduled, topo_levels, total,
};
use crate::flow::{
    acyclic, dep_lists, deps_in_range, deps_known, flow_deps, ids_distinct, validate,
    validation_result, FlowError, ValidatedFlow,
};

verus! {

/// Where one scheduled step stands during a live run.
#[derive(Clone, Copy, Debug, PartialEq, Eq, Structural)]
pub enum StepState {
    Pending,
    Skipped,
    Running,
    Succeeded,
    Failed,
}

/// How a live run ended.
#[derive(Clone, Debug)]
pub enum FlowOutcome {
    /// Every step succeeded or was skipped.
    Completed,
    /// The named step failed; the remaining steps were not started.
    Aborted { step: String, reason: String },
}

/// What the run asks its driver to do next.
#[derive(Clone, Debug)]
pub enum Next {
    /// Evaluate the condition of step `step`, then report through `condition_result`.
    CheckCondition { step: usize },
    /// Perform the action of step `step` on these targets, then report through
    /// `dispatch_result`.
    Dispatch { step: usize, targets: Vec<String>, select_all: bool },
    /// Nothing is left to do.
    Finish { outcome: FlowOutcome },
}

/// A live run of a flow: the scheduled steps in level order, a cursor, and the
/// state of each scheduled entry. Fail-fast: the first failed step ends the run.
pub struct FlowRun {
    pub steps: Vec<StepDef>,
    /// Step positions, level after level.
    pub order: Vec<usize>,
    /// Index into `order` of the entry being worked on.
    pub pos: usize,
    /// The state of each entry of `order`.
    pub states: Vec<StepState>,
    pub cli_targets: Vec<String>,
    pub cli_all: bool,
    /// The entry that failed, and why.
    pub failure: Option<(usize, String)>,
}

/// The targets a step acts on: its own, or else the invocation's.
pub open spec fn targets_for(step: StepDef, cli_targets: Seq<String>) -> Seq<String> {
    if step.targets@.len() == 0 {
        cli_targets
    } else {
        step.targets@
    }
}

impl FlowRun {
    pub open spec fn wf(&self) -> bool {
        &&& self.states@.len() == self.order@.len()
        &&& self.pos <= self.order@.len()
        &&& forall|i: int| 0 <= i < self.order@.len() ==> self.order@[i] < self.steps@.len()
        &&& forall|i: int|
            0 <= i < self.pos ==> #[trigger] self.states@[i] == StepState::Skipped
                || self.states@[i] == StepState::Succeeded
        &&& forall|i: int|
            self.pos < i < self.order@.len() ==> #[trigger] self.states@[i] == StepState::Pending
        &&& self.failure is None && self.pos < self.order@.len() ==> (self.states@[self.pos as int]
            == StepState::Pending || self.states@[self.pos as int] == StepState::Running)
        &&& self.failure matches Some((p, _)) ==> p == self.pos && p < self.order@.len()
            && self.states@[p as int] == StepState::Failed
    }

    /// Same steps, order and invocation targets.
    pub open spec fn same_setup(&self, other: &FlowRun) -> bool {
        &&& self.steps@ == other.steps@
        &&& self.order@ == other.order@
        &&& self.cli_targets@ == other.cli_targets@
        &&& self.cli_all == other.cli_all
    }

    /// The step at the cursor.
    pub open spec fn current(&self) -> StepDef {
        self.steps@[self.order@[self.pos as int] as int]
    }

    /// The run waits for the verdict of the current step's condition.
    pub open spec fn awaits_condition(&self) -> bool {
        &&& self.failure is None
        &&& self.pos < self.order@.len()
        &&& self.states@[self.pos as int] == StepState::Pending
        &&& self.current().condition is Some
    }

    /// The run waits for the result of the current step's action.
    pub open spec fn awaits_dispatch(&self) -> bool {
        &&& self.failure is None
        &&& self.pos < self.order@.len()
        &&& self.states@[self.pos as int] == StepState::Running
    }

    /// Starts a run over the levels `prepare_run` computed for these steps, so
    /// each step comes after every step it depends on; every entry is pending.
    pub fn new(
        steps: Vec<StepDef>,
        levels: &Vec<Vec<usize>>,
        cli_targets: Vec<String>,
        cli_all: bool,
    ) -> (r: FlowRun)
        requires
            prepared(steps@, Ok(*levels)),
        ensures
            r.wf(),
            r.steps@ == steps@,
            r.order@ == dep_lists(levels@).flatten(),
            r.pos == 0,
            forall|i: int| 0 <= i < r.states@.len() ==> r.states@[i] == StepState::Pending,
            r.cli_targets@ == cli_targets@,
            r.cli_all == cli_all,
            r.failure is None,
    {
        let n = steps.len();
        proof {
            assert(flow_deps(steps@).len() == n);
            lemma_levels_in_range(flow_deps(steps@), dep_lists(levels@));
            assert forall|k: int, i: int|
                0 <= k < levels@.len() && 0 <= i < levels@[k]@.len() implies levels@[k]@[i]
                    < steps@.len() by {
                assert(dep_lists(levels@)[k] == levels@[k]@);
            }
        }
        let mut order: Vec<usize> = Vec::new();
        let mut k: usize = 0;
        while k < levels.len()
            invariant
                0 <= k <= levels@.len(),
                order@ == dep_lists(levels@).take(k as int).flatten(),
                forall|i: int| 0 <= i < order@.len() ==> order@[i] < steps@.len(),
                forall|k2: int, i: int|
                    0 <= k2 < levels@.len() && 0 <= i < levels@[k2]@.len() ==> levels@[k2]@[i]
                        < steps@.len(),
            decreases levels@.len() - k,
        {
            let ghost before = order@;
            let mut i: usize = 0;
            while i < levels[k].len()
                invariant
                    0 <= k < levels@.len(),
                    0 <= i <= levels@[k as int]@.len(),
                    order@ == before + levels@[k as int]@.take(i as int),
                    forall|x: int| 0 <= x < before.len() ==> before[x] < steps@.len(),
                    forall|x: int|
                        0 <= x < levels@[k as int]@.len() ==> levels@[k as int]@[x]
                            < steps@.len(),
                decreases levels@[k as int]@.len() - i,
            {
                order.push(levels[k][i]);
                assert(order@ =~= before + levels@[k as int]@.take(i + 1));
                i = i + 1;
            }
            proof {
                let dl = dep_lists(levels@);
                assert(dl.take(k + 1) =~= dl.take(k as int).push(dl[k as int]));
                dl.take(k as int).lemma_flatten_push(dl[k as int]);
                assert(levels@[k as int]@.take(i as int) =~= dl[k as int]);
                assert forall|x: int| 0 <= x < order@.len() implies order@[x] < steps@.len() by {
                    if x >= before.len() {
                        assert(order@[x] == levels@[k as int]@[x - before.len()]);
                    }
                }
            }
            k = k + 1;
        }
        assert(dep_lists(levels@).take(levels@.len() as int) =~= dep_lists(levels@));
        let mut states: Vec<StepState> = Vec::new();
        let mut c: usize = 0;
        while c < order.len()
            invariant
                0 <= c <= order@.len(),
                states@.len() == c,
                forall|i: int| 0 <= i < c ==> states@[i] == StepState::Pending,
            decreases order@.len() - c,
        {
            states.push(StepState::Pending);
            c = c + 1;
        }
        FlowRun {
            steps,
            order,
            pos: 0,
            states,
            cli_targets,
            cli_all,
            failure: None,
        }
    }

    /// Decides the next move: report the failure or completion, ask for the
    /// current step's condition to be evaluated, or start its action. Only the
    /// current entry's own state and condition decide; how earlier steps ended
    /// (skipped or succeeded) plays no part.
    pub fn next(&mut self) -> (r: Next)
        requires
            old(self).wf(),
        ensures
            final(self).wf(),
            final(self).same_setup(old(self)),
            final(self).pos == old(self).pos,
            final(self).failure == old(self).failure,
            old(self).failure matches Some((p, why)) ==> {
                &&& r matches Next::Finish { outcome: FlowOutcome::Aborted { step, reason } }
                    && step@ == old(self).steps@[old(self).order@[p as int] as int].id@ && reason@
                    == why@
                &&& final(self).states@ == old(self).states@
            },
            old(self).failure is None && old(self).pos == old(self).order@.len() ==> {
                &&& r matches Next::Finish { outcome: FlowOutcome::Completed }
                &&& final(self).states@ == old(self).states@
                &&& forall|i: int|
                    0 <= i < old(self).states@.len() ==> #[trigger] old(self).states@[i]
                        == StepState::Skipped || old(self).states@[i] == StepState::Succeeded
            },
            old(self).awaits_condition() ==> {
                &&& r matches Next::CheckCondition { step } && step == old(self).order@[old(
                    self,
                ).pos as int]
                &&& final(self).states@ == old(self).states@
            },
            old(self).failure is None && old(self).pos < old(self).order@.len()
                && !old(self).awaits_condition() ==> {
                &&& r matches Next::Dispatch { step, targets, select_all } && step == old(
                    self,
                ).order@[old(self).pos as int] && targets@ == targets_for(
                    old(self).current(),
                    old(self).cli_targets@,
                ) && select_all == old(self).cli_all
                &&& final(self).states@ == old(self).states@.update(
                    old(self).pos as int,
                    StepState::Running,
                )
                &&& final(self).awaits_dispatch()
            },
    {
        match &self.failure {
            Some((p, why)) => {
                let step = self.steps[self.order[*p]].id.clone();
                return Next::Finish {
                    outcome: FlowOutcome::Aborted { step, reason: why.clone() },
                };
            },
            None => {},
        }
        if self.pos == self.order.len() {
            return Next::Finish { outcome: FlowOutcome::Completed };
        }
        let s = self.order[self.pos];
        let pending = self.states[self.pos] == StepState::Pending;
        if pending && self.steps[s].condition.is_some() {
            return Next::CheckCondition { step: s };
        }
        if pending {
            self.states.set(self.pos, StepState::Running);
        }
        let targets = if self.steps[s].targets.len() == 0 {
            clone_strings(&self.cli_targets)
        } else {
            clone_strings(&self.steps[s].targets)
        };
        Next::Dispatch { step: s, targets, select_all: self.cli_all }
    }

    /// Records the verdict of the current step's condition: met, the step
    /// starts; not met, it is skipped and the run moves on. A skip leaves the
    /// later entries pending, dependents included.
    pub fn condition_result(&mut self, met: bool)
        requires
            old(self).wf(),
            old(self).awaits_condition(),
        ensures
            final(self).wf(),
            final(self).same_setup(old(self)),
            final(self).failure is None,
            met ==> final(self).pos == old(self).pos && final(self).states@ == old(self).states@.update(
                old(self).pos as int,
                StepState::Running,
            ),
            !met ==> final(self).pos == old(self).pos + 1 && final(self).states@ == old(
                self,
            ).states@.update(old(self).pos as int, StepState::Skipped),
    {
        if met {
            self.states.set(self.pos, StepState::Running);
        } else {
            let len = self.order.len();
            assert(self.pos < len);
            self.states.set(self.pos, StepState::Skipped);
            self.pos = self.pos + 1;
        }
    }

    /// Records the outcome of the current step's action: success moves on, a
    /// failure ends the run.
    pub fn dispatch_result(&mut self, ok: bool, reason: String)
        requires
            old(self).wf(),
            old(self).awaits_dispatch(),
        ensures
            final(self).wf(),
            final(self).same_setup(old(self)),
            ok ==> final(self).pos == old(self).pos + 1 && final(self).failure is None
                && final(self).states@ == old(self).states@.update(
                old(self).pos as int,
                StepState::Succeeded,
            ),
            !ok ==> final(self).pos == old(self).pos && final(self).failure == Some(
                (old(self).pos, reason),
            ) && final(self).states@ == old(self).states@.update(
                old(self).pos as int,
                StepState::Failed,
            ),
    {
        if ok {
            let len = self.order.len();
            assert(self.pos < len);
            self.states.set(self.pos, StepState::Succeeded);
            self.pos = self.pos + 1;
        } else {
            self.states.set(self.pos, StepState::Failed);
            self.failure = Some((self.pos, reason));
        }
    }
}

// ---------------------------------------------------------------- planning

/// The name of an action's kind.
pub open spec fn kind_name(a: ActionDef) -> Seq<char> {
    match a {
        ActionDef::Deploy { .. } => "deploy"@,
        ActionDef::Build { .. } => "build"@,
        ActionDef::Diff => "diff"@,
        ActionDef::Status => "status"@,
        ActionDef::Ping => "ping"@,
        ActionDef::Rollback => "rollback"@,
        ActionDef::Reboot => "reboot"@,
        ActionDef::Exec { .. } => "exec"@,
        ActionDef::Shell { .. } => "shell"@,
        ActionDef::DarwinRebuild { .. } => "darwin-rebuild"@,
        ActionDef::HomeManagerRebuild { .. } => "home-manager-rebuild"@,
        ActionDef::FlakeUpdate { .. } => "flake-update"@,
    }
}

/// The name of an action's kind.
pub fn action_kind(a: &ActionDef) -> (r: &'static str)
    ensures
        r@ == kind_name(*a),
{
    match a {
        ActionDef::Deploy { .. } => "deploy",
        ActionDef::Build { .. } => "build",
        ActionDef::Diff => "diff",
        ActionDef::Status => "status",
        ActionDef::Ping => "ping",
        ActionDef::Rollback => "rollback",
        ActionDef::Reboot => "reboot",
        ActionDef::Exec { .. } => "exec",
        ActionDef::Shell { .. } => "shell",
        ActionDef::DarwinRebuild { .. } => "darwin-rebuild",
        ActionDef::HomeManagerRebuild { .. } => "home-manager-rebuild",
        ActionDef::FlakeUpdate { .. } => "flake-update",
    }
}

/// How a step's targets read in a plan.
pub open spec fn target_description(targets: Seq<String>) -> Seq<char> {
    if targets.len() == 0 {
        "(inherit CLI targets)"@
    } else {
        joined(string_views(targets), ", "@)
    }
}

/// One line of a dry-run plan.
#[derive(Clone, Debug)]
pub struct PlanEntry {
    /// Position of the step in its flow.
    pub step: usize,
    pub action: &'static str,
    pub targets: String,
    pub has_condition: bool,
}

/// `plan` describes, level by level, each step of `levels`.
pub open spec fn describes(steps: Seq<StepDef>, levels: Seq<Seq<usize>>, plan: Seq<Seq<PlanEntry>>) -> bool {
    &&& plan.len() == levels.len()
    &&& forall|k: int| 0 <= k < levels.len() ==> #[trigger] plan[k].len() == levels[k].len()
    &&& forall|k: int, i: int|
        0 <= k < levels.len() && 0 <= i < levels[k].len() ==> {
            let e = #[trigger] plan[k][i];
            let st = steps[levels[k][i] as int];
            &&& e.step == levels[k][i]
            &&& e.action@ == kind_name(st.action)
            &&& e.targets@ == target_description(st.targets@)
            &&& e.has_condition == st.condition is Some
        }
}

/// The view of a plan.
pub open spec fn plan_view(plan: Seq<Vec<PlanEntry>>) -> Seq<Seq<PlanEntry>> {
    plan.map_values(|l: Vec<PlanEntry>| l@)
}

/// The dry-run plan: for each level, each step with its action kind, target
/// description and whether it has a condition. Nothing is evaluated or run.
pub fn execution_plan(flow: &FlowDef, levels: &Vec<Vec<usize>>) -> (plan: Vec<Vec<PlanEntry>>)
    requires
        forall|k: int, i: int|
            0 <= k < levels@.len() && 0 <= i < levels@[k]@.len() ==> levels@[k]@[i]
                < flow.steps@.len(),
    ensures
        describes(flow.steps@, dep_lists(levels@), plan_view(plan@)),
{
    let ghost dl = dep_lists(levels@);
    let mut plan: Vec<Vec<PlanEntry>> = Vec::new();
    let mut k: usize = 0;
    while k < levels.len()
        invariant
            dl == dep_lists(levels@),
            0 <= k <= levels@.len(),
            forall|k2: int, i: int|
                0 <= k2 < levels@.len() && 0 <= i < levels@[k2]@.len() ==> levels@[k2]@[i]
                    < flow.steps@.len(),
            describes(flow.steps@, dl.take(k as int), plan_view(plan@)),
        decreases levels@.len() - k,
    {
        let mut line: Vec<PlanEntry> = Vec::new();
        let mut i: usize = 0;
        while i < levels[k].len()
            invariant
                dl == dep_lists(levels@),
                0 <= k < levels@.len(),
                0 <= i <= levels@[k as int]@.len(),
                forall|k2: int, i2: int|
                    0 <= k2 < levels@.len() && 0 <= i2 < levels@[k2]@.len() ==> levels@[k2]@[i2]
                        < flow.steps@.len(),
                line@.len() == i,
                forall|i2: int|
                    0 <= i2 < i ==> {
                        let e = #[trigger] line@[i2];
                        let st = flow.steps@[dl[k as int][i2] as int];
                        &&& e.step == dl[k as int][i2]
                        &&& e.action@ == kind_name(st.action)
                        &&& e.targets@ == target_description(st.targets@)
                        &&& e.has_condition == st.condition is Some
                    },
            decreases levels@[k as int]@.len() - i,
        {
            let s = levels[k][i];
            let step = &flow.steps[s];
            let targets = if step.targets.len() == 0 {
                proof {
                    reveal_strlit("(inherit CLI targets)");
                }
                "(inherit CLI targets)".to_string()
            } else {
                join_strings(&step.targets, ", ")
            };
            line.push(
                PlanEntry {
                    step: s,
                    action: action_kind(&step.action),
                    targets,
                    has_condition: step.condition.is_some(),
                },
            );
            i = i + 1;
        }
        let ghost before = plan_view(plan@);
        plan.push(line);
        proof {
            assert(dl.take(k + 1) =~= dl.take(k as int).push(dl[k as int]));
            assert(plan_view(plan@) =~= before.push(line@));
        }
        k = k + 1;
    }
    assert(dl.take(levels@.len() as int) =~= dl);
    plan
}

/// Step `s` has a line in `plan`.
pub open spec fn planned(plan: Seq<Seq<PlanEntry>>, s: int) -> bool {
    exists|k: int, i: int| 0 <= k < plan.len() && 0 <= i < plan[k].len() && plan[k][i].step == s
}

/// A dry run lists every step of an acyclic flow: each step of the flow stands
/// in the plan.
pub proof fn lemma_plan_lists_every_step(
    steps: Seq<StepDef>,
    deps: Seq<Seq<usize>>,
    levels: Seq<Seq<usize>>,
    plan: Seq<Seq<PlanEntry>>,
)
    requires
        deps.len() == steps.len(),
        deps.len() <= usize::MAX,
        deps_in_range(deps),
        acyclic(deps),
        leveling(deps, levels),
        describes(steps, levels, plan),
    ensures
        forall|s: int| 0 <= s < steps.len() ==> #[trigger] planned(plan, s),
{
    lemma_levels_partition(deps, levels);
    assert forall|s: int| 0 <= s < steps.len() implies #[trigger] planned(plan, s) by {
        assert(scheduled(levels, s));
        let k = choose|k: int| 0 <= k < levels.len() && in_level(levels, k, s);
        let i = choose|i: int| 0 <= i < levels[k].len() && levels[k][i] as int == s;
        assert(plan[k][i].step == levels[k][i]);
    }
}

// ---------------------------------------------------------------- preparing a run

/// What `prepare_run` returns for a flow with these steps.
pub open spec fn prepared(steps: Seq<StepDef>, r: Result<Vec<Vec<usize>>, FlowError>) -> bool {
    match r {
        Ok(levels) => {
            &&& ids_distinct(steps)
            &&& deps_known(steps)
            &&& acyclic(flow_deps(steps))
            &&& leveling(flow_deps(steps), dep_lists(levels@))
            &&& total(dep_lists(levels@)) == steps.len()
        },
        // validated flows are always fully leveled
        Err(FlowError::Unscheduled { .. }) => false,
        Err(e) => validation_result(steps, Err(e)),
    }
}

/// Validates a flow and computes its levels, checking that every step was
/// scheduled. That check guards the leveling itself: on a validated flow it
/// never fails, as the contract states.
pub fn prepare_run(name: &String, flow: &FlowDef) -> (r: Result<Vec<Vec<usize>>, FlowError>)
    ensures
        prepared(flow.steps@, r),
{
    let validated = match validate(flow) {
        Ok(v) => v,
        Err(e) => {
            proof {
                assert(validation_result(flow.steps@, Err::<ValidatedFlow, FlowError>(e)));
            }
            return Err(e);
        },
    };
    let n = flow.steps.len();
    let levels = topo_levels(n, &validated.deps);
    assert(dep_lists(validated.deps@) == flow_deps(flow.steps@));
    let ghost dl = dep_lists(levels@);
    proof {
        lemma_levels_cover_all(flow_deps(flow.steps@), dl);
    }
    let mut count: usize = 0;
    let mut k: usize = 0;
    let mut over = false;
    while k < levels.len()
        invariant
            dl == dep_lists(levels@),
            n == flow.steps@.len(),
            ids_distinct(flow.steps@),
            deps_known(flow.steps@),
            acyclic(flow_deps(flow.steps@)),
            leveling(flow_deps(flow.steps@), dl),
            total(dl) == n,
            0 <= k <= levels@.len(),
            !over ==> count == dl.take(k as int).flatten().len() && count <= n,
            over ==> dl.take(k as int).flatten().len() > n,
        decreases levels@.len() - k,
    {
        proof {
            assert(dl.take(k + 1) =~= dl.take(k as int).push(dl[k as int]));
            dl.take(k as int).lemma_flatten_push(dl[k as int]);
        }
        if !over {
            if levels[k].len() > n - count {
                over = true;
            } else {
                count = count + levels[k].len();
            }
        }
        k = k + 1;
    }
    assert(dl.take(levels@.len() as int) =~= dl);
    if over || count != n {
        return Err(FlowError::Unscheduled { flow: name.clone() });
    }
    Ok(levels)
}

/// Preparing the same flow twice yields the same levels.
pub proof fn lemma_prepare_deterministic(
    steps: Seq<StepDef>,
    a: Vec<Vec<usize>>,
    b: Vec<Vec<usize>>,
)
    requires
        prepared(steps, Ok(a)),
        prepared(steps, Ok(b)),
    ensures
        dep_lists(a@) == dep_lists(b@),
{
    lemma_leveling_unique(flow_deps(steps), dep_lists(a@), dep_lists(b@));
}

/// Finds the flow called `name` and prepares its run; answers the flow's
/// position in the configuration and its levels.
pub fn prepare_named(config: &FleetConfig, name: &String) -> (r: Result<(usize, Vec<Vec<usize>>), FlowError>)
    ensures
        match key_index(config.flows@, name@) {
            None => r matches Err(FlowError::UnknownFlow { name: n }) && n@ == name@,
            Some(i) => 0 <= i < config.flows@.len() && match r {
                Ok((j, levels)) => j == i && prepared(config.flows@[i].1.steps@, Ok(levels)),
                Err(e) => prepared(config.flows@[i].1.steps@, Err(e)),
            },
        },
{
    match config.find_flow(name) {
        None => Err(FlowError::UnknownFlow { name: name.clone() }),
        Some(i) => match prepare_run(name, &config.flows[i].1) {
            Ok(levels) => Ok((i, levels)),
            Err(e) => Err(e),
        },
    }
}

} // verus!
