use fleet::config::{ActionDef, ConditionDef, FleetConfig, FlowDef, StepDef};
use fleet::dag::topo_levels;
use fleet::engine::{
    action_kind, execution_plan, prepare_named, prepare_run, FlowOutcome, FlowRun, Next,
    StepState,
};
use fleet::flow::{validate, FlowError};

fn step(id: &str, deps: &[&str]) -> StepDef {
    StepDef {
        id: id.to_string(),
        action: ActionDef::Build { show_trace: false },
        targets: Vec::new(),
        depends_on: deps.iter().map(|d| d.to_string()).collect(),
        condition: None,
    }
}

fn flow(steps: Vec<StepDef>) -> FlowDef {
    FlowDef { description: "test".to_string(), steps }
}

fn deploy_all() -> FlowDef {
    flow(vec![step("build", &[]), step("diff", &["build"]), step("deploy", &["diff"])])
}

#[test]
fn deploy_all_levels_in_order() {
    let f = deploy_all();
    let v = validate(&f).ok().expect("valid flow");
    assert_eq!(v.deps, vec![vec![], vec![0], vec![1]]);
    let levels = topo_levels(3, &v.deps);
    assert_eq!(levels, vec![vec![0], vec![1], vec![2]]);
}

#[test]
fn deploy_all_cycle_is_reported() {
    let mut f = deploy_all();
    f.steps[0].depends_on.push("deploy".to_string());
    match validate(&f) {
        Err(FlowError::CycleDetected { path }) => {
            assert_eq!(path, vec!["build", "deploy", "diff", "build"]);
        }
        _ => panic!("expected a cycle"),
    }
}

#[test]
fn self_dependency_is_a_cycle() {
    let f = flow(vec![step("a", &["a"])]);
    match validate(&f) {
        Err(FlowError::CycleDetected { path }) => assert_eq!(path, vec!["a", "a"]),
        _ => panic!("expected a cycle"),
    }
}

#[test]
fn duplicate_step_names_both_positions() {
    let f = flow(vec![step("a", &[]), step("b", &[]), step("a", &[])]);
    match validate(&f) {
        Err(FlowError::DuplicateStep { id, first, second }) => {
            assert_eq!(id, "a");
            assert_eq!(first, 0);
            assert_eq!(second, 2);
        }
        _ => panic!("expected a duplicate"),
    }
}

#[test]
fn unknown_dependency_names_step_and_missing_id() {
    let f = flow(vec![step("a", &[]), step("x", &["a", "nope"])]);
    match validate(&f) {
        Err(FlowError::UnknownDependency { step, dependency }) => {
            assert_eq!(step, "x");
            assert_eq!(dependency, "nope");
        }
        _ => panic!("expected an unknown dependency"),
    }
}

#[test]
fn diamond_levels() {
    let f = flow(vec![
        step("d", &["b", "c"]),
        step("b", &["a"]),
        step("c", &["a"]),
        step("a", &[]),
    ]);
    let v = validate(&f).ok().expect("valid flow");
    let levels = topo_levels(4, &v.deps);
    assert_eq!(levels, vec![vec![3], vec![1, 2], vec![0]]);
}

#[test]
fn empty_flow_has_no_levels() {
    let f = flow(vec![]);
    let levels = prepare_run(&"empty".to_string(), &f).ok().expect("valid flow");
    assert!(levels.is_empty());
}

#[test]
fn topo_levels_leaves_out_steps_on_a_cycle() {
    let deps = vec![vec![], vec![2], vec![1], vec![0]];
    assert_eq!(topo_levels(4, &deps), vec![vec![0], vec![3]]);
}

#[test]
fn preparing_twice_gives_the_same_levels() {
    let f = flow(vec![step("a", &[]), step("b", &["a"]), step("c", &[]), step("d", &["b", "c"])]);
    let name = "f".to_string();
    let first = prepare_run(&name, &f).ok().expect("valid flow");
    let second = prepare_run(&name, &f).ok().expect("valid flow");
    assert_eq!(first, second);
    assert_eq!(first, vec![vec![0, 2], vec![1], vec![3]]);
}

#[test]
fn unknown_flow_is_reported() {
    let config = FleetConfig::default();
    match prepare_named(&config, &"missing".to_string()) {
        Err(FlowError::UnknownFlow { name }) => assert_eq!(name, "missing"),
        _ => panic!("expected an unknown flow"),
    }
}

#[test]
fn named_flow_is_found_and_prepared() {
    let mut config = FleetConfig::default();
    config.flows.push(("other".to_string(), flow(vec![step("x", &[])])));
    config.flows.push(("deploy-all".to_string(), deploy_all()));
    let (i, levels) = prepare_named(&config, &"deploy-all".to_string()).ok().expect("found");
    assert_eq!(i, 1);
    assert_eq!(levels, vec![vec![0], vec![1], vec![2]]);
}

#[test]
fn dry_run_plan_lists_every_step() {
    let mut f = deploy_all();
    f.steps[1].targets = vec!["web1".to_string(), "web2".to_string()];
    f.steps[2].action = ActionDef::Deploy { show_trace: false, dry_run: false };
    f.steps[2].condition = Some(ConditionDef { command: "true".to_string() });
    let levels = prepare_run(&"deploy-all".to_string(), &f).ok().expect("valid flow");
    let plan = execution_plan(&f, &levels);
    assert_eq!(plan.len(), 3);
    assert_eq!(plan[0][0].step, 0);
    assert_eq!(plan[0][0].action, "build");
    assert_eq!(plan[0][0].targets, "(inherit CLI targets)");
    assert!(!plan[0][0].has_condition);
    assert_eq!(plan[1][0].targets, "web1, web2");
    assert_eq!(plan[2][0].action, "deploy");
    assert!(plan[2][0].has_condition);
}

#[test]
fn action_kinds_are_named() {
    assert_eq!(action_kind(&ActionDef::Diff), "diff");
    assert_eq!(action_kind(&ActionDef::Exec { command: vec![] }), "exec");
    assert_eq!(action_kind(&ActionDef::DarwinRebuild { show_trace: true }), "darwin-rebuild");
    assert_eq!(action_kind(&ActionDef::HomeManagerRebuild { show_trace: false }), "home-manager-rebuild");
    assert_eq!(action_kind(&ActionDef::FlakeUpdate { inputs: vec![] }), "flake-update");
}

#[test]
fn skipped_condition_does_not_skip_dependents() {
    let mut f = flow(vec![step("check", &[]), step("after", &["check"])]);
    f.steps[0].condition = Some(ConditionDef { command: "false".to_string() });
    let levels = prepare_run(&"f".to_string(), &f).ok().expect("valid flow");
    let mut run = FlowRun::new(f.steps.clone(), &levels, vec!["web1".to_string()], false);
    match run.next() {
        Next::CheckCondition { step } => assert_eq!(step, 0),
        _ => panic!("expected a condition check"),
    }
    run.condition_result(false);
    assert_eq!(run.states[0], StepState::Skipped);
    match run.next() {
        Next::Dispatch { step, targets, select_all } => {
            assert_eq!(step, 1);
            assert_eq!(targets, vec!["web1".to_string()]);
            assert!(!select_all);
        }
        _ => panic!("expected the dependent to run"),
    }
    assert_eq!(run.states[1], StepState::Running);
    run.dispatch_result(true, String::new());
    match run.next() {
        Next::Finish { outcome: FlowOutcome::Completed } => {}
        _ => panic!("expected completion"),
    }
    assert_eq!(run.states, vec![StepState::Skipped, StepState::Succeeded]);
}

#[test]
fn met_condition_runs_the_step_with_its_own_targets() {
    let mut f = flow(vec![step("only", &[])]);
    f.steps[0].condition = Some(ConditionDef { command: "true".to_string() });
    f.steps[0].targets = vec!["db".to_string()];
    let levels = prepare_run(&"f".to_string(), &f).ok().expect("valid flow");
    let mut run = FlowRun::new(f.steps.clone(), &levels, vec!["web1".to_string()], true);
    assert!(matches!(run.next(), Next::CheckCondition { step: 0 }));
    run.condition_result(true);
    match run.next() {
        Next::Dispatch { step, targets, select_all } => {
            assert_eq!(step, 0);
            assert_eq!(targets, vec!["db".to_string()]);
            assert!(select_all);
        }
        _ => panic!("expected dispatch"),
    }
}

#[test]
fn failed_step_aborts_the_flow() {
    let f = flow(vec![step("a", &[]), step("b", &["a"])]);
    let levels = prepare_run(&"f".to_string(), &f).ok().expect("valid flow");
    let mut run = FlowRun::new(f.steps.clone(), &levels, vec![], false);
    assert!(matches!(run.next(), Next::Dispatch { step: 0, .. }));
    run.dispatch_result(false, "boom".to_string());
    match run.next() {
        Next::Finish { outcome: FlowOutcome::Aborted { step, reason } } => {
            assert_eq!(step, "a");
            assert_eq!(reason, "boom");
        }
        _ => panic!("expected abort"),
    }
    assert_eq!(run.states, vec![StepState::Failed, StepState::Pending]);
}
