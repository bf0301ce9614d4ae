//! The dependency graph, the selector and the scheduler.

use orcs::{
    Action, Error, Graph, NodeState, Project, ProjectConfig, ProjectOptions, ProjectStepConfig,
    ProjectStepOnChanged, Report, RunMode, RunOptions, Scheduler, Script, ScriptConfig,
    ServiceConfig, ServiceStep, ServiceStepConfig, StepOnChanged, StringMap, run,
};

fn node(step: &str, service: &str, deps: Vec<&str>, check: Script, run_s: Script) -> ServiceStep {
    ServiceStep {
        name: format!("{}:{}", step, service),
        step_name: String::from(step),
        service_name: String::from(service),
        depends_on: deps.into_iter().map(String::from).collect(),
        skip_run: false,
        on_changed: StepOnChanged::Run,
        check,
        run: run_s,
    }
}

fn text(s: &str) -> Script {
    Script::Script(String::from(s))
}

#[test]
fn cycle_rejected_at_graph_construction() {
    // X -> Y -> X must fail graph construction, not scheduling
    let steps = vec![
        node("x", "s", vec!["y:s"], Script::Unset, Script::Unset),
        node("y", "s", vec!["x:s"], Script::Unset, Script::Unset),
    ];

    match Graph::build(&steps) {
        Err(Error::DependencyCycle { names }) => {
            assert!(names.contains(&String::from("x:s")));
            assert!(names.contains(&String::from("y:s")));
        }
        _ => assert!(false),
    }
}

#[test]
fn acyclic_graph_builds() {
    let steps = vec![
        node("a", "s", vec![], Script::Unset, Script::Unset),
        node("b", "s", vec!["a:s"], Script::Unset, Script::Unset),
        node("c", "s", vec!["b:s"], Script::Unset, Script::Unset),
    ];

    let graph = Graph::build(&steps).expect("failed to build the graph");
    assert_eq!(graph.node_count(), 3);
    assert_eq!(graph.id_of(0), "a:s");

    // the transitive dependencies of c are a and b
    let seeds = vec![false, false, true];
    let closure = graph.transitive_dependencies(&seeds);
    assert_eq!(closure, vec![true, true, true]);

    // the transitive dependents of a are b and c
    let seeds = vec![true, false, false];
    let closure = graph.transitive_dependents(&seeds);
    assert_eq!(closure, vec![true, true, true]);

    let seeds = vec![false, true, false];
    let closure = graph.transitive_dependencies(&seeds);
    assert_eq!(closure, vec![true, true, false]);
}

#[test]
fn missing_dependency_rejected() {
    let steps = vec![node("a", "s", vec!["ghost:s"], Script::Unset, Script::Unset)];

    match Graph::build(&steps) {
        Err(Error::MissingDependency { name }) => assert_eq!(name, "ghost:s"),
        _ => assert!(false),
    }
}

fn sched_of(nodes: Vec<ServiceStep>, mode: Vec<RunMode>) -> Scheduler {
    let graph = Graph::build(&nodes).expect("failed to build the graph");
    let n = nodes.len();
    let mut ids = Vec::new();
    let mut deps = Vec::new();
    let mut checks = Vec::new();
    let mut runs = Vec::new();
    for i in 0..n {
        ids.push(nodes[i].name.clone());
        deps.push(graph.dep_row(i).clone());
        checks.push(nodes[i].check.clone());
        runs.push(nodes[i].run.clone());
    }
    Scheduler::new(ids, deps, vec![true; n], mode, checks, runs)
}

#[test]
fn fail_fast_propagation() {
    // A -> B -> C (C depends on B depends on A): if A fails, both B and C
    // end skipped and neither is dispatched
    let nodes = vec![
        node("a", "s", vec![], Script::Unset, text("run a")),
        node("b", "s", vec!["a:s"], Script::Unset, text("run b")),
        node("c", "s", vec!["b:s"], Script::Unset, text("run c")),
    ];
    let mut s = sched_of(nodes, vec![RunMode::RunUnconditional; 3]);

    // only A is ready
    let a = s.next_action();
    match a {
        Action::Execute { node, script } => {
            assert_eq!(node, 0);
            assert_eq!(script, "run a");
        }
        _ => assert!(false),
    }
    // A fails: B and C are skipped without ever being dispatched
    match s.report(0, false) {
        Report::Settled { state } => assert_eq!(state, NodeState::Failed),
        _ => assert!(false),
    }
    assert_eq!(s.node_state(0), NodeState::Failed);
    assert_eq!(s.node_state(1), NodeState::SkippedDueToFailedDependency);
    assert_eq!(s.node_state(2), NodeState::SkippedDueToFailedDependency);
    // nothing else to dispatch
    match s.next_action() {
        Action::Idle => {}
        _ => assert!(false),
    }
    assert!(s.is_complete());
    assert!(!s.overall_success());
}

#[test]
fn example_run_two_services_concurrently() {
    // project step `build`, services `web` and `api`, no inter-dependencies:
    // both dispatch concurrently and both succeed when their scripts exit zero
    let nodes = vec![
        node("build", "web", vec![], Script::Unset, text("make web")),
        node("build", "api", vec![], Script::Unset, text("make api")),
    ];
    let mut s = sched_of(nodes, vec![RunMode::RunUnconditional; 2]);

    // two workers: both nodes are dispatched before either reports back
    let first = s.next_action();
    let second = s.next_action();
    match (first, second) {
        (
            Action::Execute { node: n1, script: s1 },
            Action::Execute { node: n2, script: s2 },
        ) => {
            assert_eq!(n1, 0);
            assert_eq!(s1, "make web");
            assert_eq!(n2, 1);
            assert_eq!(s2, "make api");
        }
        _ => assert!(false),
    }
    assert_eq!(s.node_state(0), NodeState::Dispatched);
    assert_eq!(s.node_state(1), NodeState::Dispatched);
    // completion order across parallel executors is not fixed: report the
    // second node first
    match s.report(1, true) {
        Report::Settled { state } => assert_eq!(state, NodeState::Succeeded),
        _ => assert!(false),
    }
    match s.report(0, true) {
        Report::Settled { state } => assert_eq!(state, NodeState::Succeeded),
        _ => assert!(false),
    }
    assert_eq!(s.node_state(0), NodeState::Succeeded);
    assert_eq!(s.node_state(1), NodeState::Succeeded);
    assert!(s.is_complete());
    assert!(s.overall_success());
}

#[test]
fn boolean_override_fails_without_executor() {
    // a step configured with `run = false` reports Failed without ever
    // reaching an executor
    let nodes = vec![node("build", "web", vec![], Script::Unset, Script::Override(false))];
    let mut s = sched_of(nodes, vec![RunMode::RunUnconditional]);

    match s.next_action() {
        Action::Settled { node, state } => {
            assert_eq!(node, 0);
            assert_eq!(state, NodeState::Failed);
        }
        // an Execute here would mean the executor collaborator was invoked
        _ => assert!(false),
    }
    assert_eq!(s.node_state(0), NodeState::Failed);
    assert!(s.is_complete());
    assert!(!s.overall_success());
}

#[test]
fn boolean_override_true_succeeds() {
    let nodes = vec![node("build", "web", vec![], Script::Unset, Script::Override(true))];
    let mut s = sched_of(nodes, vec![RunMode::RunUnconditional]);

    match s.next_action() {
        Action::Settled { node, state } => {
            assert_eq!(node, 0);
            assert_eq!(state, NodeState::Succeeded);
        }
        _ => assert!(false),
    }
    assert!(s.overall_success());
}

#[test]
fn check_then_run_on_check_failure() {
    // a check failure means "change detected": the run script follows on the
    // same executor slot
    let nodes = vec![node("build", "web", vec![], text("check web"), text("run web"))];
    let mut s = sched_of(nodes, vec![RunMode::CheckThenMaybeRun]);

    match s.next_action() {
        Action::Execute { node, script } => {
            assert_eq!(node, 0);
            assert_eq!(script, "check web");
        }
        _ => assert!(false),
    }
    match s.report(0, false) {
        Report::FollowUpRun { script } => assert_eq!(script, "run web"),
        _ => assert!(false),
    }
    match s.report(0, true) {
        Report::Settled { state } => assert_eq!(state, NodeState::Succeeded),
        _ => assert!(false),
    }
    assert!(s.overall_success());
}

#[test]
fn check_then_run_skips_run_on_check_success() {
    let nodes = vec![node("build", "web", vec![], text("check web"), text("run web"))];
    let mut s = sched_of(nodes, vec![RunMode::CheckThenMaybeRun]);

    match s.next_action() {
        Action::Execute { script, .. } => assert_eq!(script, "check web"),
        _ => assert!(false),
    }
    // check success: no change, the node succeeds without its run script
    match s.report(0, true) {
        Report::Settled { state } => assert_eq!(state, NodeState::Succeeded),
        _ => assert!(false),
    }
    assert!(s.overall_success());
}

#[test]
fn dependent_runs_after_dependency_succeeds() {
    let nodes = vec![
        node("a", "s", vec![], Script::Unset, text("run a")),
        node("b", "s", vec!["a:s"], Script::Unset, text("run b")),
    ];
    let mut s = sched_of(nodes, vec![RunMode::RunUnconditional; 2]);

    match s.next_action() {
        Action::Execute { node, .. } => assert_eq!(node, 0),
        _ => assert!(false),
    }
    // b is not ready while a is in flight
    match s.next_action() {
        Action::Idle => {}
        _ => assert!(false),
    }
    s.report(0, true);
    match s.next_action() {
        Action::Execute { node, script } => {
            assert_eq!(node, 1);
            assert_eq!(script, "run b");
        }
        _ => assert!(false),
    }
    s.report(1, true);
    assert!(s.overall_success());
}

fn demo_project() -> Project {
    let mut psteps: StringMap<ProjectStepConfig> = StringMap::new();
    psteps.insert(String::from("build"), ProjectStepConfig::default());
    psteps.insert(
        String::from("clean"),
        ProjectStepConfig { skip_run: true, ..Default::default() },
    );
    psteps.insert(
        String::from("lint"),
        ProjectStepConfig {
            on_changed: ProjectStepOnChanged::CheckFirst,
            ..Default::default()
        },
    );
    let mut project = Project::from_config(
        String::from("root"),
        ProjectConfig {
            name: String::from("proj"),
            steps: psteps,
            options: ProjectOptions::default(),
        },
    );
    for svc in ["web", "api"] {
        let mut steps: StringMap<ServiceStepConfig> = StringMap::new();
        steps.insert(
            String::from("build"),
            ServiceStepConfig {
                run: ScriptConfig::Multiline(format!("make {}", svc)),
                ..Default::default()
            },
        );
        steps.insert(
            String::from("clean"),
            ServiceStepConfig {
                run: ScriptConfig::Multiline(format!("clean {}", svc)),
                ..Default::default()
            },
        );
        steps.insert(
            String::from("lint"),
            ServiceStepConfig {
                check: ScriptConfig::Multiline(format!("lint-check {}", svc)),
                run: ScriptConfig::Multiline(format!("lint {}", svc)),
                ..Default::default()
            },
        );
        let config = ServiceConfig { steps, ..Default::default() };
        let service = project.load_service(svc, &config).expect("failed to resolve");
        project.insert_service(svc, service);
    }
    project.mark_all_services_loaded();
    project
}

#[test]
fn run_selects_explicit_targets() {
    let project = demo_project();
    let opts = RunOptions {
        service_steps: vec![String::from("build:web")],
        changed_since: None,
        run_deps: false,
        run_rdeps: false,
        workers: Some(2),
    };
    let changed: Vec<String> = Vec::new();

    let mut s = run(&project, &opts, &changed).expect("failed to plan the run");

    match s.next_action() {
        Action::Execute { node, script } => {
            assert_eq!(s.id_of(node), "build:web");
            assert_eq!(script, "make web");
        }
        _ => assert!(false),
    }
    // only the named node is selected
    match s.next_action() {
        Action::Idle => {}
        _ => assert!(false),
    }
}

#[test]
fn run_changed_since_selection() {
    // a changed service selects its steps: `build` (on_changed = run) runs
    // outright, `lint` (check_first) checks first, `clean` (skip_run) stays out
    let project = demo_project();
    let opts = RunOptions {
        service_steps: Vec::new(),
        changed_since: Some(String::from("HEAD~1")),
        run_deps: false,
        run_rdeps: false,
        workers: None,
    };
    let changed = vec![String::from("web")];

    let mut s = run(&project, &opts, &changed).expect("failed to plan the run");

    let mut executed: Vec<String> = Vec::new();
    loop {
        match s.next_action() {
            Action::Execute { node, script } => {
                executed.push(script.clone());
                s.report(node, true);
            }
            Action::Settled { .. } => {}
            Action::Idle => break,
        }
    }
    assert!(executed.contains(&String::from("make web")));
    // the check-first step ran its check script, not its run script
    assert!(executed.contains(&String::from("lint-check web")));
    assert!(!executed.contains(&String::from("lint web")));
    // skip_run steps never enter changed-since selection; the other service
    // is untouched
    assert!(!executed.contains(&String::from("clean web")));
    assert!(!executed.contains(&String::from("make api")));
    assert!(s.is_complete());
    assert!(s.overall_success());
}

#[test]
fn run_expands_dependencies() {
    // build:api depends on build:web through a service-level dependency;
    // selecting build:api with run_deps pulls build:web in first
    let mut psteps: StringMap<ProjectStepConfig> = StringMap::new();
    psteps.insert(String::from("build"), ProjectStepConfig::default());
    let mut project = Project::from_config(
        String::from("root"),
        ProjectConfig {
            name: String::from("proj"),
            steps: psteps,
            options: ProjectOptions::default(),
        },
    );
    let mut steps: StringMap<ServiceStepConfig> = StringMap::new();
    steps.insert(
        String::from("build"),
        ServiceStepConfig {
            run: ScriptConfig::Multiline(String::from("make web")),
            ..Default::default()
        },
    );
    let config = ServiceConfig { steps, ..Default::default() };
    let service = project.load_service("web", &config).expect("failed to resolve");
    project.insert_service("web", service);
    let mut steps: StringMap<ServiceStepConfig> = StringMap::new();
    steps.insert(
        String::from("build"),
        ServiceStepConfig {
            depends_on: vec![String::from("web")],
            run: ScriptConfig::Multiline(String::from("make api")),
            ..Default::default()
        },
    );
    let config = ServiceConfig { steps, ..Default::default() };
    let service = project.load_service("api", &config).expect("failed to resolve");
    project.insert_service("api", service);

    let opts = RunOptions {
        service_steps: vec![String::from("build:api")],
        changed_since: None,
        run_deps: true,
        run_rdeps: false,
        workers: None,
    };
    let changed: Vec<String> = Vec::new();
    let mut s = run(&project, &opts, &changed).expect("failed to plan the run");

    let mut order: Vec<String> = Vec::new();
    loop {
        match s.next_action() {
            Action::Execute { node, script } => {
                order.push(script.clone());
                s.report(node, true);
            }
            Action::Settled { .. } => {}
            Action::Idle => break,
        }
    }
    assert_eq!(order, vec![String::from("make web"), String::from("make api")]);
    assert!(s.overall_success());
}

#[test]
fn duplicate_node_rejected() {
    let mut project = demo_project();
    // inserting the same service under another key duplicates its node names
    let existing = {
        let mut steps: StringMap<ServiceStepConfig> = StringMap::new();
        steps.insert(
            String::from("build"),
            ServiceStepConfig {
                run: ScriptConfig::Multiline(String::from("make web")),
                ..Default::default()
            },
        );
        let config = ServiceConfig { steps, ..Default::default() };
        project.load_service("web", &config).expect("failed to resolve")
    };
    project.insert_service("web2", existing);
    let opts = RunOptions {
        service_steps: Vec::new(),
        changed_since: None,
        run_deps: false,
        run_rdeps: false,
        workers: None,
    };
    let changed: Vec<String> = Vec::new();

    match run(&project, &opts, &changed) {
        Err(Error::DuplicateNode { name }) => assert_eq!(name, "build:web"),
        _ => assert!(false),
    }
}

#[test]
fn run_rejects_cycle_before_scheduling() {
    // a dependency cycle between two services' build steps fails the run at
    // graph construction, naming the offending identifiers
    let mut psteps: StringMap<ProjectStepConfig> = StringMap::new();
    psteps.insert(String::from("build"), ProjectStepConfig::default());
    let mut project = Project::from_config(
        String::from("root"),
        ProjectConfig {
            name: String::from("proj"),
            steps: psteps,
            options: ProjectOptions::default(),
        },
    );
    for (svc, dep) in [("web", "api"), ("api", "web")] {
        let mut steps: StringMap<ServiceStepConfig> = StringMap::new();
        steps.insert(
            String::from("build"),
            ServiceStepConfig {
                depends_on: vec![String::from(dep)],
                run: ScriptConfig::Multiline(format!("make {}", svc)),
                ..Default::default()
            },
        );
        let config = ServiceConfig { steps, ..Default::default() };
        let service = project.load_service(svc, &config).expect("failed to resolve");
        project.insert_service(svc, service);
    }
    let opts = RunOptions {
        service_steps: Vec::new(),
        changed_since: None,
        run_deps: false,
        run_rdeps: false,
        workers: None,
    };
    let changed: Vec<String> = Vec::new();

    match run(&project, &opts, &changed) {
        Err(Error::DependencyCycle { names }) => {
            assert!(names.contains(&String::from("build:web")));
            assert!(names.contains(&String::from("build:api")));
        }
        _ => assert!(false),
    }
}

#[test]
fn run_rejects_unresolvable_dependency() {
    let mut psteps: StringMap<ProjectStepConfig> = StringMap::new();
    psteps.insert(String::from("build"), ProjectStepConfig::default());
    let mut project = Project::from_config(
        String::from("root"),
        ProjectConfig {
            name: String::from("proj"),
            steps: psteps,
            options: ProjectOptions::default(),
        },
    );
    let mut steps: StringMap<ServiceStepConfig> = StringMap::new();
    steps.insert(
        String::from("build"),
        ServiceStepConfig {
            depends_on: vec![String::from("ghost")],
            ..Default::default()
        },
    );
    let config = ServiceConfig { steps, ..Default::default() };
    let service = project.load_service("web", &config).expect("failed to resolve");
    project.insert_service("web", service);
    let opts = RunOptions {
        service_steps: Vec::new(),
        changed_since: None,
        run_deps: false,
        run_rdeps: false,
        workers: None,
    };
    let changed: Vec<String> = Vec::new();

    match run(&project, &opts, &changed) {
        Err(Error::MissingDependency { name }) => assert_eq!(name, "build:ghost"),
        _ => assert!(false),
    }
}
