//! A run over a project: select the requested nodes, expand them across the
//! graph, and set up the scheduler that drives them.

use vstd::prelude::*;
use crate::error::{Error, ErrorView};
use crate::graph::{Graph, cycle_member, node_views, reaches};
use crate::project::Project;
use crate::sched::{RunMode, Scheduler};
use crate::service::{Script, ScriptView, ServiceStep, ServiceStepView};

verus! {

/// Options for running the project
pub struct RunOptions {
    /// array of step:service pairs that should be rebuilt as part of this run
    pub service_steps: Vec<String>,
    /// Gather changed services since this commit ID
    pub changed_since: Option<String>,
    /// Whether we should check and run dependencies
    pub run_deps: bool,
    /// Whether we should check and run reverse dependencies
    pub run_rdeps: bool,
    /// Number of threads for the run
    ///
    /// Will default to the number of CPUs
    pub workers: Option<usize>,
}

/// A node is seeded outright: its identifier is literally named in the run
/// request.
pub open spec fn explicit_seed(sv: Seq<ServiceStepView>, names: Seq<Seq<char>>, i: int) -> bool {
    names.contains(sv[i].name)
}

/// A node is seeded by the changed-services set: its service changed, its
/// step joins changed-since selection, and its policy is not `Skip`.
pub open spec fn changed_seed(sv: Seq<ServiceStepView>, changed: Seq<Seq<char>>, i: int) -> bool {
    &&& changed.contains(sv[i].service_name)
    &&& !sv[i].skip_run
    &&& sv[i].on_changed != crate::service::StepOnChanged::Skip
}

/// A node belongs to the seed set of a run.
pub open spec fn is_seed(
    sv: Seq<ServiceStepView>,
    names: Seq<Seq<char>>,
    changed: Seq<Seq<char>>,
    i: int,
) -> bool {
    explicit_seed(sv, names, i) || changed_seed(sv, changed, i)
}

/// The mode a selected node runs with: an explicitly named node runs
/// unconditionally; any other node keeps its own policy, checking first
/// exactly when its step's on-changed policy says to check first.
pub open spec fn mode_of(sv: Seq<ServiceStepView>, names: Seq<Seq<char>>, i: int) -> RunMode {
    if explicit_seed(sv, names, i) {
        RunMode::RunUnconditional
    } else if sv[i].on_changed == crate::service::StepOnChanged::CheckFirst {
        RunMode::CheckThenMaybeRun
    } else {
        RunMode::RunUnconditional
    }
}

/// Whether a vector of strings holds this string.
fn contains_string(v: &Vec<String>, s: &String) -> (r: bool)
    ensures
        r == v.deep_view().contains(s@),
{
    let n = v.len();
    let mut i: usize = 0;
    while i < n
        invariant
            i <= n,
            n == v@.len(),
            forall|j: int| 0 <= j < i ==> v.deep_view()[j] != s@,
        decreases n - i,
    {
        proof {
            assert(v.deep_view()[i as int] == v@[i as int]@);
        }
        if v[i] == *s {
            proof {
                assert(v.deep_view().contains(s@));
            }
            return true;
        }
        i = i + 1;
    }
    proof {
        assert(v.deep_view().len() == v@.len());
    }
    false
}

/// Compute which nodes a run executes, and how. The seed set holds every
/// node literally named in the request and every non-skipped step of a
/// changed service; a dependency expansion adds everything the seeds reach,
/// a reverse-dependency expansion adds everything that reaches a seed.
pub fn select(
    graph: &Graph,
    steps: &Vec<ServiceStep>,
    opts: &RunOptions,
    changed_services: &Vec<String>,
) -> (r: (Vec<bool>, Vec<RunMode>))
    requires
        steps@.len() == graph.spec_ids().len(),
        forall|i: int|
            0 <= i < steps@.len() ==> graph.spec_ids()[i] == node_views(steps@)[i].name,
    ensures
        r.0@.len() == steps@.len(),
        r.1@.len() == steps@.len(),
        forall|i: int|
            0 <= i < steps@.len() && is_seed(
                node_views(steps@),
                opts.service_steps.deep_view(),
                changed_services.deep_view(),
                i,
            ) ==> #[trigger] r.0@[i],
        forall|i: int|
            0 <= i < steps@.len() && #[trigger] r.0@[i] ==> {
                ||| is_seed(
                    node_views(steps@),
                    opts.service_steps.deep_view(),
                    changed_services.deep_view(),
                    i,
                )
                ||| (opts.run_deps && exists|j: int|
                    0 <= j < steps@.len() && is_seed(
                        node_views(steps@),
                        opts.service_steps.deep_view(),
                        changed_services.deep_view(),
                        j,
                    ) && reaches(graph.spec_deps(), j, i))
                ||| (opts.run_rdeps && exists|j: int|
                    0 <= j < steps@.len() && is_seed(
                        node_views(steps@),
                        opts.service_steps.deep_view(),
                        changed_services.deep_view(),
                        j,
                    ) && reaches(graph.spec_deps(), i, j))
            },
        opts.run_deps ==> forall|j: int, i: int|
            #![trigger reaches(graph.spec_deps(), j, i)]
            0 <= j < steps@.len() && 0 <= i < steps@.len() && is_seed(
                node_views(steps@),
                opts.service_steps.deep_view(),
                changed_services.deep_view(),
                j,
            ) && reaches(graph.spec_deps(), j, i) ==> r.0@[i],
        opts.run_rdeps ==> forall|j: int, i: int|
            #![trigger reaches(graph.spec_deps(), i, j)]
            0 <= j < steps@.len() && 0 <= i < steps@.len() && is_seed(
                node_views(steps@),
                opts.service_steps.deep_view(),
                changed_services.deep_view(),
                j,
            ) && reaches(graph.spec_deps(), i, j) ==> r.0@[i],
        forall|i: int|
            0 <= i < steps@.len() ==> #[trigger] r.1@[i] == mode_of(
                node_views(steps@),
                opts.service_steps.deep_view(),
                i,
            ),
{
    let ghost sv = node_views(steps@);
    let ghost names = opts.service_steps.deep_view();
    let ghost changed = changed_services.deep_view();
    let n = steps.len();
    let mut seeds: Vec<bool> = Vec::new();
    let mut mode: Vec<RunMode> = Vec::new();
    let mut i: usize = 0;
    while i < n
        invariant
            i <= n,
            n == steps@.len(),
            sv == node_views(steps@),
            names == opts.service_steps.deep_view(),
            changed == changed_services.deep_view(),
            seeds@.len() == i,
            mode@.len() == i,
            forall|j: int| 0 <= j < i ==> #[trigger] seeds@[j] == is_seed(sv, names, changed, j),
            forall|j: int| 0 <= j < i ==> #[trigger] mode@[j] == mode_of(sv, names, j),
        decreases n - i,
    {
        let step = &steps[i];
        proof {
            assert(sv[i as int] == steps@[i as int]@);
        }
        let named = contains_string(&opts.service_steps, &step.name);
        let is_changed = contains_string(changed_services, &step.service_name) && !step.skip_run
            && !(step.on_changed == crate::service::StepOnChanged::Skip);
        seeds.push(named || is_changed);
        if named {
            mode.push(RunMode::RunUnconditional);
        } else if step.on_changed == crate::service::StepOnChanged::CheckFirst {
            mode.push(RunMode::CheckThenMaybeRun);
        } else {
            mode.push(RunMode::RunUnconditional);
        }
        i = i + 1;
    }
    let ghost seedsv = seeds@;
    let deps_exp = if opts.run_deps {
        graph.transitive_dependencies(&seeds)
    } else {
        let mut none: Vec<bool> = Vec::new();
        let mut j: usize = 0;
        while j < n
            invariant
                j <= n,
                none@.len() == j,
                forall|q: int| 0 <= q < j ==> !none@[q],
            decreases n - j,
        {
            none.push(false);
            j = j + 1;
        }
        none
    };
    let rdeps_exp = if opts.run_rdeps {
        graph.transitive_dependents(&seeds)
    } else {
        let mut none: Vec<bool> = Vec::new();
        let mut j: usize = 0;
        while j < n
            invariant
                j <= n,
                none@.len() == j,
                forall|q: int| 0 <= q < j ==> !none@[q],
            decreases n - j,
        {
            none.push(false);
            j = j + 1;
        }
        none
    };
    let mut selected: Vec<bool> = Vec::new();
    let mut i: usize = 0;
    while i < n
        invariant
            i <= n,
            n == steps@.len(),
            n == graph.spec_ids().len(),
            sv == node_views(steps@),
            names == opts.service_steps.deep_view(),
            changed == changed_services.deep_view(),
            seeds@ == seedsv,
            seeds@.len() == n,
            deps_exp@.len() == n,
            rdeps_exp@.len() == n,
            forall|j: int| 0 <= j < n ==> #[trigger] seeds@[j] == is_seed(sv, names, changed, j),
            opts.run_deps ==> forall|j: int|
                0 <= j < n && #[trigger] deps_exp@[j] ==> seeds@[j] || exists|s: int|
                    0 <= s < n && seeds@[s] && reaches(graph.spec_deps(), s, j),
            !opts.run_deps ==> forall|j: int| 0 <= j < n ==> !#[trigger] deps_exp@[j],
            opts.run_deps ==> forall|j2: int, i2: int|
                #![trigger reaches(graph.spec_deps(), j2, i2)]
                0 <= j2 < n && 0 <= i2 < n && seeds@[j2] && reaches(graph.spec_deps(), j2, i2)
                    ==> deps_exp@[i2],
            opts.run_rdeps ==> forall|j: int|
                0 <= j < n && #[trigger] rdeps_exp@[j] ==> seeds@[j] || exists|s: int|
                    0 <= s < n && seeds@[s] && reaches(graph.spec_deps(), j, s),
            !opts.run_rdeps ==> forall|j: int| 0 <= j < n ==> !#[trigger] rdeps_exp@[j],
            opts.run_rdeps ==> forall|j2: int, i2: int|
                #![trigger reaches(graph.spec_deps(), i2, j2)]
                0 <= j2 < n && 0 <= i2 < n && seeds@[j2] && reaches(graph.spec_deps(), i2, j2)
                    ==> rdeps_exp@[i2],
            selected@.len() == i,
            forall|j: int|
                0 <= j < i ==> #[trigger] selected@[j] == (seeds@[j] || deps_exp@[j]
                    || rdeps_exp@[j]),
        decreases n - i,
    {
        selected.push(seeds[i] || deps_exp[i] || rdeps_exp[i]);
        i = i + 1;
    }
    proof {
        assert forall|i2: int|
            0 <= i2 < steps@.len() && #[trigger] selected@[i2] implies {
            ||| is_seed(sv, names, changed, i2)
            ||| (opts.run_deps && exists|j: int|
                0 <= j < steps@.len() && is_seed(sv, names, changed, j) && reaches(
                    graph.spec_deps(),
                    j,
                    i2,
                ))
            ||| (opts.run_rdeps && exists|j: int|
                0 <= j < steps@.len() && is_seed(sv, names, changed, j) && reaches(
                    graph.spec_deps(),
                    i2,
                    j,
                ))
        } by {
            if !is_seed(sv, names, changed, i2) {
                if deps_exp@[i2] {
                    let s = choose|s: int|
                        0 <= s < n && seeds@[s] && reaches(graph.spec_deps(), s, i2);
                    assert(is_seed(sv, names, changed, s));
                } else if rdeps_exp@[i2] {
                    let s = choose|s: int|
                        0 <= s < n && seeds@[s] && reaches(graph.spec_deps(), i2, s);
                    assert(is_seed(sv, names, changed, s));
                }
            }
        }
        if opts.run_deps {
            assert forall|j2: int, i2: int|
                #![trigger reaches(graph.spec_deps(), j2, i2)]
                0 <= j2 < steps@.len() && 0 <= i2 < steps@.len() && is_seed(
                sv,
                names,
                changed,
                j2,
            ) && reaches(graph.spec_deps(), j2, i2) implies selected@[i2] by {
                assert(seeds@[j2]);
                assert(deps_exp@[i2]);
            }
        }
        if opts.run_rdeps {
            assert forall|j2: int, i2: int|
                #![trigger reaches(graph.spec_deps(), i2, j2)]
                0 <= j2 < steps@.len() && 0 <= i2 < steps@.len() && is_seed(
                sv,
                names,
                changed,
                j2,
            ) && reaches(graph.spec_deps(), i2, j2) implies selected@[i2] by {
                assert(seeds@[j2]);
                assert(rdeps_exp@[i2]);
            }
        }
    }
    (selected, mode)
}

/// Copy the dependency rows of a graph.
fn clone_dep_rows(graph: &Graph) -> (r: Vec<Vec<usize>>)
    ensures
        r.deep_view() == graph.spec_deps(),
{
    let n = graph.node_count();
    proof {
        use_type_invariant(&*graph);
        graph.shape();
    }
    let mut r: Vec<Vec<usize>> = Vec::new();
    let mut i: usize = 0;
    while i < n
        invariant
            i <= n,
            n == graph.spec_ids().len(),
            graph.spec_deps().len() == n,
            r.deep_view().len() == i,
            forall|j: int| 0 <= j < i ==> #[trigger] r.deep_view()[j] == graph.spec_deps()[j],
        decreases n - i,
    {
        let row = graph.dep_row(i);
        let mut copy: Vec<usize> = Vec::new();
        let m = row.len();
        let mut k: usize = 0;
        while k < m
            invariant
                k <= m,
                m == row@.len(),
                copy@.len() == k,
                forall|q: int| 0 <= q < k ==> #[trigger] copy@[q] == row@[q],
            decreases m - k,
        {
            copy.push(row[k]);
            k = k + 1;
        }
        proof {
            assert(copy@ =~= row@);
        }
        let ghost prev = r.deep_view();
        r.push(copy);
        i = i + 1;
        proof {
            assert(r.deep_view().len() == r@.len());
            assert forall|j: int|
                0 <= j < i implies #[trigger] r.deep_view()[j] == graph.spec_deps()[j] by {
                assert(r.deep_view()[j] == r@[j]@);
                if j < i - 1 {
                    assert(prev[j] == r@[j]@);
                } else {
                    assert(r@[j]@ == row@);
                    assert(graph.spec_deps()[j] =~= row@);
                }
            }
        }
    }
    proof {
        assert(graph.spec_deps().len() == graph.spec_ids().len());
    }
    r
}

/// `st` is one of the project's resolved nodes: some cached service holds
/// it under some step name.
pub open spec fn project_node(p: crate::project::ProjectView, st: ServiceStepView) -> bool {
    exists|sname: Seq<char>, k: Seq<char>|
        #![trigger p.services[sname].steps[k]]
        {
            &&& p.services.contains_key(sname)
            &&& p.services[sname].steps.contains_key(k)
            &&& p.services[sname].steps[k] == st
        }
}

/// Some resolved node of the project carries this identifier and these two
/// scripts: what the scheduler knows of a node is project data.
pub open spec fn run_node_of(
    p: crate::project::ProjectView,
    id: Seq<char>,
    check: ScriptView,
    run_script: ScriptView,
) -> bool {
    exists|st: ServiceStepView|
        #[trigger] project_node(p, st) && st.name == id && st.check == check && st.run
            == run_script
}

/// Two distinct service/step slots of the project resolve to nodes with the
/// same identifier `name`: the evidence behind a duplicate-identifier error.
pub open spec fn duplicate_identifier(p: crate::project::ProjectView, name: Seq<char>) -> bool {
    exists|s1: Seq<char>, k1: Seq<char>, s2: Seq<char>, k2: Seq<char>|
        #![trigger p.services[s1].steps[k1], p.services[s2].steps[k2]]
        {
            &&& p.services.contains_key(s1)
            &&& p.services[s1].steps.contains_key(k1)
            &&& p.services.contains_key(s2)
            &&& p.services[s2].steps.contains_key(k2)
            &&& (s1 != s2 || k1 != k2)
            &&& p.services[s1].steps[k1].name == name
            &&& p.services[s2].steps[k2].name == name
        }
}

/// Some resolved node depends on `name`, and no resolved node carries that
/// identifier: the evidence behind a missing-dependency error.
pub open spec fn unresolvable_dependency(
    p: crate::project::ProjectView,
    name: Seq<char>,
) -> bool {
    &&& exists|st: ServiceStepView| #[trigger] project_node(p, st) && st.depends_on.contains(name)
    &&& forall|st: ServiceStepView| #[trigger] project_node(p, st) ==> st.name != name
}

/// The resolved node named `names[q]` has one of its dependencies among
/// `names`: the per-member evidence behind a dependency-cycle error.
pub open spec fn project_cycle_member(
    p: crate::project::ProjectView,
    names: Seq<Seq<char>>,
    q: int,
) -> bool {
    exists|st: ServiceStepView, k: int, q2: int|
        #![trigger st.depends_on[k], names[q2]]
        {
            &&& project_node(p, st)
            &&& st.name == names[q]
            &&& 0 <= k < st.depends_on.len()
            &&& 0 <= q2 < names.len()
            &&& st.depends_on[k] == names[q2]
        }
}

/// A resolved node named `id` belongs to a changed service, joins
/// changed-since selection, and its policy is not `Skip`.
pub open spec fn changed_target(
    p: crate::project::ProjectView,
    changed: Seq<Seq<char>>,
    id: Seq<char>,
) -> bool {
    exists|st: ServiceStepView|
        #[trigger] project_node(p, st) && st.name == id && changed.contains(st.service_name)
            && !st.skip_run && st.on_changed != crate::service::StepOnChanged::Skip
}

/// `st` occurs among the node views.
pub open spec fn among(nv: Seq<ServiceStepView>, st: ServiceStepView) -> bool {
    exists|i: int| 0 <= i < nv.len() && nv[i] == st
}

/// Gather every resolved node of every loaded service: the run's node set.
/// The result holds exactly the project's resolved nodes.
pub fn collect_nodes(project: &Project) -> (r: (Vec<ServiceStep>, Ghost<
    Seq<(Seq<char>, Seq<char>)>,
>))
    ensures
        forall|i: int|
            0 <= i < r.0@.len() ==> #[trigger] project_node(project@, node_views(r.0@)[i]),
        forall|st: ServiceStepView|
            #[trigger] project_node(project@, st) ==> among(node_views(r.0@), st),
        r.1@.len() == r.0@.len(),
        forall|i: int|
            0 <= i < r.1@.len() ==> {
                &&& project@.services.contains_key(#[trigger] r.1@[i].0)
                &&& project@.services[r.1@[i].0].steps.contains_key(r.1@[i].1)
                &&& project@.services[r.1@[i].0].steps[r.1@[i].1] == node_views(r.0@)[i]
            },
        forall|i: int, j: int| 0 <= i < j < r.1@.len() ==> r.1@[i] != r.1@[j],
{
    let services = project.get_all_services();
    let ghost skv = services.kv_seq();
    proof {
        use_type_invariant(services);
        services.kv_distinct();
    }
    let ghost mut prov: Seq<(Seq<char>, Seq<char>)> = Seq::empty();
    let mut nodes: Vec<ServiceStep> = Vec::new();
    let sn = services.len();
    let mut si: usize = 0;
    while si < sn
        invariant
            si <= sn,
            sn == services.spec_len(),
            skv == services.kv_seq(),
            services@ == project@.services,
            crate::strmap::distinct_keys(skv),
            forall|i: int|
                0 <= i < nodes@.len() ==> #[trigger] project_node(
                    project@,
                    node_views(nodes@)[i],
                ),
            forall|si2: int, k: Seq<char>|
                0 <= si2 < si && #[trigger] skv[si2].1.steps.contains_key(k) ==> among(
                    node_views(nodes@),
                    skv[si2].1.steps[k],
                ),
            prov.len() == nodes@.len(),
            forall|i: int|
                0 <= i < prov.len() ==> {
                    &&& project@.services.contains_key(#[trigger] prov[i].0)
                    &&& project@.services[prov[i].0].steps.contains_key(prov[i].1)
                    &&& project@.services[prov[i].0].steps[prov[i].1] == node_views(nodes@)[i]
                },
            forall|i: int, j: int| 0 <= i < j < prov.len() ==> prov[i] != prov[j],
            forall|i: int|
                0 <= i < prov.len() ==> exists|si2: int|
                    0 <= si2 < si && #[trigger] prov[i].0 == skv[si2].0,
        decreases sn - si,
    {
        let service = services.value_at(si);
        proof {
            crate::strmap::lemma_map_of_index(skv, si as int);
            assert(project@.services[skv[si as int].0] == skv[si as int].1);
        }
        let steps = service.all_steps();
        let ghost tkv = steps.kv_seq();
        proof {
            use_type_invariant(steps);
            steps.kv_distinct();
        }
        let tn = steps.len();
        let mut ti: usize = 0;
        while ti < tn
            invariant
                ti <= tn,
                si < sn,
                sn == services.spec_len(),
                skv == services.kv_seq(),
                services@ == project@.services,
                crate::strmap::distinct_keys(skv),
                project@.services.contains_key(skv[si as int].0),
                project@.services[skv[si as int].0] == skv[si as int].1,
                tn == steps.spec_len(),
                tkv == steps.kv_seq(),
                crate::strmap::distinct_keys(tkv),
                steps@ == skv[si as int].1.steps,
                forall|i: int|
                    0 <= i < nodes@.len() ==> #[trigger] project_node(
                        project@,
                        node_views(nodes@)[i],
                    ),
                forall|si2: int, k: Seq<char>|
                    0 <= si2 < si && #[trigger] skv[si2].1.steps.contains_key(k) ==> among(
                        node_views(nodes@),
                        skv[si2].1.steps[k],
                    ),
                forall|ti2: int|
                    0 <= ti2 < ti ==> among(node_views(nodes@), #[trigger] tkv[ti2].1),
                prov.len() == nodes@.len(),
                forall|i: int|
                    0 <= i < prov.len() ==> {
                        &&& project@.services.contains_key(#[trigger] prov[i].0)
                        &&& project@.services[prov[i].0].steps.contains_key(prov[i].1)
                        &&& project@.services[prov[i].0].steps[prov[i].1] == node_views(nodes@)[i]
                    },
                forall|i: int, j: int| 0 <= i < j < prov.len() ==> prov[i] != prov[j],
                forall|i: int|
                    0 <= i < prov.len() ==> (exists|si2: int|
                        0 <= si2 < si && #[trigger] prov[i].0 == skv[si2].0) || (prov[i].0 == skv[
                        si as int
                    ].0 && exists|ti2: int| 0 <= ti2 < ti && prov[i].1 == #[trigger] tkv[ti2].0),
            decreases tn - ti,
        {
            let ghost prev = node_views(nodes@);
            let ghost prov0 = prov;
            nodes.push(steps.value_at(ti).clone());
            proof {
                prov = prov.push((skv[si as int].0, tkv[ti as int].0));
            }
            ti = ti + 1;
            proof {
                crate::strmap::lemma_map_of_index(tkv, ti - 1);
                let nv = node_views(nodes@);
                assert(nv.len() == nodes@.len());
                assert(nv[nv.len() - 1] == nodes@[nodes@.len() - 1]@);
                assert(nv[nv.len() - 1] == tkv[ti - 1].1);
                assert forall|j: int| 0 <= j < prev.len() implies nv[j] == prev[j] by {
                    assert(nv[j] == nodes@[j]@);
                }
                assert(skv[si as int].1.steps[tkv[ti - 1].0] == tkv[ti - 1].1);
                assert(project@.services[skv[si as int].0].steps[tkv[ti - 1].0] == tkv[
                    ti - 1
                ].1);
                assert forall|i: int|
                    0 <= i < nodes@.len() implies #[trigger] project_node(
                    project@,
                    node_views(nodes@)[i],
                ) by {
                    if i < prev.len() {
                        assert(project_node(project@, prev[i]));
                    } else {
                        assert(project_node(project@, nv[i]));
                    }
                }
                assert forall|si2: int, k: Seq<char>|
                    0 <= si2 < si && #[trigger] skv[si2].1.steps.contains_key(k) implies among(
                    nv,
                    skv[si2].1.steps[k],
                ) by {
                    let w = choose|w: int| 0 <= w < prev.len() && prev[w] == skv[si2].1.steps[k];
                    assert(nv[w] == prev[w]);
                }
                assert forall|ti2: int|
                    0 <= ti2 < ti implies among(nv, #[trigger] tkv[ti2].1) by {
                    if ti2 < ti - 1 {
                        let w = choose|w: int| 0 <= w < prev.len() && prev[w] == tkv[ti2].1;
                        assert(nv[w] == prev[w]);
                    } else {
                        assert(nv[nv.len() - 1] == tkv[ti2].1);
                    }
                }
                // the new provenance entry names a fresh service/step slot
                assert(prov[prov.len() - 1] == (skv[si as int].0, tkv[ti - 1].0));
                assert forall|i: int|
                    0 <= i < prov.len() implies {
                    &&& project@.services.contains_key(#[trigger] prov[i].0)
                    &&& project@.services[prov[i].0].steps.contains_key(prov[i].1)
                    &&& project@.services[prov[i].0].steps[prov[i].1] == nv[i]
                } by {
                    if i < prov.len() - 1 {
                        assert(prov[i] == prov0[i]);
                        assert(nv[i] == prev[i]);
                    }
                }
                assert forall|i: int, j: int|
                    0 <= i < j < prov.len() implies prov[i] != prov[j] by {
                    if j == prov.len() - 1 {
                        assert(prov[i] == prov0[i]);
                        if prov[i].0 == skv[si as int].0 {
                            let si2 = choose|si2: int|
                                0 <= si2 < si && prov0[i].0 == skv[si2].0;
                            if exists|ti2: int|
                                0 <= ti2 < ti - 1 && prov0[i].1 == #[trigger] tkv[ti2].0 {
                                let ti2 = choose|ti2: int|
                                    0 <= ti2 < ti - 1 && prov0[i].1 == #[trigger] tkv[ti2].0;
                                assert(tkv[ti2].0 != tkv[ti - 1].0);
                            } else {
                                assert(skv[si2].0 != skv[si as int].0);
                            }
                        }
                    }
                }
                assert forall|i: int|
                    0 <= i < prov.len() implies (exists|si2: int|
                    0 <= si2 < si && #[trigger] prov[i].0 == skv[si2].0) || (prov[i].0 == skv[
                    si as int
                ].0 && exists|ti2: int| 0 <= ti2 < ti && prov[i].1 == #[trigger] tkv[ti2].0) by {
                    if i < prov.len() - 1 {
                        assert(prov[i] == prov0[i]);
                    } else {
                        assert(prov[i].1 == tkv[ti - 1].0);
                    }
                }
            }
        }
        si = si + 1;
        proof {
            let nv = node_views(nodes@);
            assert forall|si2: int, k: Seq<char>|
                0 <= si2 < si && #[trigger] skv[si2].1.steps.contains_key(k) implies among(
                nv,
                skv[si2].1.steps[k],
            ) by {
                if si2 == si - 1 {
                    crate::strmap::lemma_map_of_contains(tkv, k);
                    let ti2 = choose|ti2: int| 0 <= ti2 < tkv.len() && tkv[ti2].0 == k;
                    crate::strmap::lemma_map_of_index(tkv, ti2);
                    assert(skv[si2].1.steps[k] == tkv[ti2].1);
                    assert(among(nv, tkv[ti2].1));
                }
            }
            assert forall|i: int|
                0 <= i < prov.len() implies exists|si2: int|
                0 <= si2 < si && #[trigger] prov[i].0 == skv[si2].0 by {
                if prov[i].0 == skv[si - 1].0 {
                    assert(prov[i].0 == skv[si - 1].0);
                }
            }
        }
    }
    proof {
        assert forall|st: ServiceStepView|
            #[trigger] project_node(project@, st) implies among(node_views(nodes@), st) by {
            let (sname, k) = choose|sname: Seq<char>, k: Seq<char>|
                #![trigger project@.services[sname].steps[k]]
                {
                    &&& project@.services.contains_key(sname)
                    &&& project@.services[sname].steps.contains_key(k)
                    &&& project@.services[sname].steps[k] == st
                };
            crate::strmap::lemma_map_of_contains(skv, sname);
            let si2 = choose|si2: int| 0 <= si2 < skv.len() && skv[si2].0 == sname;
            crate::strmap::lemma_map_of_index(skv, si2);
            assert(skv[si2].1 == project@.services[sname]);
            assert(skv[si2].1.steps.contains_key(k));
            assert(among(node_views(nodes@), skv[si2].1.steps[k]));
        }
    }
    (nodes, Ghost(prov))
}

/// Perform the planning part of a run over a project: gather every resolved
/// node of every loaded service, build the dependency graph, select the
/// requested nodes, and hand back the scheduler that will drive them. The
/// embedding program loads the services beforehand, computes the changed
/// services from the repository, and then drives the scheduler with its
/// worker pool.
pub fn run(project: &Project, opts: &RunOptions, changed_services: &Vec<String>) -> (r: Result<
    Scheduler,
    Error,
>)
    ensures
        match r {
            Ok(s) => {
                &&& s.wf()
                &&& forall|q: int|
                    #![trigger s.spec_ids()[q]]
                    0 <= q < s.spec_state().len() ==> run_node_of(
                        project@,
                        s.spec_ids()[q],
                        s.spec_check(q),
                        s.spec_run(q),
                    )
                &&& forall|st: ServiceStepView|
                    #[trigger] project_node(project@, st) ==> exists|q: int|
                        0 <= q < s.spec_state().len() && s.spec_ids()[q] == st.name
                &&& forall|q: int|
                    #![trigger s.spec_selected()[q]]
                    0 <= q < s.spec_state().len() && opts.service_steps.deep_view().contains(
                        s.spec_ids()[q],
                    ) ==> s.spec_selected()[q] && s.spec_mode()[q] == RunMode::RunUnconditional
                &&& forall|q: int|
                    #![trigger s.spec_selected()[q]]
                    0 <= q < s.spec_state().len() && changed_target(
                        project@,
                        changed_services.deep_view(),
                        s.spec_ids()[q],
                    ) ==> s.spec_selected()[q]
            },
            Err(e) => match e@ {
                ErrorView::DuplicateNode { name } => duplicate_identifier(project@, name),
                ErrorView::MissingDependency { name } => unresolvable_dependency(project@, name),
                ErrorView::DependencyCycle { names } => {
                    &&& names.len() > 0
                    &&& forall|q: int|
                        0 <= q < names.len() ==> #[trigger] project_cycle_member(
                            project@,
                            names,
                            q,
                        )
                },
                _ => false,
            },
        },
{
    // Gather the resolved nodes across every loaded service.
    let (nodes, prov) = collect_nodes(project);
    // The graph needs pairwise-distinct identifiers; a duplicate is a fatal
    // configuration error.
    let nn = nodes.len();
    let mut a: usize = 0;
    while a < nn
        invariant
            a <= nn,
            nn == nodes@.len(),
            forall|x: int, y: int|
                0 <= x < y < a ==> node_views(nodes@)[x].name != node_views(nodes@)[y].name,
            prov@.len() == nodes@.len(),
            forall|i: int|
                0 <= i < prov@.len() ==> {
                    &&& project@.services.contains_key(#[trigger] prov@[i].0)
                    &&& project@.services[prov@[i].0].steps.contains_key(prov@[i].1)
                    &&& project@.services[prov@[i].0].steps[prov@[i].1] == node_views(nodes@)[i]
                },
            forall|i: int, j: int| 0 <= i < j < prov@.len() ==> prov@[i] != prov@[j],
        decreases nn - a,
    {
        let mut b: usize = 0;
        while b < a
            invariant
                b <= a,
                a < nn,
                nn == nodes@.len(),
                forall|x: int, y: int|
                    0 <= x < y < a ==> node_views(nodes@)[x].name != node_views(nodes@)[y].name,
                forall|x: int|
                    0 <= x < b ==> node_views(nodes@)[x].name != node_views(nodes@)[a as int].name,
                prov@.len() == nodes@.len(),
                forall|i: int|
                    0 <= i < prov@.len() ==> {
                        &&& project@.services.contains_key(#[trigger] prov@[i].0)
                        &&& project@.services[prov@[i].0].steps.contains_key(prov@[i].1)
                        &&& project@.services[prov@[i].0].steps[prov@[i].1] == node_views(
                            nodes@,
                        )[i]
                    },
                forall|i: int, j: int| 0 <= i < j < prov@.len() ==> prov@[i] != prov@[j],
            decreases a - b,
        {
            if nodes[b].name == nodes[a].name {
                proof {
                    assert(node_views(nodes@)[b as int].name == nodes@[b as int]@.name);
                    assert(node_views(nodes@)[a as int].name == nodes@[a as int]@.name);
                    // two distinct provenance slots resolve to this identifier
                    let pv = prov@;
                    assert(pv[b as int] != pv[a as int]);
                    assert(project@.services[pv[b as int].0].steps[pv[b as int].1]
                        == node_views(nodes@)[b as int]);
                    assert(project@.services[pv[a as int].0].steps[pv[a as int].1]
                        == node_views(nodes@)[a as int]);
                    assert(duplicate_identifier(project@, nodes@[a as int]@.name));
                }
                return Err(Error::DuplicateNode { name: nodes[a].name.clone() });
            }
            proof {
                assert(node_views(nodes@)[b as int].name == nodes@[b as int]@.name);
                assert(node_views(nodes@)[a as int].name == nodes@[a as int]@.name);
            }
            b = b + 1;
        }
        a = a + 1;
    }
    let graph = match Graph::build(&nodes) {
        Ok(g) => g,
        Err(e) => {
            let ghost nv = node_views(nodes@);
            match &e {
                Error::MissingDependency { name } => {
                    proof {
                        let (i, k) = choose|i: int, k: int|
                            0 <= i < nodes@.len() && 0 <= k < nv[i].depends_on.len()
                                && #[trigger] nv[i].depends_on[k] == name@;
                        let st = nv[i];
                        assert(project_node(project@, st));
                        assert(st.depends_on[k] == name@);
                        assert(st.depends_on.contains(name@));
                        assert forall|st2: ServiceStepView|
                            #[trigger] project_node(project@, st2) implies st2.name != name@ by {
                            assert(among(nv, st2));
                            let w = choose|w: int| 0 <= w < nv.len() && nv[w] == st2;
                            assert(nv[w].name != name@);
                        }
                        assert(unresolvable_dependency(project@, name@));
                    }
                }
                Error::DependencyCycle { names } => {
                    proof {
                        let ns = names.deep_view();
                        assert forall|q: int|
                            0 <= q < ns.len() implies #[trigger] project_cycle_member(
                            project@,
                            ns,
                            q,
                        ) by {
                            assert(cycle_member(nv, ns, q));
                            let (i, k, q2) = choose|i: int, k: int, q2: int|
                                #![trigger nv[i].depends_on[k], ns[q2]]
                                {
                                    &&& 0 <= i < nv.len()
                                    &&& nv[i].name == ns[q]
                                    &&& 0 <= k < nv[i].depends_on.len()
                                    &&& 0 <= q2 < ns.len()
                                    &&& nv[i].depends_on[k] == ns[q2]
                                };
                            let st = nv[i];
                            assert(project_node(project@, st));
                            assert(st.depends_on[k] == ns[q2]);
                            assert(project_cycle_member(project@, ns, q));
                        }
                    }
                }
                _ => {
                    proof {
                        assert(false);
                    }
                }
            }
            return Err(e);
        }
    };
    let (selected, mode) = select(&graph, &nodes, opts, changed_services);
    // Assemble the scheduler's copies of the node data.
    let mut ids: Vec<String> = Vec::new();
    let mut checks: Vec<Script> = Vec::new();
    let mut runs: Vec<Script> = Vec::new();
    let mut i: usize = 0;
    while i < nn
        invariant
            i <= nn,
            nn == nodes@.len(),
            ids@.len() == i,
            checks@.len() == i,
            runs@.len() == i,
            ids.deep_view().len() == i,
            forall|j: int|
                0 <= j < i ==> #[trigger] ids.deep_view()[j] == node_views(nodes@)[j].name,
            forall|j: int| 0 <= j < i ==> #[trigger] checks@[j]@ == node_views(nodes@)[j].check,
            forall|j: int| 0 <= j < i ==> #[trigger] runs@[j]@ == node_views(nodes@)[j].run,
        decreases nn - i,
    {
        let ghost prev = ids.deep_view();
        ids.push(nodes[i].name.clone());
        checks.push(nodes[i].check.clone());
        runs.push(nodes[i].run.clone());
        i = i + 1;
        proof {
            assert(ids.deep_view().len() == ids@.len());
            assert forall|j: int|
                0 <= j < i implies #[trigger] ids.deep_view()[j] == node_views(nodes@)[j].name by {
                assert(ids.deep_view()[j] == ids@[j]@);
                if j < i - 1 {
                    assert(prev[j] == ids@[j]@);
                } else {
                    assert(node_views(nodes@)[j] == nodes@[j]@);
                }
            }
            assert(node_views(nodes@)[i - 1] == nodes@[i - 1]@);
        }
    }
    let deps = clone_dep_rows(&graph);
    proof {
        use_type_invariant(&graph);
        graph.shape();
        assert(graph.spec_ids().len() == nodes@.len());
        assert forall|i2: int, k: int|
            0 <= i2 < deps.deep_view().len() && 0 <= k < deps.deep_view()[i2].len()
            implies #[trigger] deps.deep_view()[i2][k] < ids@.len() by {
            assert(deps.deep_view()[i2] == graph.spec_deps()[i2]);
        }
    }
    let s = Scheduler::new(ids, deps, selected, mode, checks, runs);
    proof {
        let nv = node_views(nodes@);
        assert forall|q: int|
            #![trigger s.spec_ids()[q]]
            0 <= q < s.spec_state().len() implies run_node_of(
            project@,
            s.spec_ids()[q],
            s.spec_check(q),
            s.spec_run(q),
        ) by {
            assert(project_node(project@, nv[q]));
            assert(run_node_of(project@, nv[q].name, nv[q].check, nv[q].run));
            assert(s.spec_ids()[q] == nv[q].name);
            assert(s.spec_check(q) == nv[q].check);
            assert(s.spec_run(q) == nv[q].run);
        }
        assert forall|st: ServiceStepView|
            #[trigger] project_node(project@, st) implies exists|q: int|
            0 <= q < s.spec_state().len() && s.spec_ids()[q] == st.name by {
            assert(among(nv, st));
            let w = choose|w: int| 0 <= w < nv.len() && nv[w] == st;
            assert(s.spec_ids()[w] == st.name);
        }
        let names = opts.service_steps.deep_view();
        let changed = changed_services.deep_view();
        assert forall|q: int|
            #![trigger s.spec_selected()[q]]
            0 <= q < s.spec_state().len() && names.contains(s.spec_ids()[q])
            implies s.spec_selected()[q] && s.spec_mode()[q] == RunMode::RunUnconditional by {
            assert(s.spec_ids()[q] == nv[q].name);
            assert(explicit_seed(nv, names, q));
            assert(is_seed(nv, names, changed, q));
            assert(selected@[q]);
            assert(mode@[q] == mode_of(nv, names, q));
        }
        assert forall|q: int|
            #![trigger s.spec_selected()[q]]
            0 <= q < s.spec_state().len() && changed_target(project@, changed, s.spec_ids()[q])
            implies s.spec_selected()[q] by {
            let st = choose|st: ServiceStepView|
                #[trigger] project_node(project@, st) && st.name == s.spec_ids()[q]
                    && changed.contains(st.service_name) && !st.skip_run && st.on_changed
                    != crate::service::StepOnChanged::Skip;
            assert(among(nv, st));
            let w = choose|w: int| 0 <= w < nv.len() && nv[w] == st;
            assert(nv[w].name == nv[q].name);
            assert(w == q);
            assert(changed_seed(nv, changed, q));
            assert(is_seed(nv, names, changed, q));
            assert(selected@[q]);
        }
    }
    Ok(s)
}

} // verus!
