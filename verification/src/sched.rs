//! The scheduler: drives the selected nodes to completion.
//!
//! Each node moves `Pending -> Ready -> Dispatched -> {Succeeded | Failed |
//! SkippedDueToFailedDependency}`. A node is never dispatched before all of
//! its selected dependencies have succeeded; when a node fails, everything
//! that waits on it (directly or through other nodes) is skipped without
//! being dispatched. A boolean-override script settles here, without ever
//! reaching an executor.

use vstd::prelude::*;
use vstd::pervasive::VecAdditionalExecFns;
use crate::service::{Script, ScriptView};

verus! {

/// The lifecycle of one node during a run.
#[derive(Debug, Clone, Copy, PartialEq, Eq, Structural)]
pub enum NodeState {
    /// Waiting on dependencies.
    Pending,
    /// All selected dependencies succeeded; queued for dispatch.
    Ready,
    /// Handed to an executor (or mid check-then-run sequence).
    Dispatched,
    /// Terminal: the node's work succeeded.
    Succeeded,
    /// Terminal: the node's work failed.
    Failed,
    /// Terminal: never dispatched, a dependency failed or was skipped.
    SkippedDueToFailedDependency,
}

/// How a selected node runs.
#[derive(Debug, Clone, Copy, PartialEq, Eq, Structural)]
pub enum RunMode {
    /// Run the run script outright.
    RunUnconditional,
    /// Run the check script; only on a check failure (change detected) run
    /// the run script.
    CheckThenMaybeRun,
}

/// Which script a dispatched check-then-run node is currently on.
#[derive(Debug, Clone, Copy, PartialEq, Eq, Structural)]
enum Phase {
    CheckPhase,
    RunPhase,
}

/// What the coordinator should do next.
#[derive(Debug)]
pub enum Action {
    /// Send this script to an idle executor for this node.
    Execute { node: usize, script: String },
    /// The node settled without an executor (fixed outcome or no script).
    Settled { node: usize, state: NodeState },
    /// No node is ready.
    Idle,
}

/// What a reported outcome led to.
#[derive(Debug)]
pub enum Report {
    /// The check detected a change: run this script next on the same slot.
    FollowUpRun { script: String },
    /// The node reached this terminal state.
    Settled { state: NodeState },
}

/// The state is terminal.
pub open spec fn is_terminal(st: NodeState) -> bool {
    st == NodeState::Succeeded || st == NodeState::Failed
        || st == NodeState::SkippedDueToFailedDependency
}

/// The state is past `Pending` without being skipped: it was or will be
/// dispatched, so it demands every selected dependency succeeded.
pub open spec fn is_advanced(st: NodeState) -> bool {
    st == NodeState::Ready || st == NodeState::Dispatched || st == NodeState::Succeeded || st
        == NodeState::Failed
}

/// Every selected dependency in `row` has succeeded.
pub open spec fn deps_succeeded(state: Seq<NodeState>, selected: Seq<bool>, row: Seq<usize>) -> bool {
    forall|k: int|
        0 <= k < row.len() && selected[row[k] as int] ==> state[#[trigger] row[k] as int]
            == NodeState::Succeeded
}

/// Some selected dependency in `row` failed or was skipped.
pub open spec fn has_bad_dep(state: Seq<NodeState>, selected: Seq<bool>, row: Seq<usize>) -> bool {
    exists|k: int|
        0 <= k < row.len() && selected[row[k] as int] && (state[#[trigger] row[k] as int]
            == NodeState::Failed || state[row[k] as int]
            == NodeState::SkippedDueToFailedDependency)
}

/// The per-node state-machine invariant: unselected nodes rest at `Pending`;
/// a node past `Pending` has all selected dependencies succeeded; a skipped
/// node has a failed or skipped dependency; a pending node has none.
pub open spec fn node_inv(
    state: Seq<NodeState>,
    selected: Seq<bool>,
    deps: Seq<Seq<usize>>,
    i: int,
) -> bool {
    &&& (!selected[i] ==> state[i] == NodeState::Pending)
    &&& (selected[i] && is_advanced(state[i]) ==> deps_succeeded(state, selected, deps[i]))
    &&& (selected[i] && state[i] == NodeState::SkippedDueToFailedDependency ==> has_bad_dep(
        state,
        selected,
        deps[i],
    ))
    &&& (selected[i] && state[i] == NodeState::Pending ==> !has_bad_dep(
        state,
        selected,
        deps[i],
    ))
}

/// The script dispatched for a node, given its scripts, mode and current
/// phase: the check text first for a check-then-run node, else the run text;
/// nothing when a fixed outcome settles the node without an executor.
pub open spec fn dispatch_script(
    check: ScriptView,
    run: ScriptView,
    mode: RunMode,
    phase_is_check: bool,
) -> Option<Seq<char>> {
    if mode == RunMode::CheckThenMaybeRun && phase_is_check {
        match check {
            ScriptView::Text(t) => Some(t),
            ScriptView::Fixed(b) => if b {
                None
            } else {
                match run {
                    ScriptView::Text(t) => Some(t),
                    _ => None,
                }
            },
            ScriptView::Unset => None,
        }
    } else {
        match run {
            ScriptView::Text(t) => Some(t),
            _ => None,
        }
    }
}

/// The terminal state a node settles into without an executor, when
/// `dispatch_script` gives no script. A fixed `true` succeeds, a fixed
/// `false` fails; a missing script counts as success (nothing to do); a
/// check that succeeds, or is missing, means no change: the node succeeds
/// without its run script.
pub open spec fn settled_state(
    check: ScriptView,
    run: ScriptView,
    mode: RunMode,
    phase_is_check: bool,
) -> NodeState {
    if mode == RunMode::CheckThenMaybeRun && phase_is_check {
        match check {
            ScriptView::Fixed(b) => if b {
                NodeState::Succeeded
            } else {
                match run {
                    ScriptView::Fixed(b2) => if b2 {
                        NodeState::Succeeded
                    } else {
                        NodeState::Failed
                    },
                    _ => NodeState::Succeeded,
                }
            },
            _ => NodeState::Succeeded,
        }
    } else {
        match run {
            ScriptView::Fixed(b) => if b {
                NodeState::Succeeded
            } else {
                NodeState::Failed
            },
            _ => NodeState::Succeeded,
        }
    }
}

/// A boolean-override run script decides a node without any executor:
/// whatever the check script, dispatch hands out no script text, and the
/// node settles as the fixed outcome says -- `false` fails, `true` succeeds.
pub proof fn lemma_override_settles(check: ScriptView, b: bool)
    ensures
        dispatch_script(check, ScriptView::Fixed(b), RunMode::RunUnconditional, true) is None,
        settled_state(check, ScriptView::Fixed(b), RunMode::RunUnconditional, true) == (if b {
            NodeState::Succeeded
        } else {
            NodeState::Failed
        }),
{
}

/// The count of pending entries; the skip-propagation loop drives it down.
pub open spec fn count_pending(s: Seq<NodeState>) -> nat
    decreases s.len(),
{
    if s.len() == 0 {
        0
    } else {
        count_pending(s.drop_last()) + if s.last() == NodeState::Pending {
            1nat
        } else {
            0nat
        }
    }
}

proof fn lemma_count_pending_update(s: Seq<NodeState>, i: int, st: NodeState)
    requires
        0 <= i < s.len(),
        s[i] == NodeState::Pending,
        st != NodeState::Pending,
    ensures
        count_pending(s.update(i, st)) + 1 == count_pending(s),
    decreases s.len(),
{
    let s2 = s.update(i, st);
    if i == s.len() - 1 {
        assert(s2.drop_last() =~= s.drop_last());
    } else {
        assert(s2.drop_last() =~= s.drop_last().update(i, st));
        assert(s.drop_last()[i] == s[i]);
        lemma_count_pending_update(s.drop_last(), i, st);
        assert(s2.last() == s.last());
    }
}

/// Whether every selected dependency in `row` has succeeded.
fn deps_ok(state: &Vec<NodeState>, selected: &Vec<bool>, row: &Vec<usize>) -> (r: bool)
    requires
        state@.len() == selected@.len(),
        forall|k: int| 0 <= k < row@.len() ==> #[trigger] row@[k] < state@.len(),
    ensures
        r == deps_succeeded(state@, selected@, row@),
{
    let m = row.len();
    let mut k: usize = 0;
    while k < m
        invariant
            k <= m,
            m == row@.len(),
            state@.len() == selected@.len(),
            forall|k2: int| 0 <= k2 < m ==> #[trigger] row@[k2] < state@.len(),
            forall|k2: int|
                0 <= k2 < k && selected@[row@[k2] as int] ==> state@[#[trigger] row@[k2] as int]
                    == NodeState::Succeeded,
        decreases m - k,
    {
        if selected[row[k]] && !(state[row[k]] == NodeState::Succeeded) {
            return false;
        }
        k = k + 1;
    }
    true
}

/// Whether some selected dependency in `row` failed or was skipped.
fn bad_dep(state: &Vec<NodeState>, selected: &Vec<bool>, row: &Vec<usize>) -> (r: bool)
    requires
        state@.len() == selected@.len(),
        forall|k: int| 0 <= k < row@.len() ==> #[trigger] row@[k] < state@.len(),
    ensures
        r == has_bad_dep(state@, selected@, row@),
{
    let m = row.len();
    let mut k: usize = 0;
    while k < m
        invariant
            k <= m,
            m == row@.len(),
            state@.len() == selected@.len(),
            forall|k2: int| 0 <= k2 < m ==> #[trigger] row@[k2] < state@.len(),
            forall|k2: int|
                0 <= k2 < k ==> !(selected@[row@[k2] as int] && (state@[
                    #[trigger] row@[k2] as int
                ] == NodeState::Failed || state@[row@[k2] as int]
                    == NodeState::SkippedDueToFailedDependency)),
        decreases m - k,
    {
        if selected[row[k]] && (state[row[k]] == NodeState::Failed || state[row[k]]
            == NodeState::SkippedDueToFailedDependency) {
            return true;
        }
        k = k + 1;
    }
    false
}


/// The scheduler state over the selected execution set.
///
/// Dispatch order is deterministic: the ready queue is first-in first-out,
/// and nodes that become ready together are queued in ascending node
/// position (the positions carry the node identifiers handed to `new`).
pub struct Scheduler {
    ids: Vec<String>,
    deps: Vec<Vec<usize>>,
    selected: Vec<bool>,
    mode: Vec<RunMode>,
    check_scripts: Vec<Script>,
    run_scripts: Vec<Script>,
    state: Vec<NodeState>,
    phase: Vec<Phase>,
    ready: Vec<usize>,
}

impl Scheduler {
    /// The per-node states.
    pub closed spec fn spec_state(&self) -> Seq<NodeState> {
        self.state@
    }

    /// Which nodes belong to the execution set.
    pub closed spec fn spec_selected(&self) -> Seq<bool> {
        self.selected@
    }

    /// The dependency lists, by node.
    pub closed spec fn spec_deps(&self) -> Seq<Seq<usize>> {
        self.deps.deep_view()
    }

    /// The run modes, by node.
    pub closed spec fn spec_mode(&self) -> Seq<RunMode> {
        self.mode@
    }

    /// The node identifiers.
    pub closed spec fn spec_ids(&self) -> Seq<Seq<char>> {
        self.ids.deep_view()
    }

    /// The queue of ready nodes, in dispatch order.
    pub closed spec fn spec_ready(&self) -> Seq<usize> {
        self.ready@
    }

    /// The check script of a node.
    pub closed spec fn spec_check(&self, i: int) -> ScriptView {
        self.check_scripts@[i]@
    }

    /// The run script of a node.
    pub closed spec fn spec_run(&self, i: int) -> ScriptView {
        self.run_scripts@[i]@
    }

    /// Whether a dispatched check-then-run node is still on its check.
    pub closed spec fn spec_phase_check(&self, i: int) -> bool {
        self.phase@[i] == Phase::CheckPhase
    }

    /// The state-machine well-formedness the scheduler preserves across all
    /// of its transitions.
    pub closed spec fn wf(&self) -> bool {
        let n = self.state@.len();
        let dv = self.deps.deep_view();
        &&& self.selected@.len() == n
        &&& self.mode@.len() == n
        &&& self.phase@.len() == n
        &&& self.deps@.len() == n
        &&& self.ids@.len() == n
        &&& self.check_scripts@.len() == n
        &&& self.run_scripts@.len() == n
        &&& forall|i: int, k: int|
            0 <= i < n && 0 <= k < dv[i].len() ==> #[trigger] dv[i][k] < n
        &&& forall|i: int|
            0 <= i < n ==> #[trigger] node_inv(self.state@, self.selected@, dv, i)
        &&& forall|i: int|
            0 <= i < n && self.selected@[i] && self.state@[i] == NodeState::Pending
                ==> !deps_succeeded(self.state@, self.selected@, #[trigger] dv[i])
        &&& forall|q: int|
            0 <= q < self.ready@.len() ==> #[trigger] self.ready@[q] < n && self.selected@[self.ready@[q] as int]
                && self.state@[self.ready@[q] as int] == NodeState::Ready
        &&& forall|q1: int, q2: int|
            0 <= q1 < q2 < self.ready@.len() ==> self.ready@[q1] != self.ready@[q2]
        &&& forall|i: int|
            0 <= i < n && #[trigger] self.state@[i] == NodeState::Ready ==> self.ready@.contains(
                i as usize,
            )
        &&& forall|i: int|
            0 <= i < n && #[trigger] self.state@[i] != NodeState::Dispatched ==> self.phase@[i]
                == Phase::CheckPhase
    }

    /// The number of nodes.
    pub fn node_count(&self) -> (n: usize)
        ensures
            n == self.spec_state().len(),
    {
        self.state.len()
    }

    /// The identifier of a node.
    pub fn id_of(&self, i: usize) -> (r: &String)
        requires
            self.wf(),
            i < self.spec_state().len(),
        ensures
            r@ == self.spec_ids()[i as int],
    {
        proof {
            assert(self.ids.deep_view()[i as int] == self.ids@[i as int]@);
        }
        &self.ids[i]
    }

    /// The current state of a node.
    pub fn node_state(&self, i: usize) -> (st: NodeState)
        requires
            i < self.spec_state().len(),
        ensures
            st == self.spec_state()[i as int],
    {
        self.state[i]
    }

    /// A node that failed, or was skipped for a failed dependency, blocks
    /// every selected node that depends on it: that node can never be ready,
    /// dispatched, succeeded or failed; it is pending at most until the
    /// failure is propagated, and skipped from then on.
    pub proof fn lemma_fail_fast(&self, i: int, j: int)
        requires
            self.wf(),
            self.spec_state().len() <= usize::MAX,
            0 <= i < self.spec_state().len(),
            0 <= j < self.spec_state().len(),
            self.spec_selected()[i],
            self.spec_selected()[j],
            self.spec_deps()[j].contains(i as usize),
            self.spec_state()[i] == NodeState::Failed || self.spec_state()[i]
                == NodeState::SkippedDueToFailedDependency,
        ensures
            self.spec_state()[j] == NodeState::SkippedDueToFailedDependency,
    {
        let dv = self.deps.deep_view();
        let row = dv[j];
        assert(node_inv(self.state@, self.selected@, dv, j));
        let k = choose|k: int| 0 <= k < row.len() && row[k] == i as usize;
        assert(row[k] as int == i);
        assert(self.selected@[row[k] as int] && (self.state@[row[k] as int] == NodeState::Failed
            || self.state@[row[k] as int] == NodeState::SkippedDueToFailedDependency));
        assert(has_bad_dep(self.state@, self.selected@, row));
        if is_advanced(self.state@[j]) {
            assert(deps_succeeded(self.state@, self.selected@, row));
            assert(self.state@[row[k] as int] == NodeState::Succeeded);
            assert(false);
        }
        if self.state@[j] == NodeState::Pending {
            assert(false);
        }
        if !self.selected@[j] {
            assert(false);
        }
    }

    /// Build the scheduler over the execution set: every selected node with
    /// no selected dependency starts ready, in ascending node order; every
    /// other node starts pending.
    pub fn new(
        ids: Vec<String>,
        deps: Vec<Vec<usize>>,
        selected: Vec<bool>,
        mode: Vec<RunMode>,
        check_scripts: Vec<Script>,
        run_scripts: Vec<Script>,
    ) -> (s: Scheduler)
        requires
            deps@.len() == ids@.len(),
            selected@.len() == ids@.len(),
            mode@.len() == ids@.len(),
            check_scripts@.len() == ids@.len(),
            run_scripts@.len() == ids@.len(),
            forall|i: int, k: int|
                0 <= i < deps.deep_view().len() && 0 <= k < deps.deep_view()[i].len()
                    ==> #[trigger] deps.deep_view()[i][k] < ids@.len(),
        ensures
            s.wf(),
            s.spec_state().len() == ids@.len(),
            s.spec_selected() == selected@,
            s.spec_mode() == mode@,
            s.spec_deps() == deps.deep_view(),
            s.spec_ids() == ids.deep_view(),
            forall|i: int|
                0 <= i < ids@.len() ==> #[trigger] s.spec_check(i) == check_scripts@[i]@,
            forall|i: int|
                0 <= i < ids@.len() ==> #[trigger] s.spec_run(i) == run_scripts@[i]@,
            forall|i: int|
                0 <= i < ids@.len() ==> #[trigger] s.spec_state()[i] == (if selected@[i]
                    && deps_succeeded(s.spec_state(), selected@, deps.deep_view()[i]) {
                    NodeState::Ready
                } else {
                    NodeState::Pending
                }),
    {
        let n = ids.len();
        let ghost dv = deps.deep_view();
        let mut state: Vec<NodeState> = Vec::new();
        let mut phase: Vec<Phase> = Vec::new();
        let mut i: usize = 0;
        while i < n
            invariant
                i <= n,
                state@.len() == i,
                phase@.len() == i,
                forall|j: int| 0 <= j < i ==> state@[j] == NodeState::Pending,
                forall|j: int| 0 <= j < i ==> phase@[j] == Phase::CheckPhase,
            decreases n - i,
        {
            state.push(NodeState::Pending);
            phase.push(Phase::CheckPhase);
            i = i + 1;
        }
        let mut ready: Vec<usize> = Vec::new();
        let mut i: usize = 0;
        while i < n
            invariant
                i <= n,
                n == ids@.len(),
                dv == deps.deep_view(),
                dv.len() == n,
                selected@.len() == n,
                state@.len() == n,
                forall|i2: int, k: int|
                    0 <= i2 < n && 0 <= k < dv[i2].len() ==> #[trigger] dv[i2][k] < n,
                forall|j: int|
                    0 <= j < n ==> #[trigger] state@[j] == NodeState::Pending || state@[j]
                        == NodeState::Ready,
                forall|j: int|
                    0 <= j < i ==> #[trigger] state@[j] == (if selected@[j] && deps_succeeded(
                        state@,
                        selected@,
                        dv[j],
                    ) {
                        NodeState::Ready
                    } else {
                        NodeState::Pending
                    }),
                forall|j: int| i <= j < n ==> #[trigger] state@[j] == NodeState::Pending,
                forall|q: int|
                    0 <= q < ready@.len() ==> #[trigger] ready@[q] < i && selected@[ready@[
                        q
                    ] as int] && state@[ready@[q] as int] == NodeState::Ready,
                forall|q1: int, q2: int|
                    0 <= q1 < q2 < ready@.len() ==> ready@[q1] != ready@[q2],
                forall|j: int|
                    0 <= j < n && #[trigger] state@[j] == NodeState::Ready ==> ready@.contains(
                        j as usize,
                    ),
            decreases n - i,
        {
            let ghost state0 = state@;
            let ghost ready0 = ready@;
            proof {
                assert(deps@[i as int]@ == dv[i as int]);
                assert forall|k: int|
                    0 <= k < deps@[i as int]@.len() implies #[trigger] deps@[i as int]@[k]
                    < state@.len() by {
                    assert(dv[i as int][k] < n);
                }
            }
            if selected[i] && deps_ok(&state, &selected, &deps[i]) {
                state.set(i, NodeState::Ready);
                ready.push(i);
                proof {
                    assert(ready@[ready@.len() - 1] == i as usize);
                    assert forall|j: int|
                        0 <= j < n && #[trigger] state@[j] == NodeState::Ready
                        implies ready@.contains(j as usize) by {
                        if j != i {
                            assert(state0[j] == NodeState::Ready);
                            let q = choose|q: int|
                                0 <= q < ready0.len() && ready0[q] == j as usize;
                            assert(ready@[q] == j as usize);
                        }
                    }
                    // a state that is Pending everywhere a dependency could
                    // point stays short of Succeeded under the update
                    assert forall|j: int|
                        0 <= j < i + 1 implies #[trigger] state@[j] == (if selected@[j]
                        && deps_succeeded(state@, selected@, dv[j]) {
                        NodeState::Ready
                    } else {
                        NodeState::Pending
                    }) by {
                        assert forall|k: int|
                            0 <= k < dv[j].len() && selected@[dv[j][k] as int] implies (state@[
                            #[trigger] dv[j][k] as int
                        ] == NodeState::Succeeded) == (state0[dv[j][k] as int]
                            == NodeState::Succeeded) by {}
                        if j < i {
                            if selected@[j] && deps_succeeded(state0, selected@, dv[j]) {
                                assert(deps_succeeded(state@, selected@, dv[j]));
                            } else if selected@[j] && deps_succeeded(state@, selected@, dv[j]) {
                                assert(deps_succeeded(state0, selected@, dv[j]));
                            }
                        } else {
                            assert(deps_succeeded(state0, selected@, dv[j]));
                            assert(deps_succeeded(state@, selected@, dv[j]));
                        }
                    }
                }
            } else {
                proof {
                    assert(deps@[i as int]@ == dv[i as int]);
                    assert forall|j: int|
                        0 <= j < i + 1 implies #[trigger] state@[j] == (if selected@[j]
                        && deps_succeeded(state@, selected@, dv[j]) {
                        NodeState::Ready
                    } else {
                        NodeState::Pending
                    }) by {}
                }
            }
            i = i + 1;
        }
        let s = Scheduler { ids, deps, selected, mode, check_scripts, run_scripts, state, phase, ready };
        proof {
            assert forall|i2: int|
                0 <= i2 < n implies #[trigger] node_inv(s.state@, s.selected@, dv, i2) by {
                if s.selected@[i2] && is_advanced(s.state@[i2]) {
                    assert(s.state@[i2] == NodeState::Ready);
                }
                if s.selected@[i2] && s.state@[i2] == NodeState::Pending {
                    if has_bad_dep(s.state@, s.selected@, dv[i2]) {
                        let k = choose|k: int|
                            0 <= k < dv[i2].len() && s.selected@[dv[i2][k] as int] && (s.state@[
                                #[trigger] dv[i2][k] as int
                            ] == NodeState::Failed || s.state@[dv[i2][k] as int]
                                == NodeState::SkippedDueToFailedDependency);
                        assert(false);
                    }
                }
            }
            assert(s.wf());
        }
        s
    }

    /// Mark a dispatched node succeeded and promote every pending node whose
    /// selected dependencies have now all succeeded, in ascending node order.
    fn settle_success(&mut self, node: usize)
        requires
            old(self).wf(),
            node < old(self).spec_state().len(),
            old(self).spec_selected()[node as int],
            old(self).spec_state()[node as int] == NodeState::Dispatched,
        ensures
            final(self).wf(),
            final(self).spec_state().len() == old(self).spec_state().len(),
            final(self).spec_selected() == old(self).spec_selected(),
            final(self).spec_mode() == old(self).spec_mode(),
            final(self).spec_deps() == old(self).spec_deps(),
            final(self).spec_ids() == old(self).spec_ids(),
            forall|i: int|
                0 <= i < old(self).spec_state().len() ==> #[trigger] final(self).spec_check(i)
                    == old(self).spec_check(i) && final(self).spec_run(i) == old(self).spec_run(i),
            final(self).spec_state()[node as int] == NodeState::Succeeded,
            forall|j: int|
                0 <= j < old(self).spec_state().len() && j != node ==> final(self).spec_state()[j]
                    == old(self).spec_state()[j] || (old(self).spec_state()[j]
                    == NodeState::Pending && #[trigger] final(self).spec_state()[j]
                    == NodeState::Ready),
    {
        let ghost dv = self.deps.deep_view();
        let n = self.state.len();
        self.state.set(node, NodeState::Succeeded);
        self.phase.set(node, Phase::CheckPhase);
        let ghost entry = self.state@;
        proof {
            assert forall|i: int|
                0 <= i < n implies #[trigger] node_inv(self.state@, self.selected@, dv, i) by {
                assert(node_inv(old(self).state@, old(self).selected@, dv, i));
                assert forall|x: int|
                    0 <= x < n && old(self).state@[x] == NodeState::Succeeded
                    implies self.state@[x] == NodeState::Succeeded by {}
                if self.selected@[i] && is_advanced(self.state@[i]) {
                    assert(is_advanced(old(self).state@[i]));
                    assert(deps_succeeded(old(self).state@, old(self).selected@, dv[i]));
                    assert forall|k: int|
                        0 <= k < dv[i].len() && self.selected@[dv[i][k] as int]
                        implies self.state@[#[trigger] dv[i][k] as int]
                        == NodeState::Succeeded by {}
                }
                if self.selected@[i] && self.state@[i] == NodeState::SkippedDueToFailedDependency {
                    let k = choose|k: int|
                        0 <= k < dv[i].len() && old(self).selected@[dv[i][k] as int] && (old(self).state@[#[trigger] dv[i][k] as int] == NodeState::Failed || old(self).state@[dv[i][k] as int] == NodeState::SkippedDueToFailedDependency);
                    assert(dv[i][k] as int != node as int);
                    assert(has_bad_dep(self.state@, self.selected@, dv[i]));
                }
                if self.selected@[i] && self.state@[i] == NodeState::Pending {
                    if has_bad_dep(self.state@, self.selected@, dv[i]) {
                        let k = choose|k: int|
                            0 <= k < dv[i].len() && self.selected@[dv[i][k] as int] && (self.state@[
                                #[trigger] dv[i][k] as int
                            ] == NodeState::Failed || self.state@[dv[i][k] as int]
                                == NodeState::SkippedDueToFailedDependency);
                        assert(dv[i][k] as int != node as int);
                        assert(has_bad_dep(old(self).state@, old(self).selected@, dv[i]));
                        assert(false);
                    }
                }
            }
        }
        let mut u: usize = 0;
        while u < n
            invariant
                u <= n,
                n == self.state@.len(),
                self.selected@.len() == n,
                self.mode@.len() == n,
                self.phase@.len() == n,
                self.deps@.len() == n,
                self.ids@.len() == n,
                self.check_scripts@.len() == n,
                self.run_scripts@.len() == n,
                dv == self.deps.deep_view(),
                self.selected == old(self).selected,
                self.mode == old(self).mode,
                self.deps == old(self).deps,
                self.ids == old(self).ids,
                self.check_scripts == old(self).check_scripts,
                self.run_scripts == old(self).run_scripts,
                forall|i: int, k: int|
                    0 <= i < n && 0 <= k < dv[i].len() ==> #[trigger] dv[i][k] < n,
                node < n,
                self.selected@[node as int],
                self.state@[node as int] == NodeState::Succeeded,
                forall|i: int|
                    0 <= i < n ==> #[trigger] node_inv(self.state@, self.selected@, dv, i),
                forall|i: int|
                    0 <= i < u && self.selected@[i] && self.state@[i] == NodeState::Pending
                        ==> !deps_succeeded(self.state@, self.selected@, #[trigger] dv[i]),
                forall|q: int|
                    0 <= q < self.ready@.len() ==> #[trigger] self.ready@[q] < n && self.selected@[
                        self.ready@[q] as int
                    ] && self.state@[self.ready@[q] as int] == NodeState::Ready,
                forall|q1: int, q2: int|
                    0 <= q1 < q2 < self.ready@.len() ==> self.ready@[q1] != self.ready@[q2],
                forall|i: int|
                    0 <= i < n && #[trigger] self.state@[i] == NodeState::Ready
                        ==> self.ready@.contains(i as usize),
                forall|i: int|
                    0 <= i < n && #[trigger] self.state@[i] != NodeState::Dispatched
                        ==> self.phase@[i] == Phase::CheckPhase,
                forall|j: int|
                    0 <= j < n && j != node ==> #[trigger] self.state@[j] == old(self).state@[j]
                        || (old(self).state@[j] == NodeState::Pending && self.state@[j]
                        == NodeState::Ready),
            decreases n - u,
        {
            let ghost state0 = self.state@;
            let ghost ready0 = self.ready@;
            proof {
                assert(self.deps@[u as int]@ == dv[u as int]);
                assert forall|k: int|
                    0 <= k < self.deps@[u as int]@.len() implies #[trigger] self.deps@[
                    u as int
                ]@[k] < self.state@.len() by {
                    assert(dv[u as int][k] < n);
                }
            }
            if self.selected[u] && self.state[u] == NodeState::Pending && deps_ok(
                &self.state,
                &self.selected,
                &self.deps[u],
            ) {
                self.state.set(u, NodeState::Ready);
                self.ready.push(u);
                proof {
                    assert(self.ready@[self.ready@.len() - 1] == u as usize);
                    assert forall|j: int|
                        0 <= j < n && #[trigger] self.state@[j] == NodeState::Ready
                        implies self.ready@.contains(j as usize) by {
                        if j != u {
                            assert(state0[j] == NodeState::Ready);
                            let q = choose|q: int|
                                0 <= q < ready0.len() && ready0[q] == j as usize;
                            assert(self.ready@[q] == j as usize);
                        }
                    }
                    assert forall|x: int|
                        0 <= x < n implies (self.state@[x] == NodeState::Succeeded) == (state0[x]
                        == NodeState::Succeeded) by {}
                    assert forall|i: int|
                        0 <= i < n implies #[trigger] node_inv(
                        self.state@,
                        self.selected@,
                        dv,
                        i,
                    ) by {
                        assert(node_inv(state0, self.selected@, dv, i));
                        if self.selected@[i] && is_advanced(self.state@[i]) {
                            if i == u {
                                assert(deps_succeeded(state0, self.selected@, dv[i]));
                            } else {
                                assert(is_advanced(state0[i]));
                                assert(deps_succeeded(state0, self.selected@, dv[i]));
                            }
                            assert forall|k: int|
                                0 <= k < dv[i].len() && self.selected@[dv[i][k] as int]
                                implies self.state@[#[trigger] dv[i][k] as int]
                                == NodeState::Succeeded by {}
                        }
                        if self.selected@[i] && self.state@[i]
                            == NodeState::SkippedDueToFailedDependency {
                            let k = choose|k: int|
                                0 <= k < dv[i].len() && self.selected@[dv[i][k] as int] && (state0[
                                    #[trigger] dv[i][k] as int
                                ] == NodeState::Failed || state0[dv[i][k] as int]
                                    == NodeState::SkippedDueToFailedDependency);
                            assert(dv[i][k] as int != u as int);
                            assert(has_bad_dep(self.state@, self.selected@, dv[i]));
                        }
                        if self.selected@[i] && self.state@[i] == NodeState::Pending {
                            if has_bad_dep(self.state@, self.selected@, dv[i]) {
                                let k = choose|k: int|
                                    0 <= k < dv[i].len() && self.selected@[dv[i][k] as int] && (
                                    self.state@[#[trigger] dv[i][k] as int] == NodeState::Failed
                                        || self.state@[dv[i][k] as int]
                                        == NodeState::SkippedDueToFailedDependency);
                                assert(dv[i][k] as int != u as int);
                                assert(has_bad_dep(state0, self.selected@, dv[i]));
                                assert(false);
                            }
                        }
                    }
                    assert forall|i: int|
                        0 <= i < u + 1 && self.selected@[i] && self.state@[i]
                        == NodeState::Pending implies !deps_succeeded(
                        self.state@,
                        self.selected@,
                        #[trigger] dv[i],
                    ) by {
                        assert(state0[i] == NodeState::Pending);
                        assert(!deps_succeeded(state0, self.selected@, dv[i]));
                        let k = choose|k: int|
                            0 <= k < dv[i].len() && self.selected@[dv[i][k] as int] && state0[
                                #[trigger] dv[i][k] as int
                            ] != NodeState::Succeeded;
                        assert(self.state@[dv[i][k] as int] != NodeState::Succeeded);
                    }
                }
            } else {
                proof {
                    assert forall|i: int|
                        0 <= i < u + 1 && self.selected@[i] && self.state@[i]
                        == NodeState::Pending implies !deps_succeeded(
                        self.state@,
                        self.selected@,
                        #[trigger] dv[i],
                    ) by {}
                }
            }
            u = u + 1;
        }
    }


    /// Mark a dispatched node failed and skip, transitively, every pending
    /// node that waits on a failed or skipped node.
    fn settle_failure(&mut self, node: usize)
        requires
            old(self).wf(),
            node < old(self).spec_state().len(),
            old(self).spec_selected()[node as int],
            old(self).spec_state()[node as int] == NodeState::Dispatched,
        ensures
            final(self).wf(),
            final(self).spec_state().len() == old(self).spec_state().len(),
            final(self).spec_selected() == old(self).spec_selected(),
            final(self).spec_mode() == old(self).spec_mode(),
            final(self).spec_deps() == old(self).spec_deps(),
            final(self).spec_ids() == old(self).spec_ids(),
            forall|i: int|
                0 <= i < old(self).spec_state().len() ==> #[trigger] final(self).spec_check(i)
                    == old(self).spec_check(i) && final(self).spec_run(i) == old(self).spec_run(i),
            final(self).spec_state()[node as int] == NodeState::Failed,
            forall|j: int|
                0 <= j < old(self).spec_state().len() && j != node ==> final(self).spec_state()[j]
                    == old(self).spec_state()[j] || (old(self).spec_state()[j]
                    == NodeState::Pending && #[trigger] final(self).spec_state()[j]
                    == NodeState::SkippedDueToFailedDependency),
    {
        let ghost dv = self.deps.deep_view();
        let n = self.state.len();
        self.state.set(node, NodeState::Failed);
        self.phase.set(node, Phase::CheckPhase);
        proof {
            assert forall|i: int|
                0 <= i < n && self.selected@[i] implies (is_advanced(self.state@[i])
                ==> deps_succeeded(self.state@, self.selected@, dv[i])) && (self.state@[i]
                == NodeState::SkippedDueToFailedDependency ==> has_bad_dep(
                self.state@,
                self.selected@,
                dv[i],
            )) by {
                assert(node_inv(old(self).state@, old(self).selected@, dv, i));
                if is_advanced(self.state@[i]) {
                    assert(is_advanced(old(self).state@[i]));
                    assert forall|k: int|
                        0 <= k < dv[i].len() && self.selected@[dv[i][k] as int]
                        implies self.state@[#[trigger] dv[i][k] as int]
                        == NodeState::Succeeded by {
                        assert(old(self).state@[dv[i][k] as int] == NodeState::Succeeded);
                        assert(dv[i][k] as int != node as int);
                    }
                }
                if self.state@[i] == NodeState::SkippedDueToFailedDependency {
                    let k = choose|k: int|
                        0 <= k < dv[i].len() && self.selected@[dv[i][k] as int] && (old(self).state@[#[trigger] dv[i][k] as int] == NodeState::Failed || old(self).state@[dv[i][k] as int] == NodeState::SkippedDueToFailedDependency);
                    assert(dv[i][k] as int != node as int);
                    assert(has_bad_dep(self.state@, self.selected@, dv[i]));
                }
            }
            assert forall|i: int|
                0 <= i < n && !self.selected@[i] implies #[trigger] self.state@[i]
                == NodeState::Pending by {
                assert(node_inv(old(self).state@, old(self).selected@, dv, i));
            }
            assert forall|i: int|
                0 <= i < n && self.selected@[i] && self.state@[i] == NodeState::Pending
                implies !deps_succeeded(self.state@, self.selected@, #[trigger] dv[i]) by {
                assert(old(self).state@[i] == NodeState::Pending);
                assert(!deps_succeeded(old(self).state@, old(self).selected@, dv[i]));
                let k = choose|k: int|
                    0 <= k < dv[i].len() && self.selected@[dv[i][k] as int] && old(self).state@[
                        #[trigger] dv[i][k] as int
                    ] != NodeState::Succeeded;
                assert(self.state@[dv[i][k] as int] != NodeState::Succeeded);
            }
        }
        let mut changed = true;
        while changed
            invariant
                n == self.state@.len(),
                self.selected@.len() == n,
                self.mode@.len() == n,
                self.phase@.len() == n,
                self.deps@.len() == n,
                self.ids@.len() == n,
                self.check_scripts@.len() == n,
                self.run_scripts@.len() == n,
                dv == self.deps.deep_view(),
                self.selected == old(self).selected,
                self.mode == old(self).mode,
                self.deps == old(self).deps,
                self.ids == old(self).ids,
                self.check_scripts == old(self).check_scripts,
                self.run_scripts == old(self).run_scripts,
                forall|i: int, k: int|
                    0 <= i < n && 0 <= k < dv[i].len() ==> #[trigger] dv[i][k] < n,
                node < n,
                self.state@[node as int] == NodeState::Failed,
                forall|i: int|
                    0 <= i < n && !self.selected@[i] ==> #[trigger] self.state@[i]
                        == NodeState::Pending,
                forall|i: int|
                    0 <= i < n && self.selected@[i] && is_advanced(#[trigger] self.state@[i])
                        ==> deps_succeeded(self.state@, self.selected@, dv[i]),
                forall|i: int|
                    0 <= i < n && self.selected@[i] && #[trigger] self.state@[i]
                        == NodeState::SkippedDueToFailedDependency ==> has_bad_dep(
                        self.state@,
                        self.selected@,
                        dv[i],
                    ),
                forall|i: int|
                    0 <= i < n && self.selected@[i] && self.state@[i] == NodeState::Pending
                        ==> !deps_succeeded(self.state@, self.selected@, #[trigger] dv[i]),
                !changed ==> forall|i: int|
                    0 <= i < n && self.selected@[i] && self.state@[i] == NodeState::Pending
                        ==> !has_bad_dep(self.state@, self.selected@, #[trigger] dv[i]),
                forall|q: int|
                    0 <= q < self.ready@.len() ==> #[trigger] self.ready@[q] < n && self.selected@[
                        self.ready@[q] as int
                    ] && self.state@[self.ready@[q] as int] == NodeState::Ready,
                forall|q1: int, q2: int|
                    0 <= q1 < q2 < self.ready@.len() ==> self.ready@[q1] != self.ready@[q2],
                forall|i: int|
                    0 <= i < n && #[trigger] self.state@[i] == NodeState::Ready
                        ==> self.ready@.contains(i as usize),
                forall|i: int|
                    0 <= i < n && #[trigger] self.state@[i] != NodeState::Dispatched
                        ==> self.phase@[i] == Phase::CheckPhase,
                forall|j: int|
                    0 <= j < n && j != node ==> #[trigger] self.state@[j] == old(self).state@[j]
                        || (old(self).state@[j] == NodeState::Pending && self.state@[j]
                        == NodeState::SkippedDueToFailedDependency),
            decreases count_pending(self.state@), (if changed { 1int } else { 0int }),
        {
            let ghost count_entry = count_pending(self.state@);
            changed = false;
            let mut u: usize = 0;
            while u < n
                invariant
                    u <= n,
                    n == self.state@.len(),
                    self.selected@.len() == n,
                    self.mode@.len() == n,
                    self.phase@.len() == n,
                    self.deps@.len() == n,
                    self.ids@.len() == n,
                    self.check_scripts@.len() == n,
                    self.run_scripts@.len() == n,
                    dv == self.deps.deep_view(),
                    self.selected == old(self).selected,
                    self.mode == old(self).mode,
                    self.deps == old(self).deps,
                    self.ids == old(self).ids,
                    self.check_scripts == old(self).check_scripts,
                    self.run_scripts == old(self).run_scripts,
                    forall|i: int, k: int|
                        0 <= i < n && 0 <= k < dv[i].len() ==> #[trigger] dv[i][k] < n,
                    node < n,
                    self.state@[node as int] == NodeState::Failed,
                    forall|i: int|
                        0 <= i < n && !self.selected@[i] ==> #[trigger] self.state@[i]
                            == NodeState::Pending,
                    forall|i: int|
                        0 <= i < n && self.selected@[i] && is_advanced(#[trigger] self.state@[i])
                            ==> deps_succeeded(self.state@, self.selected@, dv[i]),
                    forall|i: int|
                        0 <= i < n && self.selected@[i] && #[trigger] self.state@[i]
                            == NodeState::SkippedDueToFailedDependency ==> has_bad_dep(
                            self.state@,
                            self.selected@,
                            dv[i],
                        ),
                    forall|i: int|
                        0 <= i < n && self.selected@[i] && self.state@[i] == NodeState::Pending
                            ==> !deps_succeeded(self.state@, self.selected@, #[trigger] dv[i]),
                    !changed ==> forall|i: int|
                        0 <= i < u && self.selected@[i] && self.state@[i] == NodeState::Pending
                            ==> !has_bad_dep(self.state@, self.selected@, #[trigger] dv[i]),
                    forall|q: int|
                        0 <= q < self.ready@.len() ==> #[trigger] self.ready@[q] < n
                            && self.selected@[self.ready@[q] as int] && self.state@[self.ready@[
                            q
                        ] as int] == NodeState::Ready,
                    forall|q1: int, q2: int|
                        0 <= q1 < q2 < self.ready@.len() ==> self.ready@[q1] != self.ready@[q2],
                    forall|i: int|
                        0 <= i < n && #[trigger] self.state@[i] == NodeState::Ready
                            ==> self.ready@.contains(i as usize),
                    forall|i: int|
                        0 <= i < n && #[trigger] self.state@[i] != NodeState::Dispatched
                            ==> self.phase@[i] == Phase::CheckPhase,
                    forall|j: int|
                        0 <= j < n && j != node ==> #[trigger] self.state@[j] == old(self).state@[j] || (old(self).state@[j] == NodeState::Pending && self.state@[j]
                            == NodeState::SkippedDueToFailedDependency),
                    count_pending(self.state@) <= count_entry,
                    changed ==> count_pending(self.state@) < count_entry,
                decreases n - u,
            {
                proof {
                    assert(self.deps@[u as int]@ == dv[u as int]);
                    assert forall|k: int|
                        0 <= k < self.deps@[u as int]@.len() implies #[trigger] self.deps@[
                        u as int
                    ]@[k] < self.state@.len() by {
                        assert(dv[u as int][k] < n);
                    }
                }
                if self.selected[u] && self.state[u] == NodeState::Pending && bad_dep(
                    &self.state,
                    &self.selected,
                    &self.deps[u],
                ) {
                    let ghost state0 = self.state@;
                    self.state.set(u, NodeState::SkippedDueToFailedDependency);
                    changed = true;
                    proof {
                        lemma_count_pending_update(
                            state0,
                            u as int,
                            NodeState::SkippedDueToFailedDependency,
                        );
                        assert forall|x: int|
                            0 <= x < n implies (self.state@[x] == NodeState::Succeeded) == (
                        state0[x] == NodeState::Succeeded) by {}
                        assert forall|i: int|
                            0 <= i < n && self.selected@[i] && is_advanced(
                            #[trigger] self.state@[i],
                        ) implies deps_succeeded(self.state@, self.selected@, dv[i]) by {
                            assert(is_advanced(state0[i]));
                            assert(deps_succeeded(state0, self.selected@, dv[i]));
                            assert forall|k: int|
                                0 <= k < dv[i].len() && self.selected@[dv[i][k] as int]
                                implies self.state@[#[trigger] dv[i][k] as int]
                                == NodeState::Succeeded by {}
                        }
                        assert forall|i: int|
                            0 <= i < n && self.selected@[i] && #[trigger] self.state@[i]
                            == NodeState::SkippedDueToFailedDependency implies has_bad_dep(
                            self.state@,
                            self.selected@,
                            dv[i],
                        ) by {
                            if i == u {
                                let k = choose|k: int|
                                    0 <= k < dv[i].len() && self.selected@[dv[i][k] as int] && (
                                    state0[#[trigger] dv[i][k] as int] == NodeState::Failed
                                        || state0[dv[i][k] as int]
                                        == NodeState::SkippedDueToFailedDependency);
                                assert(dv[i][k] as int != u as int);
                                assert(has_bad_dep(self.state@, self.selected@, dv[i]));
                            } else {
                                assert(state0[i] == NodeState::SkippedDueToFailedDependency);
                                let k = choose|k: int|
                                    0 <= k < dv[i].len() && self.selected@[dv[i][k] as int] && (
                                    state0[#[trigger] dv[i][k] as int] == NodeState::Failed
                                        || state0[dv[i][k] as int]
                                        == NodeState::SkippedDueToFailedDependency);
                                if dv[i][k] as int == u as int {
                                    assert(self.state@[dv[i][k] as int]
                                        == NodeState::SkippedDueToFailedDependency);
                                }
                                assert(has_bad_dep(self.state@, self.selected@, dv[i]));
                            }
                        }
                        assert forall|i: int|
                            0 <= i < n && self.selected@[i] && self.state@[i]
                            == NodeState::Pending implies !deps_succeeded(
                            self.state@,
                            self.selected@,
                            #[trigger] dv[i],
                        ) by {
                            assert(state0[i] == NodeState::Pending);
                            assert(!deps_succeeded(state0, self.selected@, dv[i]));
                            let k = choose|k: int|
                                0 <= k < dv[i].len() && self.selected@[dv[i][k] as int] && state0[
                                    #[trigger] dv[i][k] as int
                                ] != NodeState::Succeeded;
                            assert(self.state@[dv[i][k] as int] != NodeState::Succeeded);
                        }
                    }
                }
                u = u + 1;
            }
        }
        proof {
            assert forall|i: int|
                0 <= i < n implies #[trigger] node_inv(self.state@, self.selected@, dv, i) by {}
        }
    }

    /// Pop the first ready node and dispatch it: hand back its script when
    /// a real script must run, or settle it at once when a fixed outcome (or
    /// no script) decides it without an executor.
    pub fn next_action(&mut self) -> (a: Action)
        requires
            old(self).wf(),
        ensures
            final(self).wf(),
            final(self).spec_state().len() == old(self).spec_state().len(),
            final(self).spec_selected() == old(self).spec_selected(),
            final(self).spec_mode() == old(self).spec_mode(),
            final(self).spec_deps() == old(self).spec_deps(),
            final(self).spec_ids() == old(self).spec_ids(),
            forall|i: int|
                0 <= i < old(self).spec_state().len() ==> #[trigger] final(self).spec_check(i)
                    == old(self).spec_check(i) && final(self).spec_run(i) == old(self).spec_run(i),
            match a {
                Action::Idle => *final(self) == *old(self) && forall|i: int|
                    0 <= i < old(self).spec_state().len() ==> old(self).spec_state()[i]
                        != NodeState::Ready,
                Action::Execute { node, script } => {
                    &&& old(self).spec_ready().len() > 0
                    &&& node == old(self).spec_ready()[0]
                    &&& node < old(self).spec_state().len()
                    &&& old(self).spec_state()[node as int] == NodeState::Ready
                    &&& old(self).spec_selected()[node as int]
                    &&& deps_succeeded(
                        old(self).spec_state(),
                        old(self).spec_selected(),
                        old(self).spec_deps()[node as int],
                    )
                    &&& final(self).spec_state()[node as int] == NodeState::Dispatched
                    &&& Some(script@) == dispatch_script(
                        old(self).spec_check(node as int),
                        old(self).spec_run(node as int),
                        old(self).spec_mode()[node as int],
                        true,
                    )
                    &&& forall|j: int|
                        0 <= j < old(self).spec_state().len() && j != node ==> final(self).spec_state()[j] == old(self).spec_state()[j]
                },
                Action::Settled { node, state: st } => {
                    &&& old(self).spec_ready().len() > 0
                    &&& node == old(self).spec_ready()[0]
                    &&& node < old(self).spec_state().len()
                    &&& old(self).spec_state()[node as int] == NodeState::Ready
                    &&& old(self).spec_selected()[node as int]
                    &&& deps_succeeded(
                        old(self).spec_state(),
                        old(self).spec_selected(),
                        old(self).spec_deps()[node as int],
                    )
                    &&& dispatch_script(
                        old(self).spec_check(node as int),
                        old(self).spec_run(node as int),
                        old(self).spec_mode()[node as int],
                        true,
                    ) is None
                    &&& st == settled_state(
                        old(self).spec_check(node as int),
                        old(self).spec_run(node as int),
                        old(self).spec_mode()[node as int],
                        true,
                    )
                    &&& final(self).spec_state()[node as int] == st
                    &&& forall|j: int|
                        0 <= j < old(self).spec_state().len() && j != node ==> final(self).spec_state()[j] == old(self).spec_state()[j] || (old(self).spec_state()[j]
                            == NodeState::Pending && (final(self).spec_state()[j]
                            == NodeState::Ready || final(self).spec_state()[j]
                            == NodeState::SkippedDueToFailedDependency))
                },
            },
    {
        let ghost dv = self.deps.deep_view();
        let n = self.state.len();
        if self.ready.len() == 0 {
            proof {
                assert forall|i: int|
                    0 <= i < n implies self.state@[i] != NodeState::Ready by {
                    if self.state@[i] == NodeState::Ready {
                        assert(self.ready@.contains(i as usize));
                    }
                }
            }
            return Action::Idle;
        }
        let node = self.ready.remove(0);
        let ghost ready0 = old(self).ready@;
        proof {
            assert(ready0[0] == node);
            assert(self.ready@ =~= ready0.subrange(1, ready0.len() as int));
            // a ready node is selected, and every selected dependency of it
            // has already succeeded
            assert(node_inv(old(self).state@, old(self).selected@, dv, node as int));
            assert(deps_succeeded(old(self).state@, old(self).selected@, dv[node as int]));
        }
        self.state.set(node, NodeState::Dispatched);
        proof {
            assert forall|i: int|
                0 <= i < n implies #[trigger] node_inv(self.state@, self.selected@, dv, i) by {
                assert(node_inv(old(self).state@, old(self).selected@, dv, i));
                assert forall|x: int|
                    0 <= x < n implies (self.state@[x] == NodeState::Succeeded) == (old(self).state@[x] == NodeState::Succeeded) by {}
                if self.selected@[i] && is_advanced(self.state@[i]) {
                    assert(is_advanced(old(self).state@[i]));
                    assert(deps_succeeded(old(self).state@, old(self).selected@, dv[i]));
                    assert forall|k: int|
                        0 <= k < dv[i].len() && self.selected@[dv[i][k] as int]
                        implies self.state@[#[trigger] dv[i][k] as int]
                        == NodeState::Succeeded by {}
                }
                if self.selected@[i] && self.state@[i] == NodeState::SkippedDueToFailedDependency {
                    let k = choose|k: int|
                        0 <= k < dv[i].len() && self.selected@[dv[i][k] as int] && (old(self).state@[#[trigger] dv[i][k] as int] == NodeState::Failed || old(self).state@[dv[i][k] as int] == NodeState::SkippedDueToFailedDependency);
                    assert(dv[i][k] as int != node as int);
                    assert(has_bad_dep(self.state@, self.selected@, dv[i]));
                }
                if self.selected@[i] && self.state@[i] == NodeState::Pending {
                    if has_bad_dep(self.state@, self.selected@, dv[i]) {
                        let k = choose|k: int|
                            0 <= k < dv[i].len() && self.selected@[dv[i][k] as int] && (self.state@[
                                #[trigger] dv[i][k] as int
                            ] == NodeState::Failed || self.state@[dv[i][k] as int]
                                == NodeState::SkippedDueToFailedDependency);
                        assert(dv[i][k] as int != node as int);
                        assert(has_bad_dep(old(self).state@, old(self).selected@, dv[i]));
                        assert(false);
                    }
                }
            }
            assert forall|i: int|
                0 <= i < n && self.selected@[i] && self.state@[i] == NodeState::Pending
                implies !deps_succeeded(self.state@, self.selected@, #[trigger] dv[i]) by {
                assert(old(self).state@[i] == NodeState::Pending);
                assert(!deps_succeeded(old(self).state@, old(self).selected@, dv[i]));
                let k = choose|k: int|
                    0 <= k < dv[i].len() && self.selected@[dv[i][k] as int] && old(self).state@[
                        #[trigger] dv[i][k] as int
                    ] != NodeState::Succeeded;
                assert(self.state@[dv[i][k] as int] != NodeState::Succeeded);
            }
            assert forall|i: int|
                0 <= i < n && #[trigger] self.state@[i] == NodeState::Ready
                implies self.ready@.contains(i as usize) by {
                assert(old(self).state@[i] == NodeState::Ready);
                assert(i != node as int);
                let q = choose|q: int| 0 <= q < ready0.len() && ready0[q] == i as usize;
                assert(q != 0);
                assert(self.ready@[q - 1] == i as usize);
            }
            assert(self.wf());
        }
        let is_check_mode = self.mode[node] == RunMode::CheckThenMaybeRun;
        if is_check_mode {
            let c = self.check_scripts[node].clone();
            match c {
                Script::Script(t) => {
                    return Action::Execute { node, script: t };
                }
                Script::Override(b) => {
                    if b {
                        self.settle_success(node);
                        return Action::Settled { node, state: NodeState::Succeeded };
                    } else {
                        self.phase.set(node, Phase::RunPhase);
                        proof {
                            assert(self.wf());
                        }
                    }
                }
                Script::Unset => {
                    self.settle_success(node);
                    return Action::Settled { node, state: NodeState::Succeeded };
                }
            }
        }
        let rsc = self.run_scripts[node].clone();
        match rsc {
            Script::Script(t) => Action::Execute { node, script: t },
            Script::Override(b) => {
                if b {
                    self.settle_success(node);
                    Action::Settled { node, state: NodeState::Succeeded }
                } else {
                    self.settle_failure(node);
                    Action::Settled { node, state: NodeState::Failed }
                }
            }
            Script::Unset => {
                self.settle_success(node);
                Action::Settled { node, state: NodeState::Succeeded }
            }
        }
    }

    /// Take the outcome an executor reported for a dispatched node. A failed
    /// check means a change was detected: the node's run script follows on
    /// the same executor slot; otherwise the node settles, propagating a
    /// failure to its transitive dependents.
    pub fn report(&mut self, node: usize, success: bool) -> (r: Report)
        requires
            old(self).wf(),
            node < old(self).spec_state().len(),
            old(self).spec_selected()[node as int],
            old(self).spec_state()[node as int] == NodeState::Dispatched,
        ensures
            final(self).wf(),
            final(self).spec_state().len() == old(self).spec_state().len(),
            final(self).spec_selected() == old(self).spec_selected(),
            final(self).spec_mode() == old(self).spec_mode(),
            final(self).spec_deps() == old(self).spec_deps(),
            final(self).spec_ids() == old(self).spec_ids(),
            forall|i: int|
                0 <= i < old(self).spec_state().len() ==> #[trigger] final(self).spec_check(i)
                    == old(self).spec_check(i) && final(self).spec_run(i) == old(self).spec_run(i),
            match r {
                Report::FollowUpRun { script } => {
                    &&& old(self).spec_mode()[node as int] == RunMode::CheckThenMaybeRun
                    &&& old(self).spec_phase_check(node as int)
                    &&& !success
                    &&& old(self).spec_run(node as int) == ScriptView::Text(script@)
                    &&& final(self).spec_state() == old(self).spec_state()
                    &&& final(self).spec_state()[node as int] == NodeState::Dispatched
                    &&& !final(self).spec_phase_check(node as int)
                },
                Report::Settled { state: st } => {
                    &&& final(self).spec_state()[node as int] == st
                    &&& st == (if success
                        || (old(self).spec_mode()[node as int] == RunMode::CheckThenMaybeRun
                        && old(self).spec_phase_check(node as int)) {
                        if success {
                            NodeState::Succeeded
                        } else {
                            // a failed check: the fixed or missing run script decides
                            settled_state(
                                ScriptView::Fixed(false),
                                old(self).spec_run(node as int),
                                RunMode::CheckThenMaybeRun,
                                true,
                            )
                        }
                    } else {
                        NodeState::Failed
                    })
                    &&& forall|j: int|
                        0 <= j < old(self).spec_state().len() && j != node ==> final(self).spec_state()[j] == old(self).spec_state()[j] || (old(self).spec_state()[j]
                            == NodeState::Pending && (final(self).spec_state()[j]
                            == NodeState::Ready || final(self).spec_state()[j]
                            == NodeState::SkippedDueToFailedDependency))
                },
            },
    {
        let was_check = self.mode[node] == RunMode::CheckThenMaybeRun && self.phase[node]
            == Phase::CheckPhase;
        if was_check && !success {
            self.phase.set(node, Phase::RunPhase);
            proof {
                assert(self.wf());
            }
            let rsc = self.run_scripts[node].clone();
            match rsc {
                Script::Script(t) => Report::FollowUpRun { script: t },
                Script::Override(b) => {
                    if b {
                        self.settle_success(node);
                        Report::Settled { state: NodeState::Succeeded }
                    } else {
                        self.settle_failure(node);
                        Report::Settled { state: NodeState::Failed }
                    }
                }
                Script::Unset => {
                    self.settle_success(node);
                    Report::Settled { state: NodeState::Succeeded }
                }
            }
        } else if success {
            self.settle_success(node);
            Report::Settled { state: NodeState::Succeeded }
        } else {
            self.settle_failure(node);
            Report::Settled { state: NodeState::Failed }
        }
    }

    /// Whether every selected node has reached a terminal state.
    pub fn is_complete(&self) -> (r: bool)
        requires
            self.wf(),
        ensures
            r == forall|i: int|
                0 <= i < self.spec_state().len() && self.spec_selected()[i] ==> is_terminal(
                    #[trigger] self.spec_state()[i],
                ),
    {
        let n = self.state.len();
        let mut i: usize = 0;
        while i < n
            invariant
                i <= n,
                n == self.state@.len(),
                self.selected@.len() == n,
                forall|j: int|
                    0 <= j < i && self.selected@[j] ==> is_terminal(#[trigger] self.state@[j]),
            decreases n - i,
        {
            if self.selected[i] && !(self.state[i] == NodeState::Succeeded || self.state[i]
                == NodeState::Failed || self.state[i]
                == NodeState::SkippedDueToFailedDependency) {
                proof {
                    assert(!is_terminal(self.spec_state()[i as int]));
                }
                return false;
            }
            i = i + 1;
        }
        true
    }

    /// Whether the run as a whole succeeded: every selected node succeeded.
    pub fn overall_success(&self) -> (r: bool)
        requires
            self.wf(),
        ensures
            r == forall|i: int|
                0 <= i < self.spec_state().len() && self.spec_selected()[i]
                    ==> #[trigger] self.spec_state()[i] == NodeState::Succeeded,
    {
        let n = self.state.len();
        let mut i: usize = 0;
        while i < n
            invariant
                i <= n,
                n == self.state@.len(),
                self.selected@.len() == n,
                forall|j: int|
                    0 <= j < i && self.selected@[j] ==> #[trigger] self.state@[j]
                        == NodeState::Succeeded,
            decreases n - i,
        {
            if self.selected[i] && !(self.state[i] == NodeState::Succeeded) {
                proof {
                    assert(self.spec_state()[i as int] != NodeState::Succeeded);
                }
                return false;
            }
            i = i + 1;
        }
        true
    }
}

} // verus!

