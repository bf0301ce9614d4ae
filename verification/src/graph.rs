//! The dependency graph over every resolved node.
//!
//! Nodes are the `step:service` identifiers; edges are each node's resolved
//! `depends_on` list. Construction fails when a dependency names no node, or
//! when the dependency relation contains a cycle; a graph that was built
//! therefore carries a rank certificate: every edge leads to a node of
//! strictly smaller rank, so no cycle exists in any built graph.

use vstd::prelude::*;
use crate::error::{Error, ErrorView};
use crate::service::ServiceStep;

verus! {

/// `p` is a chain of dependency edges: consecutive entries are nodes, each
/// depending on the next.
pub open spec fn valid_path(deps: Seq<Seq<usize>>, p: Seq<int>) -> bool {
    &&& p.len() >= 1
    &&& forall|i: int| 0 <= i < p.len() ==> 0 <= #[trigger] p[i] < deps.len()
    &&& forall|i: int| #![trigger p[i]] 0 <= i < p.len() - 1 ==> deps[p[i]].contains(p[i + 1] as usize)
}

/// Node `to` is reachable from node `from` along one or more dependency
/// edges.
pub open spec fn reaches(deps: Seq<Seq<usize>>, from: int, to: int) -> bool {
    exists|p: Seq<int>|
        valid_path(deps, p) && p.len() >= 2 && p.first() == from && p.last() == to
}

/// The number of `true` entries.
pub open spec fn count_true(s: Seq<bool>) -> nat
    decreases s.len(),
{
    if s.len() == 0 {
        0
    } else {
        count_true(s.drop_last()) + if s.last() {
            1nat
        } else {
            0nat
        }
    }
}

proof fn lemma_count_false_zero(s: Seq<bool>)
    requires
        forall|i: int| 0 <= i < s.len() ==> !s[i],
    ensures
        count_true(s) == 0,
    decreases s.len(),
{
    if s.len() > 0 {
        assert(forall|i: int| 0 <= i < s.len() - 1 ==> s.drop_last()[i] == s[i]);
        lemma_count_false_zero(s.drop_last());
    }
}

proof fn lemma_count_true_le(s: Seq<bool>)
    ensures
        count_true(s) <= s.len(),
    decreases s.len(),
{
    if s.len() > 0 {
        lemma_count_true_le(s.drop_last());
    }
}

proof fn lemma_count_true_update(s: Seq<bool>, i: int)
    requires
        0 <= i < s.len(),
        !s[i],
    ensures
        count_true(s.update(i, true)) == count_true(s) + 1,
    decreases s.len(),
{
    let s2 = s.update(i, true);
    if i == s.len() - 1 {
        assert(s2.drop_last() =~= s.drop_last());
    } else {
        assert(s2.drop_last() =~= s.drop_last().update(i, true));
        assert(s.drop_last()[i] == s[i]);
        lemma_count_true_update(s.drop_last(), i);
        assert(s2.last() == s.last());
    }
}

/// Find the position of a name, or the length if there is none.
fn find_name(ids: &Vec<String>, name: &String) -> (r: usize)
    ensures
        r <= ids@.len(),
        r < ids@.len() ==> ids.deep_view()[r as int] == name@,
        r == ids@.len() ==> forall|j: int|
            0 <= j < ids@.len() ==> ids.deep_view()[j] != name@,
{
    let n = ids.len();
    let mut i: usize = 0;
    while i < n
        invariant
            i <= n,
            n == ids@.len(),
            forall|j: int| 0 <= j < i ==> ids.deep_view()[j] != name@,
        decreases n - i,
    {
        if ids[i] == *name {
            proof {
                assert(ids.deep_view()[i as int] == ids@[i as int]@);
            }
            return i;
        }
        proof {
            assert(ids.deep_view()[i as int] == ids@[i as int]@);
        }
        i = i + 1;
    }
    i
}

/// Whether a vector of indices holds a value.
fn contains_idx(v: &Vec<usize>, x: usize) -> (r: bool)
    ensures
        r == v@.contains(x),
{
    let n = v.len();
    let mut i: usize = 0;
    while i < n
        invariant
            i <= n,
            n == v@.len(),
            forall|j: int| 0 <= j < i ==> v@[j] != x,
        decreases n - i,
    {
        if v[i] == x {
            return true;
        }
        i = i + 1;
    }
    false
}

/// The dependency graph over all resolved nodes, with a topological-rank
/// certificate of acyclicity.
pub struct Graph {
    /// Node identifiers, pairwise distinct; indices into this vector are the
    /// node handles used everywhere else.
    ids: Vec<String>,
    /// `deps[i]`: the nodes `i` depends on, without duplicates.
    deps: Vec<Vec<usize>>,
    /// `rank[d] < rank[i]` for every dependency `d` of `i`.
    rank: Vec<usize>,
}

impl Graph {
    /// Structure every built graph carries: aligned lengths, in-range and
    /// duplicate-free edges, distinct identifiers, and the rank certificate.
    #[verifier::type_invariant]
    pub closed spec fn wf(&self) -> bool {
        &&& self.deps@.len() == self.ids@.len()
        &&& self.rank@.len() == self.ids@.len()
        &&& forall|i: int, j: int|
            0 <= i < j < self.ids@.len() ==> self.ids@[i]@ != self.ids@[j]@
        &&& forall|i: int, k: int|
            0 <= i < self.deps@.len() && 0 <= k < self.deps@[i]@.len()
                ==> #[trigger] self.deps@[i]@[k] < self.ids@.len()
        &&& forall|i: int, a: int, b: int|
            0 <= i < self.deps@.len() && 0 <= a < b < self.deps@[i]@.len() ==> self.deps@[i]@[a]
                != self.deps@[i]@[b]
        &&& forall|i: int, k: int|
            0 <= i < self.deps@.len() && 0 <= k < self.deps@[i]@.len()
                ==> self.rank@[#[trigger] self.deps@[i]@[k] as int] < self.rank@[i]
    }

    /// The node identifiers, in node order.
    pub closed spec fn spec_ids(&self) -> Seq<Seq<char>> {
        self.ids.deep_view()
    }

    /// The dependency lists, in node order.
    pub closed spec fn spec_deps(&self) -> Seq<Seq<usize>> {
        self.deps.deep_view()
    }

    /// The number of nodes.
    pub fn node_count(&self) -> (n: usize)
        ensures
            n == self.spec_ids().len(),
    {
        self.ids.len()
    }

    /// The identifier of a node.
    pub fn id_of(&self, i: usize) -> (r: &String)
        requires
            i < self.spec_ids().len(),
        ensures
            r@ == self.spec_ids()[i as int],
    {
        proof {
            use_type_invariant(&*self);
            assert(self.ids.deep_view()[i as int] == self.ids@[i as int]@);
        }
        &self.ids[i]
    }

    /// Build the dependency graph over every resolved node: one node per
    /// `ServiceStep`, one edge per entry of its resolved `depends_on`.
    /// Fails when a dependency names no node, and with a cycle error naming
    /// the offending identifiers when the dependency relation has a cycle:
    /// each named node has one of its dependencies among the named nodes.
    #[verifier::rlimit(60)]
    pub fn build(steps: &Vec<ServiceStep>) -> (r: Result<Graph, Error>)
        requires
            forall|i: int, j: int|
                0 <= i < j < steps@.len() ==> node_views(steps@)[i].name != node_views(
                    steps@,
                )[j].name,
        ensures
            match r {
                Ok(g) => {
                    &&& g.spec_ids().len() == steps@.len()
                    &&& forall|i: int|
                        0 <= i < steps@.len() ==> g.spec_ids()[i] == node_views(steps@)[i].name
                    &&& edges_match(g.spec_deps(), node_views(steps@), g.spec_ids())
                    &&& all_deps_resolvable(node_views(steps@))
                },
                Err(e) => match e@ {
                    ErrorView::MissingDependency { name } => {
                        &&& exists|i: int, k: int|
                            0 <= i < steps@.len() && 0 <= k < node_views(
                                steps@,
                            )[i].depends_on.len() && #[trigger] node_views(steps@)[i].depends_on[k]
                                == name
                        &&& forall|j: int|
                            0 <= j < steps@.len() ==> node_views(steps@)[j].name != name
                    },
                    ErrorView::DependencyCycle { names } => {
                        &&& all_deps_resolvable(node_views(steps@))
                        &&& names.len() > 0
                        &&& forall|p: int|
                            0 <= p < names.len() ==> #[trigger] cycle_member(
                                node_views(steps@),
                                names,
                                p,
                            )
                    },
                    _ => false,
                },
            },
    {
        let ghost sv = node_views(steps@);
        let n = steps.len();
        let ids = collect_ids(steps);
        let deps = match resolve_edges(steps, &ids) {
            Ok(d) => d,
            Err(e) => {
                return Err(e);
            }
        };
        let ghost dv = deps.deep_view();
        let ghost iv = ids.deep_view();
        let rank = match assign_ranks(&deps) {
            Ok(rk) => rk,
            Err(processed) => {
                let idxs = collect_unranked(&processed);
                proof {
                    assert(ids@.len() == iv.len());
                }
                let names = names_at(&ids, &idxs);
                let ghost nv = names.deep_view();
                proof {
                    let w = choose|j2: int| 0 <= j2 < n && !processed@[j2];
                    assert(idxs@.contains(w as usize));
                    assert(nv.len() > 0);
                    assert forall|p: int|
                        0 <= p < nv.len() implies #[trigger] cycle_member(sv, nv, p) by {
                        let j2 = idxs@[p] as int;
                        assert(!processed@[j2]);
                        assert(nv[p] == iv[j2]);
                        assert(has_unranked_dep(processed@, dv, j2));
                        let k = choose|k: int|
                            0 <= k < dv[j2].len() && !processed@[#[trigger] dv[j2][k] as int];
                        let d = dv[j2][k] as int;
                        assert(0 <= d < n);
                        assert(idxs@.contains(d as usize));
                        let q = choose|q: int| 0 <= q < idxs@.len() && idxs@[q] == d as usize;
                        assert(nv[q] == iv[d]);
                        assert(dv[j2][k] == d as usize);
                        assert(dv[j2].contains(d as usize));
                        assert(sv[j2].depends_on.contains(iv[d]));
                        let k2 = choose|k2: int|
                            0 <= k2 < sv[j2].depends_on.len() && sv[j2].depends_on[k2] == iv[d];
                        assert(sv[j2].name == nv[p]);
                        assert(0 <= j2 < sv.len() && sv[j2].name == nv[p] && 0 <= k2 < sv[
                            j2
                        ].depends_on.len() && 0 <= q < nv.len() && sv[j2].depends_on[k2] == nv[q]);
                        assert(cycle_member(sv, nv, p));
                    }
                }
                return Err(Error::DependencyCycle { names });
            }
        };
        proof {
            assert(ids.deep_view() == iv);
            assert(deps.deep_view() == dv);
            assert(ids.deep_view().len() == ids@.len());
            assert(deps.deep_view().len() == deps@.len());
            assert(deps@.len() == ids@.len());
            assert(rank@.len() == ids@.len());
            assert forall|a: int, b: int| 0 <= a < b < ids@.len() implies ids@[a]@
                != ids@[b]@ by {
                assert(iv[a] == ids@[a]@);
                assert(iv[b] == ids@[b]@);
            }
            assert forall|i2: int, k: int|
                0 <= i2 < deps@.len() && 0 <= k < deps@[i2]@.len() implies #[trigger] deps@[
                i2
            ]@[k] < ids@.len() by {
                assert(deps.deep_view()[i2].len() == deps@[i2]@.len());
                assert(deps@[i2]@[k] == dv[i2][k]);
            }
            assert forall|i2: int, a: int, b: int|
                0 <= i2 < deps@.len() && 0 <= a < b < deps@[i2]@.len() implies deps@[i2]@[a]
                != deps@[i2]@[b] by {
                assert(deps.deep_view()[i2].len() == deps@[i2]@.len());
                assert(deps@[i2]@[a] == dv[i2][a]);
                assert(deps@[i2]@[b] == dv[i2][b]);
            }
            assert forall|i2: int, k: int|
                0 <= i2 < deps@.len() && 0 <= k < deps@[i2]@.len() implies rank@[#[trigger] deps@[
                i2
            ]@[k] as int] < rank@[i2] by {
                assert(deps.deep_view()[i2].len() == deps@[i2]@.len());
                assert(deps@[i2]@[k] == dv[i2][k]);
                assert(rank_certifies(rank@, dv));
                assert(dv[i2][k] < dv.len());
                assert(rank@[dv[i2][k] as int] < rank@[i2]);
            }
        }
        let g = Graph { ids, deps, rank };
        proof {
            assert(g.spec_ids() == iv);
            assert(g.spec_deps() == dv);
        }
        Ok(g)
    }

    /// The nodes reachable from the seed set along dependency edges, the
    /// seeds themselves included: the execution set a dependency expansion
    /// adds. The result contains the seeds, is closed under dependency
    /// edges, and contains nothing else.
    pub fn transitive_dependencies(&self, seeds: &Vec<bool>) -> (r: Vec<bool>)
        requires
            seeds@.len() == self.spec_ids().len(),
        ensures
            r@.len() == self.spec_ids().len(),
            forall|i: int| 0 <= i < seeds@.len() && seeds@[i] ==> #[trigger] r@[i],
            forall|i: int|
                0 <= i < seeds@.len() && r@[i] ==> #[trigger] row_in_set(r@, self.spec_deps(), i),
            forall|i: int|
                0 <= i < seeds@.len() && #[trigger] r@[i] ==> seeds@[i] || exists|j: int|
                    0 <= j < seeds@.len() && seeds@[j] && reaches(self.spec_deps(), j, i),
            forall|j: int, i: int|
                #![trigger seeds@[j], reaches(self.spec_deps(), j, i)]
                0 <= j < seeds@.len() && 0 <= i < seeds@.len() && seeds@[j] && reaches(
                    self.spec_deps(),
                    j,
                    i,
                ) ==> r@[i],
    {
        proof {
            use_type_invariant(&*self);
        }
        let ghost dv = self.spec_deps();
        let n = self.ids.len();
        let mut r: Vec<bool> = Vec::new();
        let mut i: usize = 0;
        while i < n
            invariant
                i <= n,
                n == seeds@.len(),
                r@.len() == i,
                forall|j: int| 0 <= j < i ==> r@[j] == seeds@[j],
            decreases n - i,
        {
            r.push(seeds[i]);
            i = i + 1;
        }
        let mut changed = true;
        while changed
            invariant
                self.wf(),
                dv == self.spec_deps(),
                n == seeds@.len(),
                n == self.spec_ids().len(),
                n == self.ids@.len(),
                n == self.deps@.len(),
                dv.len() == n,
                r@.len() == n,
                forall|i2: int, k: int|
                    0 <= i2 < n && 0 <= k < dv[i2].len() ==> #[trigger] dv[i2][k] < n,
                forall|j: int| 0 <= j < n && seeds@[j] ==> #[trigger] r@[j],
                forall|j: int|
                    0 <= j < n && #[trigger] r@[j] ==> seeds@[j] || exists|s: int|
                        0 <= s < n && seeds@[s] && reaches(dv, s, j),
                !changed ==> forall|i2: int|
                    0 <= i2 < n && r@[i2] ==> #[trigger] row_in_set(r@, dv, i2),
            decreases n - count_true(r@), (if changed { 1int } else { 0int }),
        {
            let ghost count_entry = count_true(r@);
            proof {
                lemma_count_true_le(r@);
            }
            changed = false;
            let mut u: usize = 0;
            while u < n
                invariant
                    u <= n,
                    self.wf(),
                    dv == self.spec_deps(),
                    n == seeds@.len(),
                    n == self.ids@.len(),
                    n == self.deps@.len(),
                    dv.len() == n,
                    r@.len() == n,
                    forall|i2: int, k: int|
                        0 <= i2 < n && 0 <= k < dv[i2].len() ==> #[trigger] dv[i2][k] < n,
                    forall|j: int| 0 <= j < n && seeds@[j] ==> #[trigger] r@[j],
                    forall|j: int|
                        0 <= j < n && #[trigger] r@[j] ==> seeds@[j] || exists|s: int|
                            0 <= s < n && seeds@[s] && reaches(dv, s, j),
                    !changed ==> forall|i2: int|
                        0 <= i2 < u && r@[i2] ==> #[trigger] row_in_set(r@, dv, i2),
                    count_true(r@) >= count_entry,
                    changed ==> count_true(r@) > count_entry,
                    count_true(r@) <= n,
                decreases n - u,
            {
                if r[u] {
                    let row_len = self.deps[u].len();
                    let mut k: usize = 0;
                    while k < row_len
                        invariant
                            k <= row_len,
                            u < n,
                            self.wf(),
                            dv == self.spec_deps(),
                            n == seeds@.len(),
                            n == self.ids@.len(),
                            n == self.deps@.len(),
                            dv.len() == n,
                            r@.len() == n,
                            row_len == dv[u as int].len(),
                            r@[u as int],
                            forall|i2: int, k2: int|
                                0 <= i2 < n && 0 <= k2 < dv[i2].len() ==> #[trigger] dv[
                                    i2
                                ][k2] < n,
                            forall|j: int| 0 <= j < n && seeds@[j] ==> #[trigger] r@[j],
                            forall|j: int|
                                0 <= j < n && #[trigger] r@[j] ==> seeds@[j] || exists|s: int|
                                    0 <= s < n && seeds@[s] && reaches(dv, s, j),
                            forall|k2: int|
                                0 <= k2 < k ==> r@[#[trigger] dv[u as int][k2] as int],
                            !changed ==> forall|i2: int|
                                0 <= i2 < u && r@[i2] ==> #[trigger] row_in_set(r@, dv, i2),
                            count_true(r@) >= count_entry,
                            changed ==> count_true(r@) > count_entry,
                            count_true(r@) <= n,
                        decreases row_len - k,
                    {
                        proof {
                            assert(self.deps@[u as int]@[k as int] == dv[u as int][k as int]);
                        }
                        let d = self.deps[u][k];
                        if !r[d] {
                            let ghost r0 = r@;
                            r.set(d, true);
                            changed = true;
                            proof {
                                lemma_count_true_update(r0, d as int);
                                lemma_count_true_le(r@);
                                assert forall|j: int|
                                    0 <= j < n && #[trigger] r@[j] implies seeds@[j] || exists|
                                    s: int,
                                |
                                    0 <= s < n && seeds@[s] && reaches(dv, s, j) by {
                                    if j == d as int && !seeds@[j] {
                                        assert(r0[u as int]);
                                        assert(dv[u as int].contains(dv[u as int][k as int]));
                                        if seeds@[u as int] {
                                            lemma_edge_reaches(dv, u as int, d as int);
                                        } else {
                                            let s = choose|s: int|
                                                0 <= s < n && seeds@[s] && reaches(
                                                    dv,
                                                    s,
                                                    u as int,
                                                );
                                            lemma_reaches_step(dv, s, u as int, d as int);
                                        }
                                    } else if j != d as int {
                                        assert(r0[j]);
                                    }
                                }
                            }
                        }
                        k = k + 1;
                    }
                    proof {
                        assert(row_in_set(r@, dv, u as int));
                    }
                }
                proof {
                    if !changed {
                        assert forall|i2: int|
                            0 <= i2 <= u as int && r@[i2] implies #[trigger] row_in_set(
                            r@,
                            dv,
                            i2,
                        ) by {}
                    }
                }
                u = u + 1;
            }
        }
        proof {
            assert forall|j: int, i: int|
                #![trigger seeds@[j], reaches(self.spec_deps(), j, i)]
                0 <= j < seeds@.len() && 0 <= i < seeds@.len() && seeds@[j] && reaches(
                dv,
                j,
                i,
            ) implies r@[i] by {
                let p = choose|p: Seq<int>|
                    valid_path(dv, p) && p.len() >= 2 && p.first() == j && p.last() == i;
                lemma_closed_reaches(r@, dv, p);
            }
        }
        r
    }

    /// The nodes from which the seed set is reachable along dependency
    /// edges, the seeds themselves included: the execution set a
    /// reverse-dependency expansion adds.
    pub fn transitive_dependents(&self, seeds: &Vec<bool>) -> (r: Vec<bool>)
        requires
            seeds@.len() == self.spec_ids().len(),
        ensures
            r@.len() == self.spec_ids().len(),
            forall|i: int| 0 <= i < seeds@.len() && seeds@[i] ==> #[trigger] r@[i],
            forall|u: int|
                0 <= u < seeds@.len() ==> #[trigger] pulled_in(r@, self.spec_deps(), u),
            forall|i: int|
                0 <= i < seeds@.len() && #[trigger] r@[i] ==> seeds@[i] || exists|j: int|
                    0 <= j < seeds@.len() && seeds@[j] && reaches(self.spec_deps(), i, j),
            forall|j: int, i: int|
                #![trigger seeds@[j], reaches(self.spec_deps(), i, j)]
                0 <= j < seeds@.len() && 0 <= i < seeds@.len() && seeds@[j] && reaches(
                    self.spec_deps(),
                    i,
                    j,
                ) ==> r@[i],
    {
        proof {
            use_type_invariant(&*self);
        }
        let ghost dv = self.spec_deps();
        let n = self.ids.len();
        let mut r: Vec<bool> = Vec::new();
        let mut i: usize = 0;
        while i < n
            invariant
                i <= n,
                n == seeds@.len(),
                r@.len() == i,
                forall|j: int| 0 <= j < i ==> r@[j] == seeds@[j],
            decreases n - i,
        {
            r.push(seeds[i]);
            i = i + 1;
        }
        let mut changed = true;
        while changed
            invariant
                self.wf(),
                dv == self.spec_deps(),
                n == seeds@.len(),
                n == self.spec_ids().len(),
                n == self.ids@.len(),
                n == self.deps@.len(),
                dv.len() == n,
                r@.len() == n,
                forall|i2: int, k: int|
                    0 <= i2 < n && 0 <= k < dv[i2].len() ==> #[trigger] dv[i2][k] < n,
                forall|j: int| 0 <= j < n && seeds@[j] ==> #[trigger] r@[j],
                forall|j: int|
                    0 <= j < n && #[trigger] r@[j] ==> seeds@[j] || exists|s: int|
                        0 <= s < n && seeds@[s] && reaches(dv, j, s),
                !changed ==> forall|u2: int|
                    0 <= u2 < n ==> #[trigger] pulled_in(r@, dv, u2),
            decreases n - count_true(r@), (if changed { 1int } else { 0int }),
        {
            let ghost count_entry = count_true(r@);
            proof {
                lemma_count_true_le(r@);
            }
            changed = false;
            let mut u: usize = 0;
            while u < n
                invariant
                    u <= n,
                    self.wf(),
                    dv == self.spec_deps(),
                    n == seeds@.len(),
                    n == self.ids@.len(),
                    n == self.deps@.len(),
                    dv.len() == n,
                    r@.len() == n,
                    forall|i2: int, k: int|
                        0 <= i2 < n && 0 <= k < dv[i2].len() ==> #[trigger] dv[i2][k] < n,
                    forall|j: int| 0 <= j < n && seeds@[j] ==> #[trigger] r@[j],
                    forall|j: int|
                        0 <= j < n && #[trigger] r@[j] ==> seeds@[j] || exists|s: int|
                            0 <= s < n && seeds@[s] && reaches(dv, j, s),
                    !changed ==> forall|u2: int|
                        0 <= u2 < u ==> #[trigger] pulled_in(r@, dv, u2),
                    count_true(r@) >= count_entry,
                    changed ==> count_true(r@) > count_entry,
                    count_true(r@) <= n,
                decreases n - u,
            {
                proof {
                    assert(self.deps@[u as int]@ == dv[u as int]);
                }
                if !r[u] {
                    let row_len = self.deps[u].len();
                    let mut hit = false;
                    let mut k: usize = 0;
                    while k < row_len
                        invariant
                            k <= row_len,
                            u < n,
                            dv == self.spec_deps(),
                            dv.len() == n,
                            r@.len() == n,
                            row_len == dv[u as int].len(),
                            forall|i2: int, k2: int|
                                0 <= i2 < n && 0 <= k2 < dv[i2].len() ==> #[trigger] dv[
                                    i2
                                ][k2] < n,
                            hit <==> exists|k2: int|
                                0 <= k2 < k && r@[#[trigger] dv[u as int][k2] as int],
                        decreases row_len - k,
                    {
                        proof {
                            assert(self.deps@[u as int]@[k as int] == dv[u as int][k as int]);
                        }
                        if r[self.deps[u][k]] {
                            proof {
                                assert(r@[dv[u as int][k as int] as int]);
                            }
                            hit = true;
                        }
                        k = k + 1;
                    }
                    if hit {
                        let ghost r0 = r@;
                        r.set(u, true);
                        changed = true;
                        proof {
                            lemma_count_true_update(r0, u as int);
                            lemma_count_true_le(r@);
                            assert forall|j: int|
                                0 <= j < n && #[trigger] r@[j] implies seeds@[j] || exists|s: int|
                                0 <= s < n && seeds@[s] && reaches(dv, j, s) by {
                                if j == u as int && !seeds@[j] {
                                    let k2 = choose|k2: int|
                                        0 <= k2 < dv[u as int].len() && r0[#[trigger] dv[
                                            u as int
                                        ][k2] as int];
                                    let d = dv[u as int][k2] as int;
                                    assert(r@[d] == r0[d]);
                                    assert(dv[u as int].contains(dv[u as int][k2]));
                                    if seeds@[d] {
                                        lemma_edge_reaches(dv, u as int, d);
                                    } else {
                                        assert(r0[d]);
                                        let s = choose|s: int|
                                            0 <= s < n && seeds@[s] && reaches(dv, d, s);
                                        lemma_reaches_pre(dv, u as int, d, s);
                                    }
                                } else if j != u as int {
                                    assert(r0[j]);
                                }
                            }
                        }
                    }
                }
                proof {
                    if !changed {
                        assert forall|u2: int| 0 <= u2 <= u as int implies #[trigger] pulled_in(
                            r@,
                            dv,
                            u2,
                        ) by {
                            if u2 == u as int {
                                if exists|k2: int|
                                    0 <= k2 < dv[u2].len() && r@[#[trigger] dv[u2][k2] as int] {
                                    assert(r@[u2]);
                                }
                            }
                        }
                    }
                }
                u = u + 1;
            }
        }
        proof {
            assert forall|j: int, i: int|
                #![trigger seeds@[j], reaches(self.spec_deps(), i, j)]
                0 <= j < seeds@.len() && 0 <= i < seeds@.len() && seeds@[j] && reaches(
                dv,
                i,
                j,
            ) implies r@[i] by {
                let p = choose|p: Seq<int>|
                    valid_path(dv, p) && p.len() >= 2 && p.first() == i && p.last() == j;
                lemma_pulled_reaches(r@, dv, p);
            }
        }
        r
    }

    /// The dependency row of a node.
    pub fn dep_row(&self, i: usize) -> (r: &Vec<usize>)
        requires
            i < self.spec_ids().len(),
        ensures
            r@ == self.spec_deps()[i as int],
    {
        proof {
            use_type_invariant(&*self);
            assert(self.deps.deep_view()[i as int] =~= self.deps@[i as int]@);
        }
        &self.deps[i]
    }

    /// The shape facts every built graph guarantees: distinct identifiers,
    /// in-range duplicate-free edges, and a rank that strictly decreases
    /// along every edge, so the dependency relation has no cycle.
    pub proof fn shape(&self)
        requires
            self.wf(),
        ensures
            self.spec_deps().len() == self.spec_ids().len(),
            forall|i: int, j: int|
                0 <= i < j < self.spec_ids().len() ==> self.spec_ids()[i] != self.spec_ids()[j],
            forall|i: int, k: int|
                0 <= i < self.spec_deps().len() && 0 <= k < self.spec_deps()[i].len()
                    ==> #[trigger] self.spec_deps()[i][k] < self.spec_ids().len(),
            forall|i: int, a: int, b: int|
                0 <= i < self.spec_deps().len() && 0 <= a < b < self.spec_deps()[i].len()
                    ==> self.spec_deps()[i][a] != self.spec_deps()[i][b],
            exists|rank: Seq<usize>|
                rank.len() == self.spec_ids().len() && rank_certifies(rank, self.spec_deps()),
    {
        assert forall|i: int, j: int|
            0 <= i < j < self.spec_ids().len() implies self.spec_ids()[i] != self.spec_ids()[j] by {
            assert(self.spec_ids()[i] == self.ids@[i]@);
            assert(self.spec_ids()[j] == self.ids@[j]@);
        }
        assert(rank_certifies(self.rank@, self.spec_deps()));
    }
}

/// The views of the nodes handed to graph construction.
pub open spec fn node_views(steps: Seq<ServiceStep>) -> Seq<crate::service::ServiceStepView> {
    steps.map_values(|s: ServiceStep| s@)
}

/// Every dependency name of every node names some node.
pub open spec fn all_deps_resolvable(steps_v: Seq<crate::service::ServiceStepView>) -> bool {
    forall|i: int, k: int|
        0 <= i < steps_v.len() && 0 <= k < steps_v[i].depends_on.len() ==> exists|j: int|
            0 <= j < steps_v.len() && steps_v[j].name == #[trigger] steps_v[i].depends_on[k]
}

/// The node named `names[p]` has one of its dependencies among `names`:
/// the evidence that the named nodes form a dependency-closed set.
pub open spec fn cycle_member(
    steps_v: Seq<crate::service::ServiceStepView>,
    names: Seq<Seq<char>>,
    p: int,
) -> bool {
    exists|i: int, k: int, q: int|
        #![trigger steps_v[i].depends_on[k], names[q]]
        {
            &&& 0 <= i < steps_v.len()
            &&& steps_v[i].name == names[p]
            &&& 0 <= k < steps_v[i].depends_on.len()
            &&& 0 <= q < names.len()
            &&& steps_v[i].depends_on[k] == names[q]
        }
}

/// The index edges mirror the nodes' dependency names exactly: `i` has an
/// edge to `j` when and only when `i`'s `depends_on` lists `j`'s identifier.
pub open spec fn edges_match(
    deps: Seq<Seq<usize>>,
    steps_v: Seq<crate::service::ServiceStepView>,
    ids: Seq<Seq<char>>,
) -> bool {
    forall|i: int, j: int|
        #![trigger deps[i].contains(j as usize)]
        0 <= i < deps.len() && 0 <= j < ids.len() ==> (deps[i].contains(j as usize)
            <==> steps_v[i].depends_on.contains(ids[j]))
}

/// Edges stay in range and duplicate-free.
pub open spec fn edges_shaped(deps: Seq<Seq<usize>>, n: int) -> bool {
    &&& forall|i: int, k: int|
        0 <= i < deps.len() && 0 <= k < deps[i].len() ==> #[trigger] deps[i][k] < n
    &&& forall|i: int, a: int, b: int|
        0 <= i < deps.len() && 0 <= a < b < deps[i].len() ==> deps[i][a] != deps[i][b]
}

/// If node `i` is processed: its rank is below `count`, and all of its
/// dependencies are processed with strictly smaller ranks.
pub open spec fn node_ranked(
    processed: Seq<bool>,
    rank: Seq<usize>,
    deps: Seq<Seq<usize>>,
    count: int,
    i: int,
) -> bool {
    processed[i] ==> rank[i] < count && (forall|k: int|
        0 <= k < deps[i].len() ==> processed[#[trigger] deps[i][k] as int]
            && rank[deps[i][k] as int] < rank[i])
}

/// Node `i` has a dependency that is not processed.
pub open spec fn has_unranked_dep(processed: Seq<bool>, deps: Seq<Seq<usize>>, i: int) -> bool {
    exists|k: int| 0 <= k < deps[i].len() && !processed[#[trigger] deps[i][k] as int]
}

/// Every processed node has all dependencies processed, each of strictly
/// smaller rank, and a rank below `count`.
pub open spec fn rank_partial(
    processed: Seq<bool>,
    rank: Seq<usize>,
    deps: Seq<Seq<usize>>,
    count: int,
) -> bool {
    forall|i: int|
        0 <= i < processed.len() ==> #[trigger] node_ranked(processed, rank, deps, count, i)
}

proof fn lemma_count_true_all(s: Seq<bool>)
    ensures
        count_true(s) == s.len() ==> forall|i: int| 0 <= i < s.len() ==> s[i],
        (forall|i: int| 0 <= i < s.len() ==> s[i]) ==> count_true(s) == s.len(),
    decreases s.len(),
{
    if s.len() > 0 {
        lemma_count_true_all(s.drop_last());
        lemma_count_true_le(s.drop_last());
        assert(forall|i: int| 0 <= i < s.len() - 1 ==> s.drop_last()[i] == s[i]);
        if count_true(s) == s.len() {
            assert(count_true(s.drop_last()) == s.drop_last().len());
        }
        if forall|i: int| 0 <= i < s.len() ==> s[i] {
            assert(forall|i: int| 0 <= i < s.drop_last().len() ==> s.drop_last()[i]);
            assert(s.last());
        }
    }
}

/// The node identifiers, in input order.
fn collect_ids(steps: &Vec<ServiceStep>) -> (ids: Vec<String>)
    ensures
        ids.deep_view().len() == steps@.len(),
        forall|j: int|
            0 <= j < steps@.len() ==> ids.deep_view()[j] == node_views(steps@)[j].name,
{
    let ghost sv = node_views(steps@);
    let n = steps.len();
    let mut ids: Vec<String> = Vec::new();
    let mut i: usize = 0;
    while i < n
        invariant
            i <= n,
            n == steps@.len(),
            sv == node_views(steps@),
            ids.deep_view().len() == i,
            forall|j: int| 0 <= j < i ==> ids.deep_view()[j] == sv[j].name,
        decreases n - i,
    {
        let ghost prev = ids.deep_view();
        ids.push(steps[i].name.clone());
        i = i + 1;
        proof {
            assert forall|j: int| 0 <= j < i implies ids.deep_view()[j] == sv[j].name by {
                assert(ids.deep_view()[j] == ids@[j]@);
                if j < i - 1 {
                    assert(prev[j] == ids@[j]@);
                } else {
                    assert(sv[j] == steps@[j]@);
                }
            }
        }
    }
    ids
}

/// Resolve each node's dependency names to node indices, dropping duplicate
/// edges; fails on a name that matches no node identifier.
fn resolve_edges(steps: &Vec<ServiceStep>, ids: &Vec<String>) -> (r: Result<Vec<Vec<usize>>, Error>)
    requires
        ids.deep_view().len() == steps@.len(),
        forall|j: int|
            0 <= j < steps@.len() ==> ids.deep_view()[j] == node_views(steps@)[j].name,
        forall|a: int, b: int|
            0 <= a < b < steps@.len() ==> ids.deep_view()[a] != ids.deep_view()[b],
    ensures
        match r {
            Ok(deps) => {
                &&& deps.deep_view().len() == steps@.len()
                &&& edges_shaped(deps.deep_view(), steps@.len() as int)
                &&& edges_match(deps.deep_view(), node_views(steps@), ids.deep_view())
                &&& all_deps_resolvable(node_views(steps@))
            },
            Err(e) => match e@ {
                ErrorView::MissingDependency { name } => {
                    &&& exists|i: int, k: int|
                        0 <= i < steps@.len() && 0 <= k < node_views(steps@)[i].depends_on.len()
                            && #[trigger] node_views(steps@)[i].depends_on[k] == name
                    &&& forall|j: int|
                        0 <= j < steps@.len() ==> node_views(steps@)[j].name != name
                },
                _ => false,
            },
        },
{
    let ghost sv = node_views(steps@);
    let n = steps.len();
    let mut deps: Vec<Vec<usize>> = Vec::new();
    let mut i: usize = 0;
    while i < n
        invariant
            i <= n,
            n == steps@.len(),
            sv == node_views(steps@),
            ids.deep_view().len() == n,
            forall|j: int| 0 <= j < n ==> ids.deep_view()[j] == sv[j].name,
            forall|a: int, b: int| 0 <= a < b < n ==> ids.deep_view()[a] != ids.deep_view()[b],
            deps.deep_view().len() == i,
            edges_shaped(deps.deep_view(), n as int),
            edges_match(deps.deep_view(), sv, ids.deep_view()),
            forall|i2: int, k: int|
                0 <= i2 < i && 0 <= k < sv[i2].depends_on.len() ==> exists|j: int|
                    0 <= j < n && sv[j].name == #[trigger] sv[i2].depends_on[k],
        decreases n - i,
    {
        let step_deps = &steps[i].depends_on;
        let m = step_deps.len();
        let mut row: Vec<usize> = Vec::new();
        let mut k: usize = 0;
        while k < m
            invariant
                k <= m,
                i < n,
                n == steps@.len(),
                sv == node_views(steps@),
                step_deps.deep_view() == sv[i as int].depends_on,
                m == step_deps@.len(),
                m == sv[i as int].depends_on.len(),
                ids.deep_view().len() == n,
                forall|j: int| 0 <= j < n ==> ids.deep_view()[j] == sv[j].name,
                forall|a: int, b: int|
                    0 <= a < b < n ==> ids.deep_view()[a] != ids.deep_view()[b],
                forall|a: int| 0 <= a < row@.len() ==> #[trigger] row@[a] < n,
                forall|a: int, b: int| 0 <= a < b < row@.len() ==> row@[a] != row@[b],
                forall|j: int|
                    #![trigger row@.contains(j as usize)]
                    0 <= j < n ==> (row@.contains(j as usize) <==> sv[
                        i as int
                    ].depends_on.take(k as int).contains(ids.deep_view()[j])),
                forall|k2: int|
                    0 <= k2 < k ==> exists|j: int|
                        0 <= j < n && sv[j].name == #[trigger] sv[i as int].depends_on[k2],
            decreases m - k,
        {
            let dep_name = &step_deps[k];
            proof {
                assert(step_deps.deep_view()[k as int] == step_deps@[k as int]@);
            }
            let d = find_name(ids, dep_name);
            if d == n {
                proof {
                    assert(sv[i as int].depends_on[k as int] == dep_name@);
                    assert forall|j: int| 0 <= j < steps@.len() implies sv[j].name
                        != dep_name@ by {
                        assert(ids.deep_view()[j] != dep_name@);
                    }
                }
                return Err(Error::MissingDependency { name: dep_name.clone() });
            }
            let ghost rowold = row@;
            let fresh = !contains_idx(&row, d);
            if fresh {
                row.push(d);
            }
            k = k + 1;
            proof {
                assert(ids.deep_view()[d as int] == sv[i as int].depends_on[k - 1]);
                if fresh {
                    assert(row@ == rowold.push(d));
                    assert(row@[row@.len() - 1] == d);
                }
                assert forall|j: int|
                    #![trigger row@.contains(j as usize)]
                    0 <= j < n implies (row@.contains(j as usize) <==> sv[
                    i as int
                ].depends_on.take(k as int).contains(ids.deep_view()[j])) by {
                    let tk = sv[i as int].depends_on.take(k as int);
                    assert(tk.drop_last() =~= sv[i as int].depends_on.take(k - 1));
                    assert(tk.last() == sv[i as int].depends_on[k - 1]);
                    if row@.contains(j as usize) {
                        if rowold.contains(j as usize) {
                            let a = choose|a: int|
                                0 <= a < tk.drop_last().len() && tk.drop_last()[a]
                                    == ids.deep_view()[j];
                            assert(tk[a] == ids.deep_view()[j]);
                        } else {
                            let a = choose|a: int| 0 <= a < row@.len() && row@[a] == j as usize;
                            assert(fresh && row@ == rowold.push(d));
                            assert(a == row@.len() - 1);
                            assert(j as usize == d);
                            assert(tk[k - 1] == ids.deep_view()[j]);
                        }
                    } else {
                        if tk.contains(ids.deep_view()[j]) {
                            let a = choose|a: int| 0 <= a < tk.len() && tk[a] == ids.deep_view()[j];
                            if a < k - 1 {
                                assert(tk.drop_last()[a] == ids.deep_view()[j]);
                                assert(rowold.contains(j as usize));
                                let b = choose|b: int|
                                    0 <= b < rowold.len() && rowold[b] == j as usize;
                                assert(row@[b] == j as usize);
                                assert(row@.contains(j as usize));
                            } else {
                                assert(ids.deep_view()[d as int] == ids.deep_view()[j]);
                                assert(d as int == j);
                                if fresh {
                                    assert(row@.contains(j as usize));
                                } else {
                                    assert(rowold.contains(d));
                                    assert(row@.contains(j as usize));
                                }
                            }
                        }
                    }
                }
            }
        }
        let ghost depsold = deps.deep_view();
        let ghost rowv = row@;
        deps.push(row);
        i = i + 1;
        proof {
            assert(sv[i - 1].depends_on.take(m as int) =~= sv[i - 1].depends_on);
            assert(deps.deep_view().len() == deps@.len());
            assert forall|j: int|
                0 <= j < deps.deep_view().len() implies #[trigger] deps.deep_view()[j]
                == depsold.push(rowv)[j] by {
                assert(deps.deep_view()[j] == deps@[j]@);
                if j < i - 1 {
                    assert(depsold[j] == deps@[j]@);
                } else {
                    assert(deps@[j] == deps@[j]);
                }
            }
            assert(deps.deep_view() =~= depsold.push(rowv));
            let dvn = deps.deep_view();
            assert forall|i2: int, j: int|
                #![trigger dvn[i2].contains(j as usize)]
                0 <= i2 < dvn.len() && 0 <= j < ids.deep_view().len() implies (dvn[i2].contains(
                j as usize,
            ) <==> sv[i2].depends_on.contains(ids.deep_view()[j])) by {
                if i2 < i - 1 {
                    assert(dvn[i2] == depsold[i2]);
                    assert(depsold[i2].contains(j as usize) <==> sv[i2].depends_on.contains(
                        ids.deep_view()[j],
                    ));
                } else {
                    assert(dvn[i2] == rowv);
                    assert(rowv.contains(j as usize) <==> sv[i2].depends_on.take(
                        m as int,
                    ).contains(ids.deep_view()[j]));
                }
            }
        }
    }
    Ok(deps)
}

/// Assign a rank to every node so that every edge leads to a node of smaller
/// rank; when the relation has a cycle this is impossible, and the flags of
/// the nodes that could be ranked come back instead: every unranked node has
/// an unranked dependency.
#[verifier::rlimit(40)]
fn assign_ranks(deps: &Vec<Vec<usize>>) -> (r: Result<Vec<usize>, Vec<bool>>)
    requires
        edges_shaped(deps.deep_view(), deps.deep_view().len() as int),
    ensures
        match r {
            Ok(rank) => {
                &&& rank@.len() == deps.deep_view().len()
                &&& rank_certifies(rank@, deps.deep_view())
            },
            Err(processed) => {
                &&& processed@.len() == deps.deep_view().len()
                &&& exists|j: int| 0 <= j < processed@.len() && !processed@[j]
                &&& forall|i: int|
                    0 <= i < processed@.len() && !processed@[i]
                        ==> #[trigger] has_unranked_dep(processed@, deps.deep_view(), i)
            },
        },
{
    let ghost dv = deps.deep_view();
    let n = deps.len();
    proof {
        assert(dv.len() == n);
    }
    let mut processed: Vec<bool> = Vec::new();
    let mut rank: Vec<usize> = Vec::new();
    let mut i: usize = 0;
    while i < n
        invariant
            i <= n,
            processed@.len() == i,
            rank@.len() == i,
            forall|j: int| 0 <= j < i ==> !processed@[j],
        decreases n - i,
    {
        processed.push(false);
        rank.push(0);
        i = i + 1;
    }
    proof {
        lemma_count_false_zero(processed@);
    }
    let mut count: usize = 0;
    while count < n
        invariant
            count <= n,
            n == dv.len(),
            dv == deps.deep_view(),
            edges_shaped(dv, n as int),
            processed@.len() == n,
            rank@.len() == n,
            count == count_true(processed@),
            rank_partial(processed@, rank@, dv, count as int),
        decreases n - count,
    {
        let ghost count0 = count;
        let mut progress = false;
        let mut i: usize = 0;
        while i < n
            invariant
                i <= n,
                n == dv.len(),
                dv == deps.deep_view(),
                edges_shaped(dv, n as int),
                processed@.len() == n,
                rank@.len() == n,
                count == count_true(processed@),
                rank_partial(processed@, rank@, dv, count as int),
                count0 <= count <= n,
                progress ==> count0 < count,
                !progress ==> count == count0,
                !progress ==> forall|i2: int|
                    0 <= i2 < i ==> processed@[i2] || #[trigger] has_unranked_dep(
                        processed@,
                        dv,
                        i2,
                    ),
            decreases n - i,
        {
            if !processed[i] {
                let row_len = deps[i].len();
                let mut all_done = true;
                let mut k: usize = 0;
                while k < row_len
                    invariant
                        k <= row_len,
                        i < n,
                        n == dv.len(),
                        dv == deps.deep_view(),
                        edges_shaped(dv, n as int),
                        processed@.len() == n,
                        row_len == dv[i as int].len(),
                        all_done <==> (forall|k2: int|
                            0 <= k2 < k ==> processed@[#[trigger] dv[i as int][k2] as int]),
                    decreases row_len - k,
                {
                    proof {
                        assert(deps@[i as int]@[k as int] == dv[i as int][k as int]);
                    }
                    if !processed[deps[i][k]] {
                        all_done = false;
                    }
                    k = k + 1;
                }
                if !all_done {
                    proof {
                        assert(!(forall|k2: int|
                            0 <= k2 < dv[i as int].len() ==> processed@[#[trigger] dv[
                                i as int
                            ][k2] as int]));
                        assert(has_unranked_dep(processed@, dv, i as int));
                    }
                }
                if all_done {
                    let ghost pold = processed@;
                    let ghost rold = rank@;
                    processed.set(i, true);
                    rank.set(i, count);
                    proof {
                        lemma_count_true_update(pold, i as int);
                        lemma_count_true_le(processed@);
                    }
                    count = count + 1;
                    progress = true;
                    proof {
                        assert forall|i2: int|
                            0 <= i2 < n implies #[trigger] node_ranked(
                            processed@,
                            rank@,
                            dv,
                            count as int,
                            i2,
                        ) by {
                            assert(node_ranked(pold, rold, dv, count - 1, i2));
                            if processed@[i2] {
                                if i2 == i {
                                    assert(rank@[i2] == count - 1);
                                    assert forall|k2: int|
                                        0 <= k2 < dv[i2].len() implies processed@[#[trigger] dv[
                                        i2
                                    ][k2] as int] && rank@[dv[i2][k2] as int] < rank@[i2] by {
                                        let d = dv[i2][k2] as int;
                                        assert(node_ranked(pold, rold, dv, count - 1, d));
                                        assert(pold[d]);
                                        assert(d != i2);
                                        assert(rold[d] < count - 1);
                                    }
                                } else {
                                    assert(pold[i2]);
                                    assert(rold[i2] < count - 1);
                                    assert forall|k2: int|
                                        0 <= k2 < dv[i2].len() implies processed@[#[trigger] dv[
                                        i2
                                    ][k2] as int] && rank@[dv[i2][k2] as int] < rank@[i2] by {
                                        let d = dv[i2][k2] as int;
                                        assert(pold[d]);
                                        assert(d != i as int);
                                        assert(i2 != i);
                                    }
                                }
                            }
                        }
                    }
                }
            }
            i = i + 1;
        }
        if !progress {
            proof {
                lemma_count_true_all(processed@);
                if forall|j2: int| 0 <= j2 < n ==> processed@[j2] {
                    assert(count_true(processed@) == n);
                }
                assert(exists|j2: int| 0 <= j2 < processed@.len() && !processed@[j2]);
                assert forall|i2: int|
                    0 <= i2 < processed@.len() && !processed@[i2] implies #[trigger] has_unranked_dep(
                    processed@,
                    deps.deep_view(),
                    i2,
                ) by {
                    assert(has_unranked_dep(processed@, dv, i2));
                }
            }
            return Err(processed);
        }
    }
    proof {
        lemma_count_true_all(processed@);
        assert forall|i2: int, k: int|
            0 <= i2 < dv.len() && 0 <= k < dv[i2].len() && dv[i2][k] < dv.len() implies rank@[
            #[trigger] dv[i2][k] as int
        ] < rank@[i2] by {
            assert(processed@[i2]);
            assert(node_ranked(processed@, rank@, dv, count as int, i2));
        }
    }
    Ok(rank)
}

/// The positions of the nodes that could not be ranked.
fn collect_unranked(processed: &Vec<bool>) -> (r: Vec<usize>)
    ensures
        forall|p: int|
            0 <= p < r@.len() ==> #[trigger] r@[p] < processed@.len() && !processed@[r@[p] as int],
        forall|j: int|
            0 <= j < processed@.len() && !processed@[j] ==> r@.contains(j as usize),
{
    let n = processed.len();
    let mut r: Vec<usize> = Vec::new();
    let mut j: usize = 0;
    while j < n
        invariant
            j <= n,
            n == processed@.len(),
            forall|p: int|
                0 <= p < r@.len() ==> #[trigger] r@[p] < n && !processed@[r@[p] as int],
            forall|j2: int| 0 <= j2 < j && !processed@[j2] ==> r@.contains(j2 as usize),
        decreases n - j,
    {
        let ghost rold = r@;
        if !processed[j] {
            r.push(j);
        }
        j = j + 1;
        proof {
            assert forall|j2: int|
                0 <= j2 < j && !processed@[j2] implies r@.contains(j2 as usize) by {
                if j2 < j - 1 {
                    let p = choose|p: int| 0 <= p < rold.len() && rold[p] == j2 as usize;
                    assert(r@[p] == j2 as usize);
                } else {
                    assert(r@[r@.len() - 1] == j2 as usize);
                }
            }
        }
    }
    r
}

/// The identifiers of the nodes at the given positions.
fn names_at(ids: &Vec<String>, idxs: &Vec<usize>) -> (names: Vec<String>)
    requires
        forall|p: int| 0 <= p < idxs@.len() ==> #[trigger] idxs@[p] < ids@.len(),
    ensures
        names.deep_view().len() == idxs@.len(),
        forall|p: int|
            0 <= p < idxs@.len() ==> #[trigger] names.deep_view()[p] == ids.deep_view()[idxs@[
                p
            ] as int],
{
    let m = idxs.len();
    let mut names: Vec<String> = Vec::new();
    let mut p: usize = 0;
    while p < m
        invariant
            p <= m,
            m == idxs@.len(),
            forall|q: int| 0 <= q < m ==> #[trigger] idxs@[q] < ids@.len(),
            names.deep_view().len() == p,
            forall|q: int|
                0 <= q < p ==> #[trigger] names.deep_view()[q] == ids.deep_view()[idxs@[
                    q
                ] as int],
        decreases m - p,
    {
        let ghost prev = names.deep_view();
        names.push(ids[idxs[p]].clone());
        p = p + 1;
        proof {
            assert(names.deep_view().len() == names@.len());
            assert forall|q: int|
                0 <= q < p implies #[trigger] names.deep_view()[q] == ids.deep_view()[idxs@[
                q
            ] as int] by {
                assert(names.deep_view()[q] == names@[q]@);
                if q < p - 1 {
                    assert(prev[q] == names@[q]@);
                } else {
                    assert(ids.deep_view()[idxs@[q] as int] == ids@[idxs@[q] as int]@);
                }
            }
        }
    }
    names
}

/// Every dependency of node `i` is in the set.
pub open spec fn row_in_set(r: Seq<bool>, deps: Seq<Seq<usize>>, i: int) -> bool {
    forall|k: int| 0 <= k < deps[i].len() ==> r[#[trigger] deps[i][k] as int]
}

/// If any dependency of node `u` is in the set, so is `u`.
pub open spec fn pulled_in(r: Seq<bool>, deps: Seq<Seq<usize>>, u: int) -> bool {
    (exists|k: int| 0 <= k < deps[u].len() && r[#[trigger] deps[u][k] as int]) ==> r[u]
}

/// A single edge is a path of length two.
pub proof fn lemma_edge_reaches(deps: Seq<Seq<usize>>, a: int, b: int)
    requires
        0 <= a < deps.len(),
        0 <= b < deps.len(),
        deps[a].contains(b as usize),
    ensures
        reaches(deps, a, b),
{
    let p = seq![a, b];
    assert(p[0] == a && p[1] == b);
    assert(valid_path(deps, p));
    assert(p.first() == a && p.last() == b);
}

/// A path extended by one more dependency edge is still a path.
pub proof fn lemma_reaches_step(deps: Seq<Seq<usize>>, a: int, b: int, c: int)
    requires
        reaches(deps, a, b),
        0 <= c < deps.len(),
        deps[b].contains(c as usize),
    ensures
        reaches(deps, a, c),
{
    let p = choose|p: Seq<int>|
        valid_path(deps, p) && p.len() >= 2 && p.first() == a && p.last() == b;
    let q = p.push(c);
    assert(valid_path(deps, q)) by {
        assert forall|i: int| 0 <= i < q.len() implies 0 <= #[trigger] q[i] < deps.len() by {
            if i < p.len() {
                assert(q[i] == p[i]);
            }
        }
        assert forall|i: int|
            #![trigger q[i]]
            0 <= i < q.len() - 1 implies deps[q[i]].contains(q[i + 1] as usize) by {
            if i < p.len() - 1 {
                assert(q[i] == p[i]);
                assert(q[i + 1] == p[i + 1]);
            } else {
                assert(q[i] == p[p.len() - 1]);
                assert(q[i + 1] == c);
            }
        }
    }
    assert(q.first() == a && q.last() == c);
}

/// A path prefixed by one more dependency edge is still a path.
pub proof fn lemma_reaches_pre(deps: Seq<Seq<usize>>, a: int, b: int, c: int)
    requires
        0 <= a < deps.len(),
        deps[a].contains(b as usize),
        reaches(deps, b, c),
    ensures
        reaches(deps, a, c),
{
    let p = choose|p: Seq<int>|
        valid_path(deps, p) && p.len() >= 2 && p.first() == b && p.last() == c;
    let q = seq![a] + p;
    assert(valid_path(deps, q)) by {
        assert forall|i: int| 0 <= i < q.len() implies 0 <= #[trigger] q[i] < deps.len() by {
            if i > 0 {
                assert(q[i] == p[i - 1]);
            }
        }
        assert forall|i: int|
            #![trigger q[i]]
            0 <= i < q.len() - 1 implies deps[q[i]].contains(q[i + 1] as usize) by {
            if i == 0 {
                assert(q[0] == a);
                assert(q[1] == p[0]);
            } else {
                assert(q[i] == p[i - 1]);
                assert(q[i + 1] == p[i]);
            }
        }
    }
    assert(q.first() == a && q.last() == c);
}

/// A set that holds a path's start and is closed under dependency edges
/// holds the path's end: with `row_in_set` closure, everything reachable
/// from a member is a member.
pub proof fn lemma_closed_reaches(r: Seq<bool>, deps: Seq<Seq<usize>>, p: Seq<int>)
    requires
        r.len() == deps.len(),
        deps.len() <= usize::MAX,
        valid_path(deps, p),
        p.len() >= 2,
        r[p.first()],
        forall|i: int| 0 <= i < r.len() && r[i] ==> #[trigger] row_in_set(r, deps, i),
    ensures
        r[p.last()],
    decreases p.len(),
{
    if p.len() == 2 {
        assert(deps[p[0]].contains(p[1] as usize));
        let k = choose|k: int| 0 <= k < deps[p[0]].len() && deps[p[0]][k] == p[1] as usize;
        assert(row_in_set(r, deps, p[0]));
        assert(r[deps[p[0]][k] as int]);
        assert(deps[p[0]][k] as int == p[1]);
    } else {
        let q = p.drop_last();
        assert(valid_path(deps, q)) by {
            assert(forall|i: int| 0 <= i < q.len() ==> q[i] == p[i]);
        }
        assert(q.first() == p.first());
        lemma_closed_reaches(r, deps, q);
        let a = p[p.len() - 2];
        assert(q.last() == a);
        assert(deps[a].contains(p[p.len() - 1] as usize));
        let k = choose|k: int| 0 <= k < deps[a].len() && deps[a][k] == p.last() as usize;
        assert(row_in_set(r, deps, a));
        assert(r[deps[a][k] as int]);
        assert(deps[a][k] as int == p.last());
    }
}

/// A set that holds a path's end and pulls in every node with a member
/// dependency holds the path's start: with `pulled_in` closure, everything
/// that reaches a member is a member.
pub proof fn lemma_pulled_reaches(r: Seq<bool>, deps: Seq<Seq<usize>>, p: Seq<int>)
    requires
        r.len() == deps.len(),
        deps.len() <= usize::MAX,
        valid_path(deps, p),
        p.len() >= 2,
        r[p.last()],
        forall|u: int| 0 <= u < r.len() ==> #[trigger] pulled_in(r, deps, u),
    ensures
        r[p.first()],
    decreases p.len(),
{
    if p.len() == 2 {
        assert(deps[p[0]].contains(p[1] as usize));
        let k = choose|k: int| 0 <= k < deps[p[0]].len() && deps[p[0]][k] == p[1] as usize;
        assert(deps[p[0]][k] as int == p[1]);
        assert(r[deps[p[0]][k] as int]);
        assert(pulled_in(r, deps, p[0]));
        assert(r[p[0]]);
    } else {
        let q = p.drop_first();
        assert(valid_path(deps, q)) by {
            assert forall|i: int| 0 <= i < q.len() implies 0 <= #[trigger] q[i] < deps.len() by {
                assert(q[i] == p[i + 1]);
            }
            assert forall|i: int|
                #![trigger q[i]]
                0 <= i < q.len() - 1 implies deps[q[i]].contains(q[i + 1] as usize) by {
                assert(q[i] == p[i + 1]);
                assert(q[i + 1] == p[i + 2]);
            }
        }
        assert(q.last() == p.last());
        lemma_pulled_reaches(r, deps, q);
        assert(q.first() == p[1]);
        assert(deps[p[0]].contains(p[1] as usize));
        let k = choose|k: int| 0 <= k < deps[p[0]].len() && deps[p[0]][k] == p[1] as usize;
        assert(deps[p[0]][k] as int == p[1]);
        assert(r[deps[p[0]][k] as int]);
        assert(pulled_in(r, deps, p[0]));
    }
}

/// `rank` strictly decreases along every edge of `deps`.
pub open spec fn rank_certifies(rank: Seq<usize>, deps: Seq<Seq<usize>>) -> bool {
    &&& rank.len() == deps.len()
    &&& forall|i: int, k: int|
        0 <= i < deps.len() && 0 <= k < deps[i].len() && deps[i][k] < deps.len()
            ==> rank[#[trigger] deps[i][k] as int] < rank[i]
}

/// Under a rank certificate the rank strictly decreases along every path,
/// so no node reaches itself through one or more edges: the dependency
/// relation of a built graph has no cycle.
pub proof fn lemma_rank_no_cycle(rank: Seq<usize>, deps: Seq<Seq<usize>>, p: Seq<int>)
    requires
        deps.len() <= usize::MAX,
        rank_certifies(rank, deps),
        valid_path(deps, p),
        p.len() >= 2,
    ensures
        rank[p.last()] < rank[p.first()],
        p.first() != p.last(),
    decreases p.len(),
{
    assert(deps[p[0]].contains(p[1] as usize));
    let k = choose|k: int| 0 <= k < deps[p[0]].len() && deps[p[0]][k] == p[1] as usize;
    assert(rank[deps[p[0]][k] as int] < rank[p[0]]);
    assert(deps[p[0]][k] as int == p[1]);
    assert(rank[p[1]] < rank[p[0]]);
    if p.len() == 2 {
        assert(p.last() == p[1]);
    } else {
        let q = p.drop_first();
        assert(valid_path(deps, q)) by {
            assert forall|i: int| 0 <= i < q.len() implies 0 <= #[trigger] q[i] < deps.len() by {
                assert(q[i] == p[i + 1]);
            }
            assert forall|i: int|
                0 <= i < q.len() - 1 implies #[trigger] deps[q[i]].contains(
                q[i + 1] as usize,
            ) by {
                assert(q[i] == p[i + 1]);
                assert(q[i + 1] == p[i + 2]);
            }
        }
        lemma_rank_no_cycle(rank, deps, q);
        assert(q.first() == p[1]);
        assert(q.last() == p.last());
    }
}

} // verus!
