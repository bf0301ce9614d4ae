//! The resolution engine: merges project step metadata, service step
//! overrides and ordered recipe fallbacks into canonical `ServiceStep` nodes.
//!
//! Precedence, highest to lowest: the explicit service step script, then the
//! recipes in configured list order (an earlier recipe's non-empty value wins
//! over a later one's), then nothing. A recipe only ever fills a `check` or
//! `run` field that is still empty after the higher-precedence layers.

use vstd::prelude::*;
use crate::config::{
    ProjectStepConfig, ProjectStepConfigView, ProjectStepOnChanged, RecipeConfig,
    RecipeStepConfig, RecipeStepConfigView, ScriptConfig, ScriptConfigView, ServiceConfig,
    ServiceStepConfig, ServiceStepConfigView, default_project_step,
};
use crate::error::{Error, ErrorView};
use crate::strmap::{StringMap, distinct_keys};
use crate::text::{clone_strings, eq_string_vecs, join_lines, joined_lines, qualified, qualify};

verus! {

/// A resolved script: literal text to execute, a fixed outcome that bypasses
/// execution, or nothing configured.
#[derive(Debug)]
pub enum Script {
    /// Literal script text
    Script(String),
    /// A fixed outcome: `true` succeeds, `false` fails, nothing is executed
    Override(bool),
    /// Nothing configured
    Unset,
}

/// Mathematical model of a [`Script`].
pub enum ScriptView {
    Text(Seq<char>),
    Fixed(bool),
    Unset,
}

impl View for Script {
    type V = ScriptView;

    open spec fn view(&self) -> ScriptView {
        match self {
            Script::Script(s) => ScriptView::Text(s@),
            Script::Override(b) => ScriptView::Fixed(*b),
            Script::Unset => ScriptView::Unset,
        }
    }
}

/// The script a configured value resolves to: a multi-line string stays as it
/// is, an array is joined with newlines, a boolean becomes a fixed outcome.
pub open spec fn script_of(c: ScriptConfigView) -> ScriptView {
    match c {
        ScriptConfigView::Multiline(s) => ScriptView::Text(s),
        ScriptConfigView::Array(a) => ScriptView::Text(joined_lines(a)),
        ScriptConfigView::Boolean(b) => ScriptView::Fixed(b),
        ScriptConfigView::Unset => ScriptView::Unset,
    }
}

impl Script {
    /// Resolve a configured script value.
    pub fn from(config: &ScriptConfig) -> (r: Script)
        ensures
            r@ == script_of(config@),
    {
        match config {
            ScriptConfig::Multiline(val) => Script::Script(val.clone()),
            ScriptConfig::Array(val) => Script::Script(join_lines(val)),
            ScriptConfig::Boolean(val) => Script::Override(*val),
            ScriptConfig::Unset => Script::Unset,
        }
    }
}

impl Clone for Script {
    fn clone(&self) -> (r: Self)
        ensures
            r@ == self@,
    {
        match self {
            Script::Script(s) => Script::Script(s.clone()),
            Script::Override(b) => Script::Override(*b),
            Script::Unset => Script::Unset,
        }
    }
}

impl PartialEq for Script {
    fn eq(&self, other: &Self) -> (r: bool) {
        let r = match (self, other) {
            (Script::Script(a), Script::Script(b)) => *a == *b,
            (Script::Override(a), Script::Override(b)) => *a == *b,
            (Script::Unset, Script::Unset) => true,
            _ => false,
        };
        proof {
            match (self, other) {
                (Script::Script(a), Script::Script(b)) => {}
                (Script::Override(a), Script::Override(b)) => {}
                (Script::Unset, Script::Unset) => {}
                _ => {
                    assert(self@ != other@);
                }
            }
        }
        r
    }
}

impl vstd::std_specs::cmp::PartialEqSpecImpl for Script {
    open spec fn obeys_eq_spec() -> bool {
        true
    }

    open spec fn eq_spec(&self, other: &Self) -> bool {
        self@ == other@
    }
}

/// How a resolved node reacts when its service is reported changed.
#[derive(Debug, Clone, Copy, PartialEq, Eq, Structural)]
pub enum StepOnChanged {
    /// Don't do anything for this step on changed
    Skip,
    /// Do a check first, and perform a run only if needed
    CheckFirst,
    /// Always run on changed
    Run,
}

/// The resolved policy a configured policy maps to.
pub open spec fn on_changed_of(source: ProjectStepOnChanged) -> StepOnChanged {
    match source {
        ProjectStepOnChanged::Skip => StepOnChanged::Skip,
        ProjectStepOnChanged::CheckFirst => StepOnChanged::CheckFirst,
        ProjectStepOnChanged::Run => StepOnChanged::Run,
    }
}

impl StepOnChanged {
    /// Copy the project-level policy into its resolved form.
    pub fn from(source: &ProjectStepOnChanged) -> (r: Self)
        ensures
            r == on_changed_of(*source),
    {
        match source {
            ProjectStepOnChanged::Skip => StepOnChanged::Skip,
            ProjectStepOnChanged::CheckFirst => StepOnChanged::CheckFirst,
            ProjectStepOnChanged::Run => StepOnChanged::Run,
        }
    }
}

/// Unique step:service pair: the resolved unit of execution.
pub struct ServiceStep {
    /// Name of the pair in 'step:service' format.
    pub name: String,
    /// The step component of the name.
    pub step_name: String,
    /// The service component of the name.
    pub service_name: String,
    /// Canonical identifiers of the nodes this node waits on.
    pub depends_on: Vec<String>,
    /// Whether the step is excluded from changed-since selection.
    pub skip_run: bool,
    /// The resolved on-changed policy, copied from the project step.
    pub on_changed: StepOnChanged,
    /// The resolved check script.
    pub check: Script,
    /// The resolved run script.
    pub run: Script,
}

/// Mathematical model of a [`ServiceStep`].
pub struct ServiceStepView {
    pub name: Seq<char>,
    pub step_name: Seq<char>,
    pub service_name: Seq<char>,
    pub depends_on: Seq<Seq<char>>,
    pub skip_run: bool,
    pub on_changed: StepOnChanged,
    pub check: ScriptView,
    pub run: ScriptView,
}

impl View for ServiceStep {
    type V = ServiceStepView;

    open spec fn view(&self) -> ServiceStepView {
        ServiceStepView {
            name: self.name@,
            step_name: self.step_name@,
            service_name: self.service_name@,
            depends_on: self.depends_on.deep_view(),
            skip_run: self.skip_run,
            on_changed: self.on_changed,
            check: self.check@,
            run: self.run@,
        }
    }
}

impl Clone for ServiceStep {
    fn clone(&self) -> (r: Self)
        ensures
            r@ == self@,
    {
        ServiceStep {
            name: self.name.clone(),
            step_name: self.step_name.clone(),
            service_name: self.service_name.clone(),
            depends_on: clone_strings(&self.depends_on),
            skip_run: self.skip_run,
            on_changed: self.on_changed,
            check: self.check.clone(),
            run: self.run.clone(),
        }
    }
}

/// A step:service pair while the configuration layers are still being
/// merged: the scripts are unresolved configuration values.
pub struct ServiceStepBuilder {
    name: String,
    step_name: String,
    service_name: String,
    depends_on: Vec<String>,
    skip_run: bool,
    on_changed: ProjectStepOnChanged,
    check: ScriptConfig,
    run: ScriptConfig,
}

/// Mathematical model of a [`ServiceStepBuilder`].
pub struct ServiceStepBuilderView {
    pub name: Seq<char>,
    pub step_name: Seq<char>,
    pub service_name: Seq<char>,
    pub depends_on: Seq<Seq<char>>,
    pub skip_run: bool,
    pub on_changed: ProjectStepOnChanged,
    pub check: ScriptConfigView,
    pub run: ScriptConfigView,
}

impl View for ServiceStepBuilder {
    type V = ServiceStepBuilderView;

    closed spec fn view(&self) -> ServiceStepBuilderView {
        ServiceStepBuilderView {
            name: self.name@,
            step_name: self.step_name@,
            service_name: self.service_name@,
            depends_on: self.depends_on.deep_view(),
            skip_run: self.skip_run,
            on_changed: self.on_changed,
            check: self.check@,
            run: self.run@,
        }
    }
}

impl Clone for ServiceStepBuilder {
    fn clone(&self) -> (r: Self)
        ensures
            r@ == self@,
    {
        ServiceStepBuilder {
            name: self.name.clone(),
            step_name: self.step_name.clone(),
            service_name: self.service_name.clone(),
            depends_on: clone_strings(&self.depends_on),
            skip_run: self.skip_run,
            on_changed: self.on_changed,
            check: self.check.clone(),
            run: self.run.clone(),
        }
    }
}

/// The dependency identifiers of a node: every project-level step dependency
/// qualified with this node's service, then every service-level service
/// dependency qualified with this node's step.
pub open spec fn qualified_deps(
    step: Seq<char>,
    service: Seq<char>,
    step_deps: Seq<Seq<char>>,
    service_deps: Seq<Seq<char>>,
) -> Seq<Seq<char>> {
    step_deps.map_values(|d: Seq<char>| qualified(d, service)) + service_deps.map_values(
        |s: Seq<char>| qualified(step, s),
    )
}

/// The builder seeded from an explicit service step entry.
pub open spec fn seeded_from_service(
    step: Seq<char>,
    service: Seq<char>,
    pconfig: ProjectStepConfigView,
    sconfig: ServiceStepConfigView,
) -> ServiceStepBuilderView {
    ServiceStepBuilderView {
        name: qualified(step, service),
        step_name: step,
        service_name: service,
        depends_on: qualified_deps(step, service, pconfig.depends_on, sconfig.depends_on),
        skip_run: pconfig.skip_run,
        on_changed: pconfig.on_changed,
        check: sconfig.check,
        run: sconfig.run,
    }
}

/// The builder seeded from a recipe step entry: a recipe carries no
/// dependency information, so only the project-level dependencies apply.
pub open spec fn seeded_from_recipe(
    step: Seq<char>,
    service: Seq<char>,
    pconfig: ProjectStepConfigView,
    rconfig: RecipeStepConfigView,
) -> ServiceStepBuilderView {
    ServiceStepBuilderView {
        name: qualified(step, service),
        step_name: step,
        service_name: service,
        depends_on: qualified_deps(step, service, pconfig.depends_on, Seq::empty()),
        skip_run: pconfig.skip_run,
        on_changed: pconfig.on_changed,
        check: rconfig.check,
        run: rconfig.run,
    }
}

/// A recipe value fills a field only while the field is still empty.
pub open spec fn merge_field(cur: ScriptConfigView, rec: ScriptConfigView) -> ScriptConfigView {
    if cur.is_empty() && !rec.is_empty() {
        rec
    } else {
        cur
    }
}

/// One recipe step applied to a builder: fills empty `check`/`run` fields.
pub open spec fn merge_scripts(
    b: ServiceStepBuilderView,
    r: RecipeStepConfigView,
) -> ServiceStepBuilderView {
    ServiceStepBuilderView { check: merge_field(b.check, r.check), run: merge_field(b.run, r.run), ..b }
}

/// The finished node a builder freezes into.
pub open spec fn built(b: ServiceStepBuilderView) -> ServiceStepView {
    ServiceStepView {
        name: b.name,
        step_name: b.step_name,
        service_name: b.service_name,
        depends_on: b.depends_on,
        skip_run: b.skip_run,
        on_changed: on_changed_of(b.on_changed),
        check: script_of(b.check),
        run: script_of(b.run),
    }
}

/// Qualify each name in `deps` with this node's service: `"<dep>:<service>"`.
fn qualify_with_service(deps: &Vec<String>, service_name: &str) -> (r: Vec<String>)
    ensures
        r.deep_view() == deps.deep_view().map_values(
            |d: Seq<char>| qualified(d, service_name@),
        ),
{
    let mut r: Vec<String> = Vec::new();
    let n = deps.len();
    let mut i: usize = 0;
    while i < n
        invariant
            i <= n,
            n == deps.len(),
            r.deep_view().len() == i,
            forall|j: int|
                0 <= j < i ==> r.deep_view()[j] == qualified(
                    deps.deep_view()[j],
                    service_name@,
                ),
        decreases n - i,
    {
        let ghost rold = r@;
        let ghost prev = r.deep_view();
        r.push(qualify(deps[i].as_str(), service_name));
        i = i + 1;
        proof {
            assert(deps.deep_view().len() == n);
            assert(rold.len() == i - 1);
            assert(r@.len() == i);
            assert(r.deep_view().len() == i);
            assert forall|j: int|
                0 <= j < i implies r.deep_view()[j] == qualified(
                deps.deep_view()[j],
                service_name@,
            ) by {
                assert(r.deep_view()[j] == r@[j]@);
                assert(deps.deep_view()[j] == deps@[j]@);
                if j < i - 1 {
                    assert(r@[j] == rold[j]);
                    assert(prev[j] == rold[j]@);
                    assert(prev[j] == qualified(deps.deep_view()[j], service_name@));
                }
            }
        }
    }
    proof {
        assert(r.deep_view() =~= deps.deep_view().map_values(
            |d: Seq<char>| qualified(d, service_name@),
        ));
    }
    r
}

/// Qualify each name in `deps` with this node's step: `"<step>:<dep>"`.
fn qualify_with_step(step_name: &str, deps: &Vec<String>) -> (r: Vec<String>)
    ensures
        r.deep_view() == deps.deep_view().map_values(|s: Seq<char>| qualified(step_name@, s)),
{
    let mut r: Vec<String> = Vec::new();
    let n = deps.len();
    let mut i: usize = 0;
    while i < n
        invariant
            i <= n,
            n == deps.len(),
            r.deep_view().len() == i,
            forall|j: int|
                0 <= j < i ==> r.deep_view()[j] == qualified(step_name@, deps.deep_view()[j]),
        decreases n - i,
    {
        let ghost rold = r@;
        let ghost prev = r.deep_view();
        r.push(qualify(step_name, deps[i].as_str()));
        i = i + 1;
        proof {
            assert(deps.deep_view().len() == n);
            assert(rold.len() == i - 1);
            assert(r@.len() == i);
            assert(r.deep_view().len() == i);
            assert forall|j: int|
                0 <= j < i implies r.deep_view()[j] == qualified(
                step_name@,
                deps.deep_view()[j],
            ) by {
                assert(r.deep_view()[j] == r@[j]@);
                assert(deps.deep_view()[j] == deps@[j]@);
                if j < i - 1 {
                    assert(r@[j] == rold[j]);
                    assert(prev[j] == rold[j]@);
                    assert(prev[j] == qualified(step_name@, deps.deep_view()[j]));
                }
            }
        }
    }
    proof {
        assert(r.deep_view() =~= deps.deep_view().map_values(
            |s: Seq<char>| qualified(step_name@, s),
        ));
    }
    r
}

impl ServiceStep {
    /// Seed a builder from an explicit service step entry and its matching
    /// project step.
    pub fn from_service_config(
        step_name: &str,
        service_name: &str,
        pconfig: &ProjectStepConfig,
        sconfig: &ServiceStepConfig,
    ) -> (b: ServiceStepBuilder)
        ensures
            b@ == seeded_from_service(step_name@, service_name@, pconfig@, sconfig@),
    {
        let mut depends_on = qualify_with_service(&pconfig.depends_on, service_name);
        let mut service_deps = qualify_with_step(step_name, &sconfig.depends_on);
        let ghost d1 = depends_on.deep_view();
        let ghost d2 = service_deps.deep_view();
        depends_on.append(&mut service_deps);
        proof {
            assert forall|j: int| 0 <= j < depends_on@.len() implies depends_on.deep_view()[j]
                == (d1 + d2)[j] by {
                assert(depends_on.deep_view()[j] == depends_on@[j]@);
            }
            assert(depends_on.deep_view() =~= d1 + d2);
        }
        ServiceStepBuilder {
            name: qualify(step_name, service_name),
            step_name: step_name.to_owned(),
            service_name: service_name.to_owned(),
            depends_on,
            skip_run: pconfig.skip_run,
            on_changed: pconfig.on_changed,
            check: sconfig.check.clone(),
            run: sconfig.run.clone(),
        }
    }

    /// Seed a builder from a recipe step entry: the recipe supplies only
    /// scripts, the project step (or its default) supplies the metadata.
    pub fn from_recipe_config(
        step_name: &str,
        service_name: &str,
        pconfig: &ProjectStepConfig,
        rconfig: &RecipeStepConfig,
    ) -> (b: ServiceStepBuilder)
        ensures
            b@ == seeded_from_recipe(step_name@, service_name@, pconfig@, rconfig@),
    {
        let depends_on = qualify_with_service(&pconfig.depends_on, service_name);
        proof {
            assert(Seq::<Seq<char>>::empty().map_values(
                |s: Seq<char>| qualified(step_name@, s),
            ) =~= Seq::<Seq<char>>::empty());
            assert(depends_on.deep_view() =~= qualified_deps(
                step_name@,
                service_name@,
                pconfig@.depends_on,
                Seq::empty(),
            ));
        }
        ServiceStepBuilder {
            name: qualify(step_name, service_name),
            step_name: step_name.to_owned(),
            service_name: service_name.to_owned(),
            depends_on,
            skip_run: pconfig.skip_run,
            on_changed: pconfig.on_changed,
            check: rconfig.check.clone(),
            run: rconfig.run.clone(),
        }
    }
}

impl ServiceStepBuilder {
    /// Update the `ServiceStepBuilder` with values from a `RecipeStepConfig`
    /// if the builder doesn't contain values for check or run and the recipe
    /// does.
    pub fn with_recipe(&mut self, config: &RecipeStepConfig)
        ensures
            final(self)@ == merge_scripts(old(self)@, config@),
    {
        if self.check.is_empty() && !config.check.is_empty() {
            self.check = config.check.clone();
        }
        if self.run.is_empty() && !config.run.is_empty() {
            self.run = config.run.clone();
        }
    }

    /// Build into an owned `ServiceStep`
    pub fn build(&self) -> (r: ServiceStep)
        ensures
            r@ == built(self@),
    {
        ServiceStep {
            name: self.name.clone(),
            step_name: self.step_name.clone(),
            service_name: self.service_name.clone(),
            depends_on: clone_strings(&self.depends_on),
            skip_run: self.skip_run,
            on_changed: StepOnChanged::from(&self.on_changed),
            check: Script::from(&self.check),
            run: Script::from(&self.run),
        }
    }
}


/// Every entry's step name has a matching project step.
pub open spec fn all_steps_known<T>(
    psteps: Map<Seq<char>, ProjectStepConfigView>,
    entries: Seq<(Seq<char>, T)>,
) -> bool
    decreases entries.len(),
{
    if entries.len() == 0 {
        true
    } else {
        psteps.contains_key(entries[0].0) && all_steps_known(psteps, entries.drop_first())
    }
}

/// The first entry key with no matching project step (meaningful only when
/// not every step is known).
pub open spec fn first_unknown<T>(
    psteps: Map<Seq<char>, ProjectStepConfigView>,
    entries: Seq<(Seq<char>, T)>,
) -> Seq<char>
    decreases entries.len(),
{
    if entries.len() == 0 {
        Seq::empty()
    } else if !psteps.contains_key(entries[0].0) {
        entries[0].0
    } else {
        first_unknown(psteps, entries.drop_first())
    }
}

/// The builders seeded from a service's own step entries, in entry order.
pub open spec fn seeded_steps(
    service: Seq<char>,
    psteps: Map<Seq<char>, ProjectStepConfigView>,
    entries: Seq<(Seq<char>, ServiceStepConfigView)>,
) -> Map<Seq<char>, ServiceStepBuilderView>
    decreases entries.len(),
{
    if entries.len() == 0 {
        Map::empty()
    } else {
        seeded_steps(service, psteps, entries.drop_last()).insert(
            entries.last().0,
            seeded_from_service(entries.last().0, service, psteps[entries.last().0], entries.last().1),
        )
    }
}

/// The project step a name resolves to, or the default step metadata when
/// the project does not configure that step.
pub open spec fn pstep_or_default(
    psteps: Map<Seq<char>, ProjectStepConfigView>,
    k: Seq<char>,
) -> ProjectStepConfigView {
    if psteps.contains_key(k) {
        psteps[k]
    } else {
        default_project_step()
    }
}

/// One recipe applied to a builder's step table, entry by entry: an entry
/// for a known step fills that builder's still-empty fields; an entry for a
/// step the table lacks seeds a new builder from the recipe.
pub open spec fn apply_recipe_entries(
    steps: Map<Seq<char>, ServiceStepBuilderView>,
    service: Seq<char>,
    psteps: Map<Seq<char>, ProjectStepConfigView>,
    entries: Seq<(Seq<char>, RecipeStepConfigView)>,
) -> Map<Seq<char>, ServiceStepBuilderView>
    decreases entries.len(),
{
    if entries.len() == 0 {
        steps
    } else {
        let k = entries[0].0;
        let r = entries[0].1;
        let cur = if steps.contains_key(k) {
            steps[k]
        } else {
            seeded_from_recipe(k, service, pstep_or_default(psteps, k), r)
        };
        apply_recipe_entries(
            steps.insert(k, merge_scripts(cur, r)),
            service,
            psteps,
            entries.drop_first(),
        )
    }
}

/// Map-level form of [`seeded_steps`]: one seeded builder per entry of the
/// service's own step table.
pub open spec fn seeded_steps_map(
    service: Seq<char>,
    psteps: Map<Seq<char>, ProjectStepConfigView>,
    ssteps: Map<Seq<char>, ServiceStepConfigView>,
) -> Map<Seq<char>, ServiceStepBuilderView> {
    Map::new(
        |k: Seq<char>| ssteps.contains_key(k),
        |k: Seq<char>| seeded_from_service(k, service, psteps[k], ssteps[k]),
    )
}

/// Seeding entry by entry over distinct keys builds exactly the map-level
/// seeding of the entries' map.
pub proof fn lemma_seeded_steps_map(
    service: Seq<char>,
    psteps: Map<Seq<char>, ProjectStepConfigView>,
    entries: Seq<(Seq<char>, ServiceStepConfigView)>,
)
    requires
        distinct_keys(entries),
    ensures
        seeded_steps(service, psteps, entries) == seeded_steps_map(
            service,
            psteps,
            crate::strmap::map_of(entries),
        ),
    decreases entries.len(),
{
    if entries.len() == 0 {
        assert(seeded_steps(service, psteps, entries) =~= seeded_steps_map(
            service,
            psteps,
            crate::strmap::map_of(entries),
        ));
    } else {
        let pre = entries.drop_last();
        assert(distinct_keys(pre)) by {
            assert(forall|i: int| 0 <= i < pre.len() ==> pre[i] == entries[i]);
        }
        lemma_seeded_steps_map(service, psteps, pre);
        assert(seeded_steps(service, psteps, entries) =~= seeded_steps_map(
            service,
            psteps,
            crate::strmap::map_of(entries),
        ));
    }
}

/// Map-level form of [`apply_recipe_entries`]: every step the recipe supplies
/// is merged into (or seeded in) the builder table; other steps are kept.
pub open spec fn apply_recipe_map(
    steps: Map<Seq<char>, ServiceStepBuilderView>,
    service: Seq<char>,
    psteps: Map<Seq<char>, ProjectStepConfigView>,
    rsteps: Map<Seq<char>, RecipeStepConfigView>,
) -> Map<Seq<char>, ServiceStepBuilderView> {
    Map::new(
        |k: Seq<char>| steps.contains_key(k) || rsteps.contains_key(k),
        |k: Seq<char>|
            if rsteps.contains_key(k) {
                merge_scripts(
                    if steps.contains_key(k) {
                        steps[k]
                    } else {
                        seeded_from_recipe(k, service, pstep_or_default(psteps, k), rsteps[k])
                    },
                    rsteps[k],
                )
            } else {
                steps[k]
            },
    )
}

/// Applying a recipe entry by entry over distinct keys builds exactly the
/// map-level application of the entries' map.
pub proof fn lemma_apply_recipe_entries_map(
    steps: Map<Seq<char>, ServiceStepBuilderView>,
    service: Seq<char>,
    psteps: Map<Seq<char>, ProjectStepConfigView>,
    entries: Seq<(Seq<char>, RecipeStepConfigView)>,
)
    requires
        distinct_keys(entries),
    ensures
        apply_recipe_entries(steps, service, psteps, entries) == apply_recipe_map(
            steps,
            service,
            psteps,
            crate::strmap::map_of(entries),
        ),
    decreases entries.len(),
{
    if entries.len() == 0 {
        assert(apply_recipe_entries(steps, service, psteps, entries) =~= apply_recipe_map(
            steps,
            service,
            psteps,
            crate::strmap::map_of(entries),
        ));
    } else {
        let k0 = entries[0].0;
        let r0 = entries[0].1;
        let tail = entries.drop_first();
        assert(distinct_keys(tail)) by {
            assert(forall|i: int| 0 <= i < tail.len() ==> tail[i] == entries[i + 1]);
        }
        let cur = if steps.contains_key(k0) {
            steps[k0]
        } else {
            seeded_from_recipe(k0, service, pstep_or_default(psteps, k0), r0)
        };
        let steps1 = steps.insert(k0, merge_scripts(cur, r0));
        lemma_apply_recipe_entries_map(steps1, service, psteps, tail);
        crate::strmap::lemma_map_of_drop_first(entries);
        crate::strmap::lemma_map_of_contains(tail, k0);
        assert(forall|i: int| 0 <= i < tail.len() ==> tail[i].0 != k0);
        assert(!crate::strmap::map_of(tail).contains_key(k0));
        assert(apply_recipe_map(steps1, service, psteps, crate::strmap::map_of(tail))
            =~= apply_recipe_map(steps, service, psteps, crate::strmap::map_of(entries)));
    }
}

/// The recipes of a service applied in declared order: an earlier recipe is
/// applied first, so a later recipe can only fill what is still empty.
pub open spec fn apply_recipes_map(
    steps: Map<Seq<char>, ServiceStepBuilderView>,
    service: Seq<char>,
    psteps: Map<Seq<char>, ProjectStepConfigView>,
    rmaps: Seq<Map<Seq<char>, RecipeStepConfigView>>,
) -> Map<Seq<char>, ServiceStepBuilderView>
    decreases rmaps.len(),
{
    if rmaps.len() == 0 {
        steps
    } else {
        apply_recipes_map(
            apply_recipe_map(steps, service, psteps, rmaps[0]),
            service,
            psteps,
            rmaps.drop_first(),
        )
    }
}

/// The builder table a service's three configuration layers resolve to:
/// seed from the service's own steps, then apply the recipes in declared
/// order.
pub open spec fn resolved_builders(
    service: Seq<char>,
    psteps: Map<Seq<char>, ProjectStepConfigView>,
    ssteps: Map<Seq<char>, ServiceStepConfigView>,
    rmaps: Seq<Map<Seq<char>, RecipeStepConfigView>>,
) -> Map<Seq<char>, ServiceStepBuilderView> {
    apply_recipes_map(seeded_steps_map(service, psteps, ssteps), service, psteps, rmaps)
}

/// Every builder of the table frozen into its node.
pub open spec fn built_map(
    m: Map<Seq<char>, ServiceStepBuilderView>,
) -> Map<Seq<char>, ServiceStepView> {
    Map::new(|k: Seq<char>| m.contains_key(k), |k: Seq<char>| built(m[k]))
}

/// Service
///
/// This contains a resolved version of the Service, after parsing recipes and
/// steps.
pub struct Service {
    /// Name of the service
    pub name: String,
    /// Steps and their resolved nodes, by step name.
    steps: StringMap<ServiceStep>,
}

/// Mathematical model of a [`Service`].
pub struct ServiceView {
    pub name: Seq<char>,
    pub steps: Map<Seq<char>, ServiceStepView>,
}

impl View for Service {
    type V = ServiceView;

    closed spec fn view(&self) -> ServiceView {
        ServiceView { name: self.name@, steps: self.steps@ }
    }
}

impl Service {
    /// Create a service from a configuration file
    ///
    /// This returns a builder to process the recipes mentioned in the
    /// configuration file, as the final `Service` struct is not aware of the
    /// recipes. Fails when a service step names a step that the project does
    /// not define.
    pub fn from_config(
        name: &str,
        project_steps: &StringMap<ProjectStepConfig>,
        config: &ServiceConfig,
    ) -> (r: Result<ServiceBuilder, Error>)
        ensures
            match r {
                Ok(b) => {
                    &&& all_steps_known(project_steps@, config.steps.kv_seq())
                    &&& b@.name == name@
                    &&& b@.steps == seeded_steps(name@, project_steps@, config.steps.kv_seq())
                },
                Err(e) => {
                    &&& !all_steps_known(project_steps@, config.steps.kv_seq())
                    &&& e@ == (ErrorView::MissingStep {
                        name: first_unknown(project_steps@, config.steps.kv_seq()),
                    })
                },
            },
    {
        let ghost entries = config.steps.kv_seq();
        let mut steps: StringMap<ServiceStepBuilder> = StringMap::new();
        let n = config.steps.len();
        let mut i: usize = 0;
        proof {
            assert(entries.skip(0) =~= entries);
            assert(entries.take(0) =~= Seq::<(Seq<char>, ServiceStepConfigView)>::empty());
        }
        while i < n
            invariant
                i <= n,
                n == config.steps.spec_len(),
                entries == config.steps.kv_seq(),
                steps@ == seeded_steps(name@, project_steps@, entries.take(i as int)),
                all_steps_known(project_steps@, entries) == all_steps_known(
                    project_steps@,
                    entries.skip(i as int),
                ),
                first_unknown(project_steps@, entries) == first_unknown(
                    project_steps@,
                    entries.skip(i as int),
                ),
            decreases n - i,
        {
            let key = config.steps.key_at(i);
            let scfg = config.steps.value_at(i);
            proof {
                assert(entries.skip(i as int)[0] == entries[i as int]);
            }
            match project_steps.get(key) {
                Some(pcfg) => {
                    let b = ServiceStep::from_service_config(
                        key.as_str(),
                        name,
                        pcfg,
                        scfg,
                    );
                    steps.insert(key.clone(), b);
                }
                None => {
                    proof {
                        assert(!all_steps_known(project_steps@, entries.skip(i as int)));
                        assert(first_unknown(project_steps@, entries.skip(i as int))
                            == entries[i as int].0);
                    }
                    return Err(Error::MissingStep { name: key.clone() });
                }
            }
            i = i + 1;
            proof {
                assert(entries.take(i as int).drop_last() =~= entries.take(i - 1));
                assert(entries.take(i as int).last() == entries[i - 1]);
                assert(entries.skip(i - 1).drop_first() =~= entries.skip(i as int));
            }
        }
        proof {
            assert(entries.take(n as int) =~= entries);
            assert(entries.skip(n as int) =~= Seq::<(Seq<char>, ServiceStepConfigView)>::empty());
        }
        Ok(ServiceBuilder { name: name.to_owned(), steps })
    }

    // Retrieve a `ServiceStep` pair if it exists
    pub fn get_step(&self, step_name: &str) -> (r: Option<&ServiceStep>)
        ensures
            match r {
                Some(s) => self@.steps.contains_key(step_name@) && s@ == self@.steps[step_name@],
                None => !self@.steps.contains_key(step_name@),
            },
    {
        let key = step_name.to_owned();
        self.steps.get(&key)
    }

    /// All resolved nodes of this service, by step name.
    pub fn all_steps(&self) -> (r: &StringMap<ServiceStep>)
        ensures
            r@ == self@.steps,
    {
        &self.steps
    }
}

/// Builder for a Service
///
/// This is returned from the `Service::from_config` call and contains a method
/// to process recipes one at a time, in precedence order: an earlier recipe's
/// value wins over a later one's.
pub struct ServiceBuilder {
    name: String,
    steps: StringMap<ServiceStepBuilder>,
}

/// Mathematical model of a [`ServiceBuilder`].
pub struct ServiceBuilderView {
    pub name: Seq<char>,
    pub steps: Map<Seq<char>, ServiceStepBuilderView>,
}

impl View for ServiceBuilder {
    type V = ServiceBuilderView;

    closed spec fn view(&self) -> ServiceBuilderView {
        ServiceBuilderView { name: self.name@, steps: self.steps@ }
    }
}

impl ServiceBuilder {
    /// Inject a recipe into the builder
    ///
    /// A step the builder already holds only has its still-empty check/run
    /// fields filled; a step it lacks is seeded from the recipe, with the
    /// matching project step's metadata where one exists and the default
    /// metadata where none does.
    pub fn with_recipe(
        &mut self,
        project_steps: &StringMap<ProjectStepConfig>,
        recipe: &RecipeConfig,
    )
        ensures
            final(self)@.name == old(self)@.name,
            final(self)@.steps == apply_recipe_entries(
                old(self)@.steps,
                old(self)@.name,
                project_steps@,
                recipe.steps.kv_seq(),
            ),
    {
        let ghost entries = recipe.steps.kv_seq();
        let ghost name0 = self@.name;
        let ghost steps0 = self@.steps;
        let n = recipe.steps.len();
        let mut i: usize = 0;
        proof {
            assert(entries.skip(0) =~= entries);
        }
        while i < n
            invariant
                i <= n,
                n == recipe.steps.spec_len(),
                entries == recipe.steps.kv_seq(),
                self@.name == name0,
                apply_recipe_entries(self@.steps, name0, project_steps@, entries.skip(i as int))
                    == apply_recipe_entries(steps0, name0, project_steps@, entries),
            decreases n - i,
        {
            let key = recipe.steps.key_at(i);
            let rcfg = recipe.steps.value_at(i);
            let ghost pre = self@.steps;
            proof {
                assert(entries.skip(i as int)[0] == entries[i as int]);
            }
            let mut b: ServiceStepBuilder = match self.steps.get(key) {
                Some(existing) => existing.clone(),
                None => {
                    match project_steps.get(key) {
                        Some(pcfg) => ServiceStep::from_recipe_config(
                            key.as_str(),
                            self.name.as_str(),
                            pcfg,
                            rcfg,
                        ),
                        None => {
                            let d = ProjectStepConfig::default();
                            ServiceStep::from_recipe_config(
                                key.as_str(),
                                self.name.as_str(),
                                &d,
                                rcfg,
                            )
                        }
                    }
                }
            };
            b.with_recipe(rcfg);
            self.steps.insert(key.clone(), b);
            i = i + 1;
            proof {
                assert(entries.skip(i - 1).drop_first() =~= entries.skip(i as int));
            }
        }
        proof {
            assert(entries.skip(n as int) =~= Seq::<(Seq<char>, RecipeStepConfigView)>::empty());
        }
    }

    /// Build into an owned `Service`: every builder freezes into its node.
    pub fn build(self) -> (r: Service)
        ensures
            r@.name == self@.name,
            r@.steps.dom() == self@.steps.dom(),
            forall|k: Seq<char>|
                self@.steps.contains_key(k) ==> r@.steps[k] == built(#[trigger] self@.steps[k]),
    {
        let ghost entries = self.steps.kv_seq();
        let mut steps: StringMap<ServiceStep> = StringMap::new();
        let n = self.steps.len();
        let mut i: usize = 0;
        while i < n
            invariant
                i <= n,
                n == self.steps.spec_len(),
                entries == self.steps.kv_seq(),
                steps@.dom() =~= crate::strmap::map_of(entries.take(i as int)).dom(),
                forall|k: Seq<char>|
                    crate::strmap::map_of(entries.take(i as int)).contains_key(k) ==> steps@[k]
                        == built(#[trigger] crate::strmap::map_of(entries.take(i as int))[k]),
            decreases n - i,
        {
            let key = self.steps.key_at(i);
            let bld = self.steps.value_at(i);
            let node = bld.build();
            steps.insert(key.clone(), node);
            i = i + 1;
            proof {
                assert(entries.take(i as int).drop_last() =~= entries.take(i - 1));
                assert(entries.take(i as int).last() == entries[i - 1]);
            }
        }
        proof {
            assert(entries.take(n as int) =~= entries);
            assert(steps@.dom() =~= self@.steps.dom());
        }
        Service { name: self.name, steps }
    }
}

} // verus!
