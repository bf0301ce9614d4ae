//! Plain configuration data as read from the project, service and recipe
//! configuration files: scripts, step metadata and the per-file shapes.
//!
//! These types carry no behaviour beyond validation of shape; the resolution
//! engine turns them into canonical execution nodes.

use vstd::prelude::*;
use crate::strmap::StringMap;
use crate::text::{clone_strings, eq_string_vecs};

verus! {

/// A script value as it appears in a configuration file: one multi-line
/// string, an array of lines, a boolean fixed-outcome override, or nothing.
#[derive(Debug)]
pub enum ScriptConfig {
    /// Single string with multiple lines
    Multiline(String),
    /// Multiple strings in an array
    Array(Vec<String>),
    /// A single boolean value: a fixed outcome instead of a real script
    Boolean(bool),
    /// No value configured
    Unset,
}

/// Mathematical model of a [`ScriptConfig`].
pub enum ScriptConfigView {
    Multiline(Seq<char>),
    Array(Seq<Seq<char>>),
    Boolean(bool),
    Unset,
}

impl ScriptConfigView {
    /// An empty value: nothing configured, an empty string, or an empty
    /// array. A boolean override is never empty.
    pub open spec fn is_empty(self) -> bool {
        match self {
            ScriptConfigView::Multiline(s) => s.len() == 0,
            ScriptConfigView::Array(a) => a.len() == 0,
            ScriptConfigView::Boolean(_) => false,
            ScriptConfigView::Unset => true,
        }
    }
}

impl View for ScriptConfig {
    type V = ScriptConfigView;

    open spec fn view(&self) -> ScriptConfigView {
        match self {
            ScriptConfig::Multiline(s) => ScriptConfigView::Multiline(s@),
            ScriptConfig::Array(v) => ScriptConfigView::Array(v.deep_view()),
            ScriptConfig::Boolean(b) => ScriptConfigView::Boolean(*b),
            ScriptConfig::Unset => ScriptConfigView::Unset,
        }
    }
}

impl ScriptConfig {
    /// Check if this contains an empty value
    ///
    /// There are multiple scenarios where this could contain an empty value:
    /// * it's a default value (`Self::Unset`)
    /// * it contains an empty string (`Self::Multiline`)
    /// * it contains an empty array (`Self::Array`)
    pub fn is_empty(&self) -> (r: bool)
        ensures
            r == self@.is_empty(),
    {
        match self {
            ScriptConfig::Multiline(val) => val.as_str().is_empty(),
            ScriptConfig::Array(val) => val.is_empty(),
            ScriptConfig::Boolean(_) => false,
            ScriptConfig::Unset => true,
        }
    }
}

impl Default for ScriptConfig {
    fn default() -> (r: Self)
        ensures
            r@ == ScriptConfigView::Unset,
    {
        ScriptConfig::Unset
    }
}

impl Clone for ScriptConfig {
    fn clone(&self) -> (r: Self)
        ensures
            r@ == self@,
    {
        match self {
            ScriptConfig::Multiline(s) => ScriptConfig::Multiline(s.clone()),
            ScriptConfig::Array(v) => ScriptConfig::Array(clone_strings(v)),
            ScriptConfig::Boolean(b) => ScriptConfig::Boolean(*b),
            ScriptConfig::Unset => ScriptConfig::Unset,
        }
    }
}

impl PartialEq for ScriptConfig {
    fn eq(&self, other: &Self) -> (r: bool) {
        let r = match (self, other) {
            (ScriptConfig::Multiline(a), ScriptConfig::Multiline(b)) => *a == *b,
            (ScriptConfig::Array(a), ScriptConfig::Array(b)) => eq_string_vecs(a, b),
            (ScriptConfig::Boolean(a), ScriptConfig::Boolean(b)) => *a == *b,
            (ScriptConfig::Unset, ScriptConfig::Unset) => true,
            _ => false,
        };
        proof {
            match (self, other) {
                (ScriptConfig::Multiline(a), ScriptConfig::Multiline(b)) => {}
                (ScriptConfig::Array(a), ScriptConfig::Array(b)) => {}
                (ScriptConfig::Boolean(a), ScriptConfig::Boolean(b)) => {}
                (ScriptConfig::Unset, ScriptConfig::Unset) => {}
                _ => {
                    assert(self@ != other@);
                }
            }
        }
        r
    }
}

impl vstd::std_specs::cmp::PartialEqSpecImpl for ScriptConfig {
    open spec fn obeys_eq_spec() -> bool {
        true
    }

    open spec fn eq_spec(&self, other: &Self) -> bool {
        self@ == other@
    }
}

/// How a step reacts when its service is reported changed.
#[derive(Debug, Clone, Copy, PartialEq, Eq, Structural)]
pub enum ProjectStepOnChanged {
    /// Don't do anything for this step on changed
    Skip,
    /// Do a check first, and perform a run only if needed
    CheckFirst,
    /// Always run on changed
    Run,
}

impl Default for ProjectStepOnChanged {
    fn default() -> (r: Self)
        ensures
            r == ProjectStepOnChanged::Run,
    {
        ProjectStepOnChanged::Run
    }
}

/// Represent the configuration for a project step
///
/// This doesn't contain any default actions, but just the dependencies from
/// that step to other steps, and the step's scheduling flags.
pub struct ProjectStepConfig {
    /// Step names that should be run before this step, for every service.
    pub depends_on: Vec<String>,
    /// Whether this step should be skipped unless explicitly mentioned.
    pub skip_run: bool,
    /// Whether we should run this stage when we detected a change within a
    /// service.
    pub on_changed: ProjectStepOnChanged,
}

/// Mathematical model of a [`ProjectStepConfig`].
pub struct ProjectStepConfigView {
    pub depends_on: Seq<Seq<char>>,
    pub skip_run: bool,
    pub on_changed: ProjectStepOnChanged,
}

impl View for ProjectStepConfig {
    type V = ProjectStepConfigView;

    open spec fn view(&self) -> ProjectStepConfigView {
        ProjectStepConfigView {
            depends_on: self.depends_on.deep_view(),
            skip_run: self.skip_run,
            on_changed: self.on_changed,
        }
    }
}

/// The metadata a step carries when no project step configures it: no
/// dependencies, selectable, run on change.
pub open spec fn default_project_step() -> ProjectStepConfigView {
    ProjectStepConfigView {
        depends_on: Seq::empty(),
        skip_run: false,
        on_changed: ProjectStepOnChanged::Run,
    }
}

impl Default for ProjectStepConfig {
    fn default() -> (r: Self)
        ensures
            r@ == default_project_step(),
    {
        let r = ProjectStepConfig {
            depends_on: Vec::new(),
            skip_run: false,
            on_changed: ProjectStepOnChanged::Run,
        };
        proof {
            assert(r@.depends_on =~= Seq::<Seq<char>>::empty());
        }
        r
    }
}

/// All options and flags for a project
pub struct ProjectOptions {
    /// Name of the container image to use
    ///
    /// By default, we use the `ubuntu:20.04` container image.
    pub container_image: String,
}

/// Mathematical model of [`ProjectOptions`].
pub struct ProjectOptionsView {
    pub container_image: Seq<char>,
}

impl View for ProjectOptions {
    type V = ProjectOptionsView;

    open spec fn view(&self) -> ProjectOptionsView {
        ProjectOptionsView { container_image: self.container_image@ }
    }
}

/// The container image used when the project configures none.
pub fn default_container_image() -> (r: String)
    ensures
        r@ == "ubuntu:20.04"@,
{
    "ubuntu:20.04".to_owned()
}

impl Default for ProjectOptions {
    fn default() -> (r: Self)
        ensures
            r@.container_image == "ubuntu:20.04"@,
    {
        ProjectOptions { container_image: default_container_image() }
    }
}

/// Representation of the project configuration file
pub struct ProjectConfig {
    /// Name of the project
    pub name: String,
    /// The abstract steps the project defines, by name.
    pub steps: StringMap<ProjectStepConfig>,
    /// Project-wide options.
    pub options: ProjectOptions,
}

/// Mathematical model of a [`ProjectConfig`].
pub struct ProjectConfigView {
    pub name: Seq<char>,
    pub steps: Map<Seq<char>, ProjectStepConfigView>,
    pub options: ProjectOptionsView,
}

impl View for ProjectConfig {
    type V = ProjectConfigView;

    open spec fn view(&self) -> ProjectConfigView {
        ProjectConfigView { name: self.name@, steps: self.steps@, options: self.options@ }
    }
}

impl Default for ProjectConfig {
    fn default() -> (r: Self)
        ensures
            r@.name == Seq::<char>::empty(),
            r@.steps =~= Map::<Seq<char>, ProjectStepConfigView>::empty(),
            r@.options.container_image == "ubuntu:20.04"@,
    {
        ProjectConfig {
            name: String::new(),
            steps: StringMap::new(),
            options: ProjectOptions::default(),
        }
    }
}

/// Step in a recipe config file
///
/// This is similar to a `ServiceStepConfig` with the exception that
/// `RecipeStepConfig` doesn't support `depends_on`.
pub struct RecipeStepConfig {
    /// Shell script to run on a 'check'
    pub check: ScriptConfig,
    /// Shell script to run on a 'run'
    pub run: ScriptConfig,
}

/// Mathematical model of a [`RecipeStepConfig`].
pub struct RecipeStepConfigView {
    pub check: ScriptConfigView,
    pub run: ScriptConfigView,
}

impl View for RecipeStepConfig {
    type V = RecipeStepConfigView;

    open spec fn view(&self) -> RecipeStepConfigView {
        RecipeStepConfigView { check: self.check@, run: self.run@ }
    }
}

impl Default for RecipeStepConfig {
    fn default() -> (r: Self)
        ensures
            r@.check == ScriptConfigView::Unset,
            r@.run == ScriptConfigView::Unset,
    {
        RecipeStepConfig { check: ScriptConfig::Unset, run: ScriptConfig::Unset }
    }
}

impl Clone for RecipeStepConfig {
    fn clone(&self) -> (r: Self)
        ensures
            r@ == self@,
    {
        RecipeStepConfig { check: self.check.clone(), run: self.run.clone() }
    }
}

/// A named, reusable bundle of step script defaults shared by services.
pub struct RecipeConfig {
    /// The step defaults the recipe supplies, by step name.
    pub steps: StringMap<RecipeStepConfig>,
}

/// Mathematical model of a [`RecipeConfig`].
pub struct RecipeConfigView {
    pub steps: Map<Seq<char>, RecipeStepConfigView>,
}

impl View for RecipeConfig {
    type V = RecipeConfigView;

    open spec fn view(&self) -> RecipeConfigView {
        RecipeConfigView { steps: self.steps@ }
    }
}

impl Default for RecipeConfig {
    fn default() -> (r: Self)
        ensures
            r@.steps =~= Map::<Seq<char>, RecipeStepConfigView>::empty(),
            r.steps.spec_len() == 0,
    {
        RecipeConfig { steps: StringMap::new() }
    }
}

/// Step in a service config file
pub struct ServiceStepConfig {
    /// List of service names whose same step this step:service pair
    /// depends on.
    pub depends_on: Vec<String>,
    /// Shell script to run on a 'check'
    pub check: ScriptConfig,
    /// Shell script to run on a 'run'
    pub run: ScriptConfig,
}

/// Mathematical model of a [`ServiceStepConfig`].
pub struct ServiceStepConfigView {
    pub depends_on: Seq<Seq<char>>,
    pub check: ScriptConfigView,
    pub run: ScriptConfigView,
}

impl View for ServiceStepConfig {
    type V = ServiceStepConfigView;

    open spec fn view(&self) -> ServiceStepConfigView {
        ServiceStepConfigView {
            depends_on: self.depends_on.deep_view(),
            check: self.check@,
            run: self.run@,
        }
    }
}

impl Default for ServiceStepConfig {
    fn default() -> (r: Self)
        ensures
            r@.depends_on == Seq::<Seq<char>>::empty(),
            r@.check == ScriptConfigView::Unset,
            r@.run == ScriptConfigView::Unset,
    {
        let r = ServiceStepConfig {
            depends_on: Vec::new(),
            check: ScriptConfig::Unset,
            run: ScriptConfig::Unset,
        };
        proof {
            assert(r@.depends_on =~= Seq::<Seq<char>>::empty());
        }
        r
    }
}

/// Config file of a service
pub struct ServiceConfig {
    /// Storing commands and dependencies for each step for the service
    pub steps: StringMap<ServiceStepConfig>,
    /// Names of the recipes this service inherits from, in declared order.
    pub recipes: Vec<String>,
}

/// Mathematical model of a [`ServiceConfig`].
pub struct ServiceConfigView {
    pub steps: Map<Seq<char>, ServiceStepConfigView>,
    pub recipes: Seq<Seq<char>>,
}

impl View for ServiceConfig {
    type V = ServiceConfigView;

    open spec fn view(&self) -> ServiceConfigView {
        ServiceConfigView { steps: self.steps@, recipes: self.recipes.deep_view() }
    }
}

impl Default for ServiceConfig {
    fn default() -> (r: Self)
        ensures
            r@.steps =~= Map::<Seq<char>, ServiceStepConfigView>::empty(),
            r.steps.spec_len() == 0,
            r@.recipes == Seq::<Seq<char>>::empty(),
    {
        let r = ServiceConfig { steps: StringMap::new(), recipes: Vec::new() };
        proof {
            assert(r@.recipes =~= Seq::<Seq<char>>::empty());
        }
        r
    }
}

} // verus!
