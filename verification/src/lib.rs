//! A monorepo task orchestrator core: merges project, service and recipe
//! configuration layers into canonical `step:service` execution nodes, builds
//! the dependency graph over them, selects the nodes a run asks for, and
//! drives them to completion through a worker-pool state machine.

mod cmd;
mod config;
mod error;
mod graph;
mod laws;
mod project;
mod sched;
mod service;
mod strmap;
mod text;

pub use cmd::{
    RunOptions, among, changed_seed, changed_target, collect_nodes, duplicate_identifier,
    explicit_seed, is_seed, mode_of, project_cycle_member, project_node, run, run_node_of,
    select, unresolvable_dependency,
};
pub use config::{
    ProjectConfig, ProjectConfigView, ProjectOptions, ProjectOptionsView, ProjectStepConfig,
    ProjectStepConfigView, ProjectStepOnChanged, RecipeConfig, RecipeConfigView, RecipeStepConfig,
    RecipeStepConfigView, ScriptConfig, ScriptConfigView, ServiceConfig, ServiceConfigView,
    ServiceStepConfig, ServiceStepConfigView, default_container_image, default_project_step,
};
pub use error::{Error, ErrorView};
pub use graph::{
    Graph, all_deps_resolvable, count_true, cycle_member, edges_match, lemma_edge_reaches,
    lemma_rank_no_cycle, lemma_reaches_pre, lemma_reaches_step, node_views, pulled_in,
    rank_certifies, reaches, row_in_set, valid_path,
};
pub use laws::{
    lemma_dependency_qualification, lemma_earlier_recipe_wins_check,
    lemma_earlier_recipe_wins_run, lemma_recipes_never_overwrite,
    lemma_resolution_idempotent, lemma_service_value_wins,
};
pub use project::{
    Project, ProjectView, missing_recipes, recipe_maps_of, service_folder_prefix,
};
pub use sched::{
    Action, NodeState, Report, RunMode, Scheduler, count_pending, deps_succeeded,
    dispatch_script, has_bad_dep, is_advanced, is_terminal, lemma_override_settles, node_inv,
    settled_state,
};
pub use service::{
    Script, ScriptView, Service, ServiceBuilder, ServiceBuilderView, ServiceStep,
    ServiceStepBuilder, ServiceStepBuilderView, ServiceStepView, ServiceView, StepOnChanged,
    all_steps_known,
    apply_recipe_entries, apply_recipe_map, apply_recipes_map, built, built_map, first_unknown,
    lemma_apply_recipe_entries_map, lemma_seeded_steps_map, merge_field, merge_scripts,
    on_changed_of, pstep_or_default, qualified_deps, resolved_builders, script_of,
    seeded_from_recipe, seeded_from_service, seeded_steps, seeded_steps_map,
};
pub use strmap::StringMap;
pub use text::{join_lines, joined_lines, qualified, qualify};
