//! General properties of the resolution engine, stated and proved once over
//! the specification functions that the executable functions' contracts
//! speak of.

use vstd::prelude::*;
use crate::config::{ProjectStepConfigView, RecipeStepConfigView, ServiceStepConfigView};
use crate::service::{
    ServiceStepBuilderView, ServiceStepView, apply_recipe_map, apply_recipes_map, built_map,
    qualified_deps, resolved_builders, seeded_from_service, seeded_steps_map,
};
use crate::text::qualified;

verus! {

/// Resolution is a pure function of the three configuration layers:
/// resolving the same project steps, service configuration and recipes twice
/// yields identical node tables.
pub proof fn lemma_resolution_idempotent(
    m1: Map<Seq<char>, ServiceStepView>,
    m2: Map<Seq<char>, ServiceStepView>,
    service: Seq<char>,
    psteps: Map<Seq<char>, ProjectStepConfigView>,
    ssteps: Map<Seq<char>, ServiceStepConfigView>,
    rmaps: Seq<Map<Seq<char>, RecipeStepConfigView>>,
)
    requires
        m1 == built_map(resolved_builders(service, psteps, ssteps, rmaps)),
        m2 == built_map(resolved_builders(service, psteps, ssteps, rmaps)),
    ensures
        m1 == m2,
{
}

/// A step's entry survives every recipe application, and a `check` or `run`
/// field that is already filled is never overwritten by any recipe.
pub proof fn lemma_recipes_never_overwrite(
    steps: Map<Seq<char>, ServiceStepBuilderView>,
    service: Seq<char>,
    psteps: Map<Seq<char>, ProjectStepConfigView>,
    rmaps: Seq<Map<Seq<char>, RecipeStepConfigView>>,
    k: Seq<char>,
)
    requires
        steps.contains_key(k),
    ensures
        apply_recipes_map(steps, service, psteps, rmaps).contains_key(k),
        !steps[k].check.is_empty() ==> apply_recipes_map(steps, service, psteps, rmaps)[k].check
            == steps[k].check,
        !steps[k].run.is_empty() ==> apply_recipes_map(steps, service, psteps, rmaps)[k].run
            == steps[k].run,
        apply_recipes_map(steps, service, psteps, rmaps)[k].depends_on == steps[k].depends_on,
        apply_recipes_map(steps, service, psteps, rmaps)[k].name == steps[k].name,
        apply_recipes_map(steps, service, psteps, rmaps)[k].on_changed == steps[k].on_changed,
        apply_recipes_map(steps, service, psteps, rmaps)[k].skip_run == steps[k].skip_run,
    decreases rmaps.len(),
{
    if rmaps.len() > 0 {
        let steps1 = apply_recipe_map(steps, service, psteps, rmaps[0]);
        assert(steps1.contains_key(k));
        lemma_recipes_never_overwrite(steps1, service, psteps, rmaps.drop_first(), k);
    }
}

/// Precedence of the service's own value: for a step the service configures
/// with a non-empty script, that explicit value always wins, regardless of
/// which recipes follow and in which order.
pub proof fn lemma_service_value_wins(
    service: Seq<char>,
    psteps: Map<Seq<char>, ProjectStepConfigView>,
    ssteps: Map<Seq<char>, ServiceStepConfigView>,
    rmaps: Seq<Map<Seq<char>, RecipeStepConfigView>>,
    k: Seq<char>,
)
    requires
        ssteps.contains_key(k),
        psteps.contains_key(k),
    ensures
        resolved_builders(service, psteps, ssteps, rmaps).contains_key(k),
        !ssteps[k].check.is_empty() ==> resolved_builders(service, psteps, ssteps, rmaps)[k].check
            == ssteps[k].check,
        !ssteps[k].run.is_empty() ==> resolved_builders(service, psteps, ssteps, rmaps)[k].run
            == ssteps[k].run,
{
    let seeded = seeded_steps_map(service, psteps, ssteps);
    assert(seeded.contains_key(k));
    assert(seeded[k] == seeded_from_service(k, service, psteps[k], ssteps[k]));
    lemma_recipes_never_overwrite(seeded, service, psteps, rmaps, k);
}

/// Precedence among recipes: when the service leaves a step's `check` empty,
/// the first recipe in declared order that supplies a non-empty `check` for
/// that step is the one whose value the resolved node carries.
pub proof fn lemma_earlier_recipe_wins_check(
    steps: Map<Seq<char>, ServiceStepBuilderView>,
    service: Seq<char>,
    psteps: Map<Seq<char>, ProjectStepConfigView>,
    rmaps: Seq<Map<Seq<char>, RecipeStepConfigView>>,
    k: Seq<char>,
    i: int,
)
    requires
        steps.contains_key(k),
        steps[k].check.is_empty(),
        0 <= i < rmaps.len(),
        rmaps[i].contains_key(k),
        !rmaps[i][k].check.is_empty(),
        forall|j: int|
            0 <= j < i ==> !(#[trigger] rmaps[j].contains_key(k) && !rmaps[j][k].check.is_empty()),
    ensures
        apply_recipes_map(steps, service, psteps, rmaps).contains_key(k),
        apply_recipes_map(steps, service, psteps, rmaps)[k].check == rmaps[i][k].check,
    decreases i,
{
    let steps1 = apply_recipe_map(steps, service, psteps, rmaps[0]);
    assert(steps1.contains_key(k));
    if i == 0 {
        assert(steps1[k].check == rmaps[0][k].check);
        lemma_recipes_never_overwrite(steps1, service, psteps, rmaps.drop_first(), k);
    } else {
        assert(rmaps[0].contains_key(k) ==> rmaps[0][k].check.is_empty());
        assert(steps1[k].check == steps[k].check);
        let tail = rmaps.drop_first();
        assert(tail[i - 1] == rmaps[i]);
        assert forall|j: int|
            0 <= j < i - 1 implies !(#[trigger] tail[j].contains_key(k) && !tail[
            j
        ][k].check.is_empty()) by {
            assert(tail[j] == rmaps[j + 1]);
        }
        lemma_earlier_recipe_wins_check(steps1, service, psteps, tail, k, i - 1);
    }
}

/// Precedence among recipes, for the `run` field.
pub proof fn lemma_earlier_recipe_wins_run(
    steps: Map<Seq<char>, ServiceStepBuilderView>,
    service: Seq<char>,
    psteps: Map<Seq<char>, ProjectStepConfigView>,
    rmaps: Seq<Map<Seq<char>, RecipeStepConfigView>>,
    k: Seq<char>,
    i: int,
)
    requires
        steps.contains_key(k),
        steps[k].run.is_empty(),
        0 <= i < rmaps.len(),
        rmaps[i].contains_key(k),
        !rmaps[i][k].run.is_empty(),
        forall|j: int|
            0 <= j < i ==> !(#[trigger] rmaps[j].contains_key(k) && !rmaps[j][k].run.is_empty()),
    ensures
        apply_recipes_map(steps, service, psteps, rmaps).contains_key(k),
        apply_recipes_map(steps, service, psteps, rmaps)[k].run == rmaps[i][k].run,
    decreases i,
{
    let steps1 = apply_recipe_map(steps, service, psteps, rmaps[0]);
    assert(steps1.contains_key(k));
    if i == 0 {
        assert(steps1[k].run == rmaps[0][k].run);
        lemma_recipes_never_overwrite(steps1, service, psteps, rmaps.drop_first(), k);
    } else {
        assert(rmaps[0].contains_key(k) ==> rmaps[0][k].run.is_empty());
        assert(steps1[k].run == steps[k].run);
        let tail = rmaps.drop_first();
        assert(tail[i - 1] == rmaps[i]);
        assert forall|j: int|
            0 <= j < i - 1 implies !(#[trigger] tail[j].contains_key(k) && !tail[
            j
        ][k].run.is_empty()) by {
            assert(tail[j] == rmaps[j + 1]);
        }
        lemma_earlier_recipe_wins_run(steps1, service, psteps, tail, k, i - 1);
    }
}

/// Dependency qualification: a node for step `A` on service `svc` depends on
/// `"B:svc"` for every project-level step dependency `B`, and on `"A:svc2"`
/// for every service-level dependency `svc2`.
pub proof fn lemma_dependency_qualification(
    step: Seq<char>,
    service: Seq<char>,
    pconfig: ProjectStepConfigView,
    sconfig: ServiceStepConfigView,
)
    ensures
        seeded_from_service(step, service, pconfig, sconfig).depends_on.len()
            == pconfig.depends_on.len() + sconfig.depends_on.len(),
        forall|k: int|
            0 <= k < pconfig.depends_on.len() ==> seeded_from_service(
                step,
                service,
                pconfig,
                sconfig,
            ).depends_on[k] == qualified(#[trigger] pconfig.depends_on[k], service),
        forall|k: int|
            0 <= k < sconfig.depends_on.len() ==> seeded_from_service(
                step,
                service,
                pconfig,
                sconfig,
            ).depends_on[pconfig.depends_on.len() + k] == qualified(
                step,
                #[trigger] sconfig.depends_on[k],
            ),
{
    let d = qualified_deps(step, service, pconfig.depends_on, sconfig.depends_on);
    assert forall|k: int|
        0 <= k < pconfig.depends_on.len() implies d[k] == qualified(
        #[trigger] pconfig.depends_on[k],
        service,
    ) by {
        assert(d[k] == pconfig.depends_on.map_values(|x: Seq<char>| qualified(x, service))[k]);
    }
    assert forall|k: int|
        0 <= k < sconfig.depends_on.len() implies d[pconfig.depends_on.len() + k] == qualified(
        step,
        #[trigger] sconfig.depends_on[k],
    ) by {
        assert(d[pconfig.depends_on.len() + k] == sconfig.depends_on.map_values(
            |x: Seq<char>| qualified(step, x),
        )[k]);
    }
}

} // verus!
