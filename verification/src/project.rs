//! The project: the loaded configuration plus caches of resolved services
//! and recipe configurations.
//!
//! Reading configuration files from disk belongs to the embedding program;
//! it hands loaded `ServiceConfig`/`RecipeConfig` values in, and this module
//! resolves and caches them. `load_service` is the whole resolution of one
//! service: seed from the service's own steps, then apply its recipes in
//! declared order.

use vstd::prelude::*;
use vstd::string::StrSliceExecFns;
use crate::config::{
    ProjectConfig, ProjectConfigView, RecipeConfig, RecipeConfigView, RecipeStepConfigView,
    ServiceConfig,
};
use crate::error::{Error, ErrorView};
use crate::service::{
    Service, all_steps_known, apply_recipe_entries, apply_recipe_map, apply_recipes_map,
    built_map, first_unknown, lemma_apply_recipe_entries_map, lemma_seeded_steps_map,
    resolved_builders, seeded_steps_map,
};
use crate::strmap::StringMap;

verus! {

/// The names among `names` that the recipe cache lacks, in order.
pub open spec fn missing_recipes(
    recipes: Map<Seq<char>, RecipeConfigView>,
    names: Seq<Seq<char>>,
) -> Seq<Seq<char>>
    decreases names.len(),
{
    if names.len() == 0 {
        Seq::empty()
    } else {
        missing_recipes(recipes, names.drop_last()) + if recipes.contains_key(names.last()) {
            Seq::empty()
        } else {
            seq![names.last()]
        }
    }
}

/// The step tables of the named recipes, in declared order.
pub open spec fn recipe_maps_of(
    recipes: Map<Seq<char>, RecipeConfigView>,
    names: Seq<Seq<char>>,
) -> Seq<Map<Seq<char>, RecipeStepConfigView>> {
    names.map_values(|n: Seq<char>| recipes[n].steps)
}

/// When no named recipe is missing, every name is in the cache.
pub proof fn lemma_missing_recipes_contains(
    recipes: Map<Seq<char>, RecipeConfigView>,
    names: Seq<Seq<char>>,
)
    requires
        missing_recipes(recipes, names).len() == 0,
    ensures
        forall|j: int| 0 <= j < names.len() ==> recipes.contains_key(#[trigger] names[j]),
    decreases names.len(),
{
    if names.len() > 0 {
        lemma_missing_recipes_contains(recipes, names.drop_last());
        assert forall|j: int| 0 <= j < names.len() implies recipes.contains_key(
            #[trigger] names[j],
        ) by {
            if j < names.len() - 1 {
                assert(names.drop_last()[j] == names[j]);
            }
        }
    }
}

/// The canonical service-folder prefix of a project rooted at `root`: every
/// service lives under `<root>/srv/`.
pub open spec fn service_folder_prefix(root: Seq<char>) -> Seq<char> {
    root + seq!['/', 's', 'r', 'v', '/']
}

/// Orcs Project
pub struct Project {
    /// Root folder for the project, slash-separated.
    pub path: String,
    /// Configuration file for the project
    pub config: ProjectConfig,
    /// Loaded services for the project, by name.
    services: StringMap<Service>,
    /// Flag if we've already loaded all services or not.
    services_all_loaded: bool,
    /// Loaded recipes for the project, by name.
    recipes: StringMap<RecipeConfig>,
}

/// Mathematical model of a [`Project`].
pub struct ProjectView {
    pub path: Seq<char>,
    pub config: ProjectConfigView,
    pub services: Map<Seq<char>, crate::service::ServiceView>,
    pub services_all_loaded: bool,
    pub recipes: Map<Seq<char>, RecipeConfigView>,
}

impl View for Project {
    type V = ProjectView;

    closed spec fn view(&self) -> ProjectView {
        ProjectView {
            path: self.path@,
            config: self.config@,
            services: self.services@,
            services_all_loaded: self.services_all_loaded,
            recipes: self.recipes@,
        }
    }
}

impl Project {
    /// Assemble a project around a loaded configuration, with empty caches.
    /// Locating the root on disk, reading the configuration file and checking
    /// that the root is a version-controlled tree belong to the embedding
    /// program.
    pub fn from_config(path: String, config: ProjectConfig) -> (r: Project)
        ensures
            r@.path == path@,
            r@.config == config@,
            r@.services =~= Map::<Seq<char>, crate::service::ServiceView>::empty(),
            r@.recipes =~= Map::<Seq<char>, RecipeConfigView>::empty(),
            !r@.services_all_loaded,
    {
        Project {
            path,
            config,
            services: StringMap::new(),
            services_all_loaded: false,
            recipes: StringMap::new(),
        }
    }

    /// Get a service from its name, if it was loaded before.
    ///
    /// A service that was never handed to `insert_service` is unknown here:
    /// the embedding program loads its configuration and resolves it first.
    pub fn get_service(&self, service_name: &str) -> (r: Option<&Service>)
        ensures
            match r {
                Some(s) => self@.services.contains_key(service_name@) && s@
                    == self@.services[service_name@],
                None => !self@.services.contains_key(service_name@),
            },
    {
        let key = service_name.to_owned();
        self.services.get(&key)
    }

    /// Store a resolved service in the cache under its name.
    pub fn insert_service(&mut self, service_name: &str, service: Service)
        ensures
            final(self)@.services == old(self)@.services.insert(service_name@, service@),
            final(self)@.path == old(self)@.path,
            final(self)@.config == old(self)@.config,
            final(self)@.recipes == old(self)@.recipes,
            final(self)@.services_all_loaded == old(self)@.services_all_loaded,
    {
        self.services.insert(service_name.to_owned(), service);
    }

    /// Return all services loaded so far.
    ///
    /// Whether this is every service of the project is what
    /// `all_services_loaded` reports; the embedding program scans the service
    /// folder once, inserts what it finds and marks the scan done.
    pub fn get_all_services(&self) -> (r: &StringMap<Service>)
        ensures
            r@ == self@.services,
    {
        &self.services
    }

    /// Whether the service cache is known to hold every service.
    pub fn all_services_loaded(&self) -> (r: bool)
        ensures
            r == self@.services_all_loaded,
    {
        self.services_all_loaded
    }

    /// Record that every service of the project is now in the cache.
    pub fn mark_all_services_loaded(&mut self)
        ensures
            final(self)@.services_all_loaded,
            final(self)@.path == old(self)@.path,
            final(self)@.config == old(self)@.config,
            final(self)@.services == old(self)@.services,
            final(self)@.recipes == old(self)@.recipes,
    {
        self.services_all_loaded = true;
    }

    /// Store a loaded recipe configuration in the cache under its name.
    pub fn insert_recipe_config(&mut self, recipe_name: &str, recipe: RecipeConfig)
        ensures
            final(self)@.recipes == old(self)@.recipes.insert(recipe_name@, recipe@),
            final(self)@.path == old(self)@.path,
            final(self)@.config == old(self)@.config,
            final(self)@.services == old(self)@.services,
            final(self)@.services_all_loaded == old(self)@.services_all_loaded,
    {
        self.recipes.insert(recipe_name.to_owned(), recipe);
    }

    /// Retrieve multiple recipes at once
    ///
    /// This will return the recipes in the same order as the names provided;
    /// it fails, naming every absent recipe, when the cache lacks one.
    pub fn get_recipes(&self, recipe_names: &Vec<String>) -> (r: Result<
        Vec<&RecipeConfig>,
        Error,
    >)
        ensures
            match r {
                Ok(v) => {
                    &&& missing_recipes(self@.recipes, recipe_names.deep_view()).len() == 0
                    &&& v@.len() == recipe_names@.len()
                    &&& forall|i: int|
                        0 <= i < v@.len() ==> self@.recipes.contains_key(
                            recipe_names.deep_view()[i],
                        ) && #[trigger] v@[i]@ == self@.recipes[recipe_names.deep_view()[i]]
                },
                Err(e) => {
                    &&& missing_recipes(self@.recipes, recipe_names.deep_view()).len() > 0
                    &&& e@ == (ErrorView::MissingRecipes {
                        names: missing_recipes(self@.recipes, recipe_names.deep_view()),
                    })
                },
            },
    {
        let ghost names = recipe_names.deep_view();
        let n = recipe_names.len();
        // First loop: find which of the named recipes the cache lacks.
        let mut missing: Vec<String> = Vec::new();
        let mut i: usize = 0;
        while i < n
            invariant
                i <= n,
                n == recipe_names.len(),
                names == recipe_names.deep_view(),
                missing.deep_view() =~= missing_recipes(self@.recipes, names.take(i as int)),
            decreases n - i,
        {
            let ghost mold = missing.deep_view();
            proof {
                assert(names[i as int] == recipe_names@[i as int]@);
            }
            if !self.recipes.contains_key(&recipe_names[i]) {
                missing.push(recipe_names[i].clone());
            }
            i = i + 1;
            proof {
                assert(names.take(i as int).drop_last() =~= names.take(i - 1));
                assert(names.take(i as int).last() == names[i - 1]);
                assert forall|j: int|
                    0 <= j < missing.deep_view().len() implies missing.deep_view()[j] == (
                mold + if self@.recipes.contains_key(names[i - 1]) {
                    Seq::<Seq<char>>::empty()
                } else {
                    seq![names[i - 1]]
                })[j] by {
                    assert(missing.deep_view()[j] == missing@[j]@);
                    if j < mold.len() {
                        assert(mold[j] == missing.deep_view()[j]);
                    }
                }
                assert(missing.deep_view() =~= mold + if self@.recipes.contains_key(
                    names[i - 1],
                ) {
                    Seq::<Seq<char>>::empty()
                } else {
                    seq![names[i - 1]]
                });
            }
        }
        proof {
            assert(names.take(n as int) =~= names);
            assert(missing.deep_view().len() == missing@.len());
        }
        if missing.len() > 0 {
            return Err(Error::MissingRecipes { names: missing });
        }
        proof {
            lemma_missing_recipes_contains(self@.recipes, names);
        }
        // Second loop: retrieve the recipes requested, in order.
        let mut found: Vec<&RecipeConfig> = Vec::new();
        let mut i: usize = 0;
        while i < n
            invariant
                i <= n,
                n == recipe_names.len(),
                names == recipe_names.deep_view(),
                forall|j: int| 0 <= j < n ==> self@.recipes.contains_key(#[trigger] names[j]),
                found@.len() == i,
                forall|j: int|
                    0 <= j < i ==> self@.recipes.contains_key(names[j]) && #[trigger] found@[j]@
                        == self@.recipes[names[j]],
            decreases n - i,
        {
            let ghost fold_prev = found@;
            proof {
                assert(names[i as int] == recipe_names@[i as int]@);
            }
            match self.recipes.get(&recipe_names[i]) {
                Some(rc) => {
                    found.push(rc);
                }
                None => {
                    // the first loop found every name in the cache
                    proof {
                        assert(false);
                    }
                    return Err(Error::MissingRecipes { names: Vec::new() });
                }
            }
            i = i + 1;
            proof {
                assert(found@ == fold_prev.push(found@[i - 1]));
                assert forall|j: int|
                    0 <= j < i implies self@.recipes.contains_key(names[j]) && #[trigger] found@[
                    j
                ]@ == self@.recipes[names[j]] by {
                    if j < i - 1 {
                        assert(found@[j] == fold_prev[j]);
                        assert(fold_prev[j]@ == self@.recipes[names[j]]);
                    }
                }
            }
        }
        if missing.len() == 0 {
            Ok(found)
        } else {
            Err(Error::MissingRecipes { names: missing })
        }
    }

    /// Resolve one service from its three configuration layers: the project
    /// steps, the service's own configuration, and its recipes from the
    /// cache, applied in declared order so that an earlier recipe wins.
    pub fn load_service(&self, service_name: &str, config: &ServiceConfig) -> (r: Result<
        Service,
        Error,
    >)
        ensures
            match r {
                Ok(svc) => {
                    &&& all_steps_known(self@.config.steps, config.steps.kv_seq())
                    &&& missing_recipes(self@.recipes, config@.recipes).len() == 0
                    &&& svc@.name == service_name@
                    &&& svc@.steps == built_map(
                        resolved_builders(
                            service_name@,
                            self@.config.steps,
                            config@.steps,
                            recipe_maps_of(self@.recipes, config@.recipes),
                        ),
                    )
                },
                Err(e) => {
                    ||| {
                        &&& !all_steps_known(self@.config.steps, config.steps.kv_seq())
                        &&& e@ == (ErrorView::MissingStep {
                            name: first_unknown(self@.config.steps, config.steps.kv_seq()),
                        })
                    }
                    ||| {
                        &&& all_steps_known(self@.config.steps, config.steps.kv_seq())
                        &&& missing_recipes(self@.recipes, config@.recipes).len() > 0
                        &&& e@ == (ErrorView::MissingRecipes {
                            names: missing_recipes(self@.recipes, config@.recipes),
                        })
                    }
                },
            },
    {
        let mut builder = match Service::from_config(service_name, &self.config.steps, config) {
            Ok(b) => b,
            Err(e) => {
                return Err(e);
            }
        };
        let recipes = match self.get_recipes(&config.recipes) {
            Ok(v) => v,
            Err(e) => {
                return Err(e);
            }
        };
        let ghost psteps = self@.config.steps;
        let ghost sname = service_name@;
        let ghost rmaps = recipe_maps_of(self@.recipes, config@.recipes);
        let ghost seeded = seeded_steps_map(sname, psteps, config@.steps);
        proof {
            use_type_invariant(&config.steps);
            config.steps.kv_distinct();
            lemma_seeded_steps_map(sname, psteps, config.steps.kv_seq());
            assert(rmaps.skip(0) =~= rmaps);
        }
        let n = recipes.len();
        let mut i: usize = 0;
        proof {
            assert(n == config@.recipes.len());
            assert(rmaps.len() == config@.recipes.len());
            assert forall|j: int| 0 <= j < n implies #[trigger] recipes@[j]@.steps == rmaps[j] by {
                assert(recipes@[j]@ == self@.recipes[config@.recipes[j]]);
                assert(rmaps[j] == self@.recipes[config@.recipes[j]].steps);
            }
        }
        while i < n
            invariant
                i <= n,
                n == recipes.len(),
                n == rmaps.len(),
                psteps == self.config.steps@,
                builder@.name == sname,
                forall|j: int|
                    0 <= j < n ==> #[trigger] recipes@[j]@.steps == rmaps[j],
                apply_recipes_map(builder@.steps, sname, psteps, rmaps.skip(i as int))
                    == apply_recipes_map(seeded, sname, psteps, rmaps),
            decreases n - i,
        {
            let rc = recipes[i];
            let ghost pre = builder@.steps;
            builder.with_recipe(&self.config.steps, rc);
            i = i + 1;
            proof {
                use_type_invariant(&rc.steps);
                rc.steps.kv_distinct();
                lemma_apply_recipe_entries_map(pre, sname, psteps, rc.steps.kv_seq());
                assert(crate::strmap::map_of(rc.steps.kv_seq()) == rc.steps@);
                assert(rc@.steps == rmaps[i - 1]);
                assert(builder@.steps == apply_recipe_entries(pre, sname, psteps, rc.steps.kv_seq()));
                assert(builder@.steps == apply_recipe_map(pre, sname, psteps, rmaps[i - 1]));
                assert(rmaps.skip(i - 1)[0] == rmaps[i - 1]);
                assert(rmaps.skip(i - 1).len() > 0);
                assert(rmaps.skip(i - 1).drop_first() =~= rmaps.skip(i as int));
                assert(apply_recipes_map(pre, sname, psteps, rmaps.skip(i - 1))
                    == apply_recipes_map(builder@.steps, sname, psteps, rmaps.skip(i as int)));
            }
        }
        proof {
            assert(rmaps.skip(n as int) =~= Seq::<Map<Seq<char>, RecipeStepConfigView>>::empty());
        }
        let svc = builder.build();
        proof {
            assert(svc@.steps =~= built_map(resolved_builders(sname, psteps, config@.steps, rmaps)));
        }
        Ok(svc)
    }

    /// Transform a service path into a canonical name representation: the
    /// path of the service relative to the project's service folder.
    pub fn get_service_name(&self, path: &str) -> (r: String)
        requires
            path@.len() > self@.path.len() + 5,
            path@.take(self@.path.len() + 5 as int) == service_folder_prefix(self@.path),
        ensures
            r@ == path@.skip(self@.path.len() + 5 as int),
    {
        let root_len = self.path.as_str().unicode_len();
        let path_len = path.unicode_len();
        let name = path.substring_char(root_len + 5, path_len);
        name.to_owned()
    }
}

} // verus!
