//! The resolution engine: builders, recipes, precedence and the project
//! cache.

use orcs::{
    Error, Project, ProjectConfig, ProjectOptions, ProjectStepConfig, RecipeConfig,
    RecipeStepConfig, Script, ScriptConfig, Service, ServiceConfig, ServiceStep,
    ServiceStepConfig, StringMap, qualify,
};

fn project_steps_with(names: &[&str]) -> StringMap<ProjectStepConfig> {
    let mut m: StringMap<ProjectStepConfig> = StringMap::new();
    for n in names {
        m.insert(String::from(*n), ProjectStepConfig::default());
    }
    m
}

#[test]
fn service_builder() {
    // Starting with a simple config
    let mut steps: StringMap<ServiceStepConfig> = StringMap::new();
    steps.insert(
        String::from("my-step"),
        ServiceStepConfig { run: ScriptConfig::Boolean(true), ..Default::default() },
    );
    let service_config = ServiceConfig { steps, ..Default::default() };

    // Project Step Configs
    let project_step_configs = project_steps_with(&["my-step"]);

    // Build a service
    let service_builder =
        Service::from_config("my-service", &project_step_configs, &service_config)
            .expect("failed to create builder");
    let service = service_builder.build();

    // Get the step
    let service_step = service.get_step("my-step").expect("failed to get step");

    assert_eq!(service.name, "my-service");
    assert_eq!(service_step.depends_on, Vec::new() as Vec<String>);
    assert_eq!(service_step.run, Script::Override(true));
    assert_eq!(service_step.check, Script::Unset);
}

#[test]
fn service_builder_with_recipe() {
    // Starting with a simple config
    let service_config = ServiceConfig {
        recipes: vec![String::from("my-recipe")],
        ..Default::default()
    };

    // Recipe
    let mut recipe_steps: StringMap<RecipeStepConfig> = StringMap::new();
    recipe_steps.insert(
        String::from("my-step"),
        RecipeStepConfig { run: ScriptConfig::Boolean(true), ..Default::default() },
    );
    let recipe_config = RecipeConfig { steps: recipe_steps };

    // Project Step Configs
    let project_step_configs = project_steps_with(&["my-step"]);

    // Build the service
    let mut service_builder =
        Service::from_config("my-service", &project_step_configs, &service_config)
            .expect("failed to create builder");
    service_builder.with_recipe(&project_step_configs, &recipe_config);

    let service = service_builder.build();
    let service_step = service.get_step("my-step").expect("failed to get step");

    // Assertions
    assert_eq!(service.name, "my-service");
    assert_eq!(service_step.depends_on, Vec::new() as Vec<String>);
    assert_eq!(service_step.run, Script::Override(true));
    assert_eq!(service_step.check, Script::Unset);
}

#[test]
fn service_builder_with_recipe_2() {
    // Starting with a simple config
    let service_config = ServiceConfig {
        recipes: vec![String::from("my-recipe1"), String::from("my-recipe2")],
        ..Default::default()
    };

    // Recipes
    let mut steps1: StringMap<RecipeStepConfig> = StringMap::new();
    steps1.insert(
        String::from("my-step1"),
        RecipeStepConfig { run: ScriptConfig::Boolean(true), ..Default::default() },
    );
    let recipe_config1 = RecipeConfig { steps: steps1 };

    let mut steps2: StringMap<RecipeStepConfig> = StringMap::new();
    steps2.insert(
        String::from("my-step1"),
        RecipeStepConfig {
            run: ScriptConfig::Boolean(false),
            check: ScriptConfig::Boolean(false),
        },
    );
    steps2.insert(
        String::from("my-step2"),
        RecipeStepConfig { run: ScriptConfig::Boolean(false), ..Default::default() },
    );
    let recipe_config2 = RecipeConfig { steps: steps2 };

    // Project Step Config
    let project_step_configs = project_steps_with(&["my-step1", "my-step2"]);

    // Build the service
    let mut service_builder =
        Service::from_config("my-service", &project_step_configs, &service_config)
            .expect("failed to create builder");
    service_builder.with_recipe(&project_step_configs, &recipe_config1);
    service_builder.with_recipe(&project_step_configs, &recipe_config2);

    let service = service_builder.build();
    let service_step1 = service.get_step("my-step1").expect("failed to get step");
    let service_step2 = service.get_step("my-step2").expect("failed to get step");

    // Assertions
    assert_eq!(service.name, "my-service");
    assert_eq!(service_step1.depends_on, Vec::new() as Vec<String>);
    assert_eq!(service_step1.run, Script::Override(true));
    assert_eq!(service_step1.check, Script::Override(false));
    assert_eq!(service_step2.depends_on, Vec::new() as Vec<String>);
    assert_eq!(service_step2.run, Script::Override(false));
    assert_eq!(service_step2.check, Script::Unset);
}

#[test]
fn service_builder_with_dependencies() {
    // Starting with a simple config
    let mut steps: StringMap<ServiceStepConfig> = StringMap::new();
    steps.insert(
        String::from("my-step"),
        ServiceStepConfig {
            depends_on: vec![String::from("my-service-dep")],
            ..Default::default()
        },
    );
    let service_config = ServiceConfig { steps, ..Default::default() };

    // Project Step Configs
    let mut project_step_configs: StringMap<ProjectStepConfig> = StringMap::new();
    project_step_configs.insert(
        String::from("my-step"),
        ProjectStepConfig {
            depends_on: vec![String::from("my-step-dep")],
            ..Default::default()
        },
    );

    // Build a service
    let service_builder =
        Service::from_config("my-service", &project_step_configs, &service_config)
            .expect("failed to create builder");
    let service = service_builder.build();

    // Get the step
    let service_step = service.get_step("my-step").expect("failed to get step");

    assert_eq!(service.name, "my-service");
    assert_eq!(service_step.depends_on.len(), 2);
    assert!(service_step.depends_on.contains(&String::from("my-step:my-service-dep")));
    assert!(service_step.depends_on.contains(&String::from("my-step-dep:my-service")));
}

#[test]
fn service_step_builder() {
    // Starting with a simple config
    let step_config = ServiceStepConfig { run: ScriptConfig::Boolean(true), ..Default::default() };
    let project_config = ProjectStepConfig::default();

    // Create the step builder
    let step_builder =
        ServiceStep::from_service_config("my-step", "my-service", &project_config, &step_config);

    // Build the ServiceStep
    let step = step_builder.build();

    // Assertions
    assert_eq!(step.name, "my-step:my-service");
    assert_eq!(step.run, Script::Override(true));
    assert_eq!(step.check, Script::Unset);
}

#[test]
fn service_step_builder_with_recipe() {
    // Starting with an empty config
    let step_config = ServiceStepConfig { ..Default::default() };
    let recipe_config = RecipeStepConfig { run: ScriptConfig::Boolean(true), ..Default::default() };
    let project_config = ProjectStepConfig::default();

    // Create the step builder
    let mut step_builder =
        ServiceStep::from_service_config("my-step", "my-service", &project_config, &step_config);

    // Apply the recipe
    step_builder.with_recipe(&recipe_config);

    // Build the ServiceStep
    let step = step_builder.build();

    // Assertions
    assert_eq!(step.name, "my-step:my-service");
    assert_eq!(step.run, Script::Override(true));
    assert_eq!(step.check, Script::Unset);
}

#[test]
fn service_step_builder_with_recipe_2() {
    // Starting with an empty config
    let step_config = ServiceStepConfig { ..Default::default() };
    let recipe_config1 =
        RecipeStepConfig { run: ScriptConfig::Boolean(true), ..Default::default() };
    let recipe_config2 = RecipeStepConfig {
        run: ScriptConfig::Boolean(false),
        check: ScriptConfig::Boolean(false),
    };
    let project_config = ProjectStepConfig::default();

    // Create the step builder
    let mut step_builder =
        ServiceStep::from_service_config("my-step", "my-service", &project_config, &step_config);

    // Apply the recipe
    step_builder.with_recipe(&recipe_config1);
    step_builder.with_recipe(&recipe_config2);

    // Build the ServiceStep
    let step = step_builder.build();

    // Assertions
    assert_eq!(step.name, "my-step:my-service");
    assert_eq!(step.run, Script::Override(true));
    assert_eq!(step.check, Script::Override(false));
}

#[test]
fn from_config_missing_step() {
    // a service step without a matching project step is a fatal error
    let mut steps: StringMap<ServiceStepConfig> = StringMap::new();
    steps.insert(String::from("ghost-step"), ServiceStepConfig::default());
    let service_config = ServiceConfig { steps, ..Default::default() };
    let project_step_configs = project_steps_with(&[]);

    let r = Service::from_config("svc", &project_step_configs, &service_config);

    match r {
        Err(Error::MissingStep { name }) => assert_eq!(name, "ghost-step"),
        _ => assert!(false),
    }
}

#[test]
fn resolution_idempotent_same_layers() {
    // resolving the same three layers twice yields identical node tables
    let mut mk = || {
        let mut steps: StringMap<ServiceStepConfig> = StringMap::new();
        steps.insert(
            String::from("build"),
            ServiceStepConfig { check: ScriptConfig::Multiline(String::from("c")), ..Default::default() },
        );
        let service_config = ServiceConfig { steps, recipes: vec![String::from("base")] };
        let project = {
            let mut p = Project::from_config(
                String::from("root"),
                ProjectConfig {
                    name: String::from("proj"),
                    steps: {
                        let mut m: StringMap<ProjectStepConfig> = StringMap::new();
                        m.insert(String::from("build"), ProjectStepConfig::default());
                        m
                    },
                    options: ProjectOptions::default(),
                },
            );
            let mut rsteps: StringMap<RecipeStepConfig> = StringMap::new();
            rsteps.insert(
                String::from("build"),
                RecipeStepConfig {
                    run: ScriptConfig::Multiline(String::from("r")),
                    ..Default::default()
                },
            );
            p.insert_recipe_config("base", RecipeConfig { steps: rsteps });
            p
        };
        project.load_service("svc", &service_config).expect("failed to resolve")
    };
    let s1 = mk();
    let s2 = mk();
    let a = s1.get_step("build").expect("missing step");
    let b = s2.get_step("build").expect("missing step");
    assert_eq!(a.name, b.name);
    assert_eq!(a.check, b.check);
    assert_eq!(a.run, b.run);
    assert_eq!(a.check, Script::Script(String::from("c")));
    assert_eq!(a.run, Script::Script(String::from("r")));
}

#[test]
fn earlier_recipe_wins_over_later() {
    // among recipes, the earlier-listed recipe's non-empty value wins
    let service_config = ServiceConfig {
        recipes: vec![String::from("first"), String::from("second")],
        ..Default::default()
    };
    let mut project = Project::from_config(
        String::from("root"),
        ProjectConfig {
            name: String::from("proj"),
            steps: {
                let mut m: StringMap<ProjectStepConfig> = StringMap::new();
                m.insert(String::from("build"), ProjectStepConfig::default());
                m
            },
            options: ProjectOptions::default(),
        },
    );
    let mut r1: StringMap<RecipeStepConfig> = StringMap::new();
    r1.insert(
        String::from("build"),
        RecipeStepConfig {
            run: ScriptConfig::Multiline(String::from("from-first")),
            ..Default::default()
        },
    );
    project.insert_recipe_config("first", RecipeConfig { steps: r1 });
    let mut r2: StringMap<RecipeStepConfig> = StringMap::new();
    r2.insert(
        String::from("build"),
        RecipeStepConfig {
            run: ScriptConfig::Multiline(String::from("from-second")),
            check: ScriptConfig::Multiline(String::from("check-second")),
        },
    );
    project.insert_recipe_config("second", RecipeConfig { steps: r2 });

    let service = project.load_service("svc", &service_config).expect("failed to resolve");
    let step = service.get_step("build").expect("missing step");

    // the run script comes from the earlier recipe; the check only the later
    // recipe supplies
    assert_eq!(step.run, Script::Script(String::from("from-first")));
    assert_eq!(step.check, Script::Script(String::from("check-second")));
}

#[test]
fn explicit_service_value_wins_over_recipes() {
    let mut steps: StringMap<ServiceStepConfig> = StringMap::new();
    steps.insert(
        String::from("build"),
        ServiceStepConfig {
            run: ScriptConfig::Multiline(String::from("explicit")),
            ..Default::default()
        },
    );
    let service_config = ServiceConfig { steps, recipes: vec![String::from("base")] };
    let mut project = Project::from_config(
        String::from("root"),
        ProjectConfig {
            name: String::from("proj"),
            steps: {
                let mut m: StringMap<ProjectStepConfig> = StringMap::new();
                m.insert(String::from("build"), ProjectStepConfig::default());
                m
            },
            options: ProjectOptions::default(),
        },
    );
    let mut r1: StringMap<RecipeStepConfig> = StringMap::new();
    r1.insert(
        String::from("build"),
        RecipeStepConfig {
            run: ScriptConfig::Multiline(String::from("from-recipe")),
            ..Default::default()
        },
    );
    project.insert_recipe_config("base", RecipeConfig { steps: r1 });

    let service = project.load_service("svc", &service_config).expect("failed to resolve");
    let step = service.get_step("build").expect("missing step");

    assert_eq!(step.run, Script::Script(String::from("explicit")));
}

#[test]
fn load_service_missing_recipes() {
    let service_config = ServiceConfig {
        recipes: vec![String::from("absent1"), String::from("absent2")],
        ..Default::default()
    };
    let project = Project::from_config(
        String::from("root"),
        ProjectConfig {
            name: String::from("proj"),
            steps: StringMap::new(),
            options: ProjectOptions::default(),
        },
    );

    match project.load_service("svc", &service_config) {
        Err(Error::MissingRecipes { names }) => {
            assert_eq!(names, vec![String::from("absent1"), String::from("absent2")]);
        }
        _ => assert!(false),
    }
}

#[test]
fn get_recipes_in_declared_order() {
    let mut project = Project::from_config(
        String::from("root"),
        ProjectConfig {
            name: String::from("proj"),
            steps: StringMap::new(),
            options: ProjectOptions::default(),
        },
    );
    let mut r1: StringMap<RecipeStepConfig> = StringMap::new();
    r1.insert(String::from("a"), RecipeStepConfig::default());
    project.insert_recipe_config("one", RecipeConfig { steps: r1 });
    project.insert_recipe_config("two", RecipeConfig::default());

    let names = vec![String::from("two"), String::from("one")];
    let recipes = project.get_recipes(&names).expect("failed to get recipes");

    assert_eq!(recipes.len(), 2);
    assert_eq!(recipes[0].steps.len(), 0);
    assert_eq!(recipes[1].steps.len(), 1);
}

#[test]
fn project_service_cache() {
    let mut project = Project::from_config(
        String::from("root"),
        ProjectConfig {
            name: String::from("proj"),
            steps: {
                let mut m: StringMap<ProjectStepConfig> = StringMap::new();
                m.insert(String::from("build"), ProjectStepConfig::default());
                m
            },
            options: ProjectOptions::default(),
        },
    );
    assert!(project.get_service("svc").is_none());
    let mut steps: StringMap<ServiceStepConfig> = StringMap::new();
    steps.insert(String::from("build"), ServiceStepConfig::default());
    let service_config = ServiceConfig { steps, ..Default::default() };
    let svc = project.load_service("svc", &service_config).expect("failed to resolve");
    project.insert_service("svc", svc);
    let cached = project.get_service("svc").expect("failed to get service");
    assert_eq!(cached.name, "svc");
    let step = cached.get_step("build").expect("failed to get service step");
    assert_eq!(step.name, "build:svc");
    assert!(!project.all_services_loaded());
    project.mark_all_services_loaded();
    assert!(project.all_services_loaded());
    assert_eq!(project.get_all_services().len(), 1);
}

#[test]
fn get_service_name() {
    let project = Project::from_config(
        String::from("root"),
        ProjectConfig {
            name: String::from("proj"),
            steps: StringMap::new(),
            options: ProjectOptions::default(),
        },
    );
    let value = "a/b/c";

    // Retrieve the service name
    let result = project.get_service_name("root/srv/a/b/c");

    // Compare the value
    assert_eq!(result, value);
}

#[test]
fn qualify_builds_canonical_names() {
    assert_eq!(qualify("build", "a/b/c"), "build:a/b/c");
}
