//! Configuration model: defaults and script values.

use orcs::{
    ProjectStepConfig, ProjectStepOnChanged, RecipeConfig, RecipeStepConfig, Script, ScriptConfig,
    ServiceConfig, ServiceStepConfig, default_container_image,
};

#[test]
fn recipe_default() {
    let config = RecipeConfig::default();

    assert_eq!(config.steps.len(), 0);
}

#[test]
fn recipe_default_step() {
    let step_config = RecipeStepConfig::default();

    assert_eq!(step_config.check, ScriptConfig::Unset);
    assert_eq!(step_config.run, ScriptConfig::Unset);
}

#[test]
fn default_value() {
    let config = ScriptConfig::default();

    assert_eq!(config, ScriptConfig::Unset);
}

#[test]
fn service_default() {
    let config = ServiceConfig::default();

    assert_eq!(config.steps.len(), 0);
    assert_eq!(config.recipes.len(), 0);
}

#[test]
fn service_default_step() {
    let step = ServiceStepConfig::default();

    assert_eq!(step.depends_on.len(), 0);
    assert_eq!(step.check, ScriptConfig::Unset);
    assert_eq!(step.run, ScriptConfig::Unset);
}

#[test]
fn project_default_step() {
    let step: ProjectStepConfig = Default::default();

    assert_eq!(step.depends_on, Vec::new() as Vec<String>);
    assert_eq!(step.skip_run, false);
    assert_eq!(step.on_changed, ProjectStepOnChanged::Run);
}

#[test]
fn script_from_multiline() {
    let value = "a\nb\nc";
    let config = ScriptConfig::Multiline(String::from("a\nb\nc"));

    let script = Script::from(&config);

    match script {
        Script::Script(test_value) => assert_eq!(value, test_value),
        _ => assert!(false),
    }
}

#[test]
fn script_from_array() {
    let value = "a\nb\nc";
    let config = ScriptConfig::Array(vec![
        String::from("a"),
        String::from("b"),
        String::from("c"),
    ]);

    let script = Script::from(&config);

    match script {
        Script::Script(test_value) => assert_eq!(value, test_value),
        _ => assert!(false),
    }
}

#[test]
fn script_from_boolean() {
    let value = true;
    let config = ScriptConfig::Boolean(true);

    let script = Script::from(&config);

    match script {
        Script::Override(test_value) => assert_eq!(value, test_value),
        _ => assert!(false),
    }
}

#[test]
fn script_text_assembly_two_lines() {
    // A check script configured as an array of two commands resolves to the
    // newline-joined literal text.
    let config = ScriptConfig::Array(vec![String::from("echo a"), String::from("echo b")]);

    let script = Script::from(&config);

    assert_eq!(script, Script::Script(String::from("echo a\necho b")));
}

#[test]
fn script_is_empty() {
    assert!(ScriptConfig::Unset.is_empty());
    assert!(ScriptConfig::Multiline(String::new()).is_empty());
    assert!(ScriptConfig::Array(Vec::new()).is_empty());
    assert!(!ScriptConfig::Multiline(String::from("x")).is_empty());
    assert!(!ScriptConfig::Array(vec![String::from("x")]).is_empty());
    // a boolean override of either value is never empty
    assert!(!ScriptConfig::Boolean(true).is_empty());
    assert!(!ScriptConfig::Boolean(false).is_empty());
}

#[test]
fn container_image_default() {
    assert_eq!(default_container_image(), "ubuntu:20.04");
}
