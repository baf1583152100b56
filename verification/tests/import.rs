use fleet::config::{Config, Machine, Workspace};
use fleet::error::FleetError;
use fleet::import::{lima, plan_lima_import};

fn lima_ws(name: &str, machine: &str) -> Workspace {
    Workspace {
        name: name.to_string(),
        machine: Machine::Lima { name: machine.to_string() },
        repos: vec![],
        ssh: None,
        tailscale: None,
        hourly: None,
        tags: vec![],
    }
}

fn azure_ws(name: &str, machine: &str) -> Workspace {
    Workspace {
        machine: Machine::Azure {
            name: machine.to_string(),
            resource_group: "dev-rg".to_string(),
            subscription: None,
        },
        ..lima_ws(name, machine)
    }
}

fn strings(v: &[&str]) -> Vec<String> {
    v.iter().map(|s| s.to_string()).collect()
}

fn pairs(v: &[(&str, &str)]) -> Vec<(String, String)> {
    v.iter().map(|(a, b)| (a.to_string(), b.to_string())).collect()
}

#[test]
fn plan_skips_known_machines_and_resolves_collisions() {
    let config = Config { workspace: vec![lima_ws("local", "dev"), azure_ws("cloud", "gpu")] };
    let plan = plan_lima_import(&config, &strings(&["dev", "local", "local", "gpu", "cloud"]));
    assert_eq!(plan, pairs(&[("lima-local", "local"), ("gpu", "gpu"), ("lima-cloud", "cloud")]));
}

#[test]
fn plan_counts_suffixes_from_two() {
    let config = Config {
        workspace: vec![
            azure_ws("x", "a"),
            azure_ws("lima-x", "b"),
            azure_ws("lima-x-2", "c"),
            azure_ws("lima-x-3", "d"),
        ],
    };
    assert_eq!(plan_lima_import(&config, &strings(&["x"])), pairs(&[("lima-x-4", "x")]));
    let config = Config { workspace: vec![lima_ws("x", "a"), lima_ws("lima-x", "b"), lima_ws("lima-x-2", "c")] };
    assert_eq!(plan_lima_import(&config, &strings(&["x", "y"])), pairs(&[("lima-x-3", "x"), ("y", "y")]));
}

#[test]
fn plan_uses_names_chosen_earlier_in_the_same_import() {
    let config = Config { workspace: vec![lima_ws("a", "z")] };
    let plan = plan_lima_import(&config, &strings(&["lima-a", "a"]));
    assert_eq!(plan, pairs(&[("lima-a", "lima-a"), ("lima-a-2", "a")]));
}

#[test]
fn import_appends_workspaces_and_keeps_comments() {
    let source = "# My workspaces\n[[workspace]]\nname = \"local\"\nmachine = { backend = \"lima\", name = \"dev\" }\n# Keep this note\n";
    let config = Config { workspace: vec![lima_ws("local", "dev")] };
    let imported = lima(source, &config, &strings(&["dev", "local", "local"])).unwrap();
    assert_eq!(imported.added, strings(&["lima-local"]));
    assert!(imported.updated.starts_with("# My workspaces\n"));
    assert!(imported.updated.contains("# Keep this note"));
    let value: toml::Value = toml::from_str(&imported.updated).unwrap();
    let workspaces = value["workspace"].as_array().unwrap();
    assert_eq!(workspaces.len(), 2);
    assert_eq!(workspaces[1]["name"].as_str(), Some("lima-local"));
    assert_eq!(workspaces[1]["machine"]["backend"].as_str(), Some("lima"));
    assert_eq!(workspaces[1]["machine"]["name"].as_str(), Some("local"));
}

#[test]
fn import_into_empty_and_inline_arrays() {
    let config = Config { workspace: vec![] };
    let imported = lima("", &config, &strings(&["one", "two"])).unwrap();
    let value: toml::Value = toml::from_str(&imported.updated).unwrap();
    assert_eq!(value["workspace"].as_array().unwrap().len(), 2);
    assert_eq!(value["workspace"][0]["name"].as_str(), Some("one"));

    let source = "# Nothing yet\nworkspace = []\n";
    let imported = lima(source, &config, &strings(&["dev"])).unwrap();
    assert!(imported.updated.starts_with("# Nothing yet\n"));
    let value: toml::Value = toml::from_str(&imported.updated).unwrap();
    assert_eq!(value["workspace"][0]["machine"]["name"].as_str(), Some("dev"));
}

#[test]
fn import_with_nothing_new_leaves_text_unchanged() {
    let source = "workspace = [{ name = 'local', machine = { backend = 'lima', name = 'another' } }]\n";
    let config = Config { workspace: vec![lima_ws("local", "another")] };
    let imported = lima(source, &config, &strings(&["another"])).unwrap();
    assert!(imported.added.is_empty());
    assert_eq!(imported.updated, source);
}

#[test]
fn import_refuses_a_workspace_key_that_is_not_an_array() {
    let config = Config { workspace: vec![] };
    assert!(matches!(
        lima("workspace = 3\n", &config, &strings(&["dev"])),
        Err(FleetError::WorkspaceNotArray)
    ));
}

#[test]
fn second_import_adds_nothing() {
    let config = Config { workspace: vec![lima_ws("dev", "x")] };
    let machines = strings(&["dev", "x", "dev"]);
    let plan = plan_lima_import(&config, &machines);
    let mut after = config.workspace;
    for (name, machine) in &plan {
        after.push(lima_ws(name, machine));
    }
    assert!(plan_lima_import(&Config { workspace: after }, &machines).is_empty());
}

#[test]
fn import_refuses_text_that_is_not_toml() {
    let config = Config { workspace: vec![] };
    assert!(matches!(lima("[[workspace", &config, &strings(&["dev"])), Err(FleetError::InvalidToml)));
    assert!(matches!(lima("name = ", &config, &strings(&[])), Err(FleetError::InvalidToml)));
}

#[test]
fn import_refuses_instances_that_break_the_rules() {
    let config = Config { workspace: vec![] };
    assert!(matches!(
        lima("", &config, &strings(&["--bad"])),
        Err(FleetError::InvalidMachineName(m)) if m == "--bad"
    ));
    assert!(matches!(
        lima("", &config, &strings(&["ok", "."])),
        Err(FleetError::InvalidMachineName(m)) if m == "."
    ));
    assert!(matches!(lima("", &config, &strings(&[" "])), Err(FleetError::EmptyWorkspaceName)));
    assert!(matches!(
        lima("workspace = 3\n", &config, &strings(&["--bad"])),
        Err(FleetError::WorkspaceNotArray)
    ));
}

#[test]
fn import_with_nothing_planned_does_not_look_at_the_workspace_key() {
    let config = Config { workspace: vec![] };
    let imported = lima("workspace = 3\n", &config, &strings(&[])).unwrap();
    assert!(imported.added.is_empty());
    assert_eq!(imported.updated, "workspace = 3\n");
}

#[test]
fn importing_the_result_again_leaves_the_text_unchanged() {
    let source = "# fleet\n[[workspace]]\nname = \"dev\"\nmachine = { backend = \"lima\", name = \"x\" }\n";
    let config = Config { workspace: vec![lima_ws("dev", "x")] };
    let machines = strings(&["dev", "x", "new"]);
    let first = lima(source, &config, &machines).unwrap();
    assert_eq!(first.added, strings(&["lima-dev", "new"]));
    let mut after = config.workspace;
    after.push(lima_ws("lima-dev", "dev"));
    after.push(lima_ws("new", "new"));
    let second = lima(&first.updated, &Config { workspace: after }, &machines).unwrap();
    assert!(second.added.is_empty());
    assert_eq!(second.updated, first.updated);
}
