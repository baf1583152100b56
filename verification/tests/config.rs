use fleet::config::{is_valid_rate, Config, Machine, Repo, Workspace};
use fleet::error::FleetError;

fn lima_ws(name: &str, machine: &str, repos: &[&str]) -> Workspace {
    Workspace {
        name: name.to_string(),
        machine: Machine::Lima { name: machine.to_string() },
        repos: repos.iter().map(|p| Repo { path: p.to_string() }).collect(),
        ssh: None,
        tailscale: None,
        hourly: None,
        tags: vec![],
    }
}

fn config(wss: Vec<Workspace>) -> Config {
    Config { workspace: wss }
}

/// The `BASE` workspace: `dev` on the Lima instance `dev`, repo `/fleet-test/repo`.
fn base() -> Workspace {
    lima_ws("dev", "dev", &["/fleet-test/repo"])
}

fn validate(c: Config) -> Result<Config, FleetError> {
    c.validate(Some("/home/sam"), &vec![])
}

#[test]
fn inference_uses_path_boundaries() {
    let config = validate(config(vec![base()])).unwrap();
    assert_eq!(config.select(None, "/fleet-test/repo/src").unwrap().name, "dev");
    assert!(config.select(None, "/fleet-test/repository").is_err());
    assert!(config.select(Some("missing"), "/").is_err());
}

#[test]
fn nested_repos_are_ambiguous() {
    let config = validate(config(vec![base(), lima_ws("other", "dev", &["/fleet-test/repo/nested"])]))
        .unwrap();
    assert!(config.select(None, "/fleet-test/repo/nested/src").is_err());
}

#[test]
fn rejects_duplicate_names_and_repos() {
    assert!(matches!(
        validate(config(vec![base(), base()])),
        Err(FleetError::DuplicateWorkspace(name)) if name == "dev"
    ));
    assert!(matches!(
        validate(config(vec![base(), lima_ws("other", "dev", &["/fleet-test/repo"])])),
        Err(FleetError::DuplicateRepo(path)) if path == "/fleet-test/repo"
    ));
    assert!(matches!(
        validate(config(vec![base(), lima_ws("other", "dev", &["/fleet-test/./x/../repo/"])])),
        Err(FleetError::DuplicateRepo(path)) if path == "/fleet-test/repo"
    ));
}

#[test]
fn rejects_option_like_ssh_destination() {
    let mut ws = base();
    ws.ssh = Some("-oProxyCommand=bad".to_string());
    assert!(matches!(
        validate(config(vec![ws])),
        Err(FleetError::InvalidSshDestination(t)) if t == "-oProxyCommand=bad"
    ));
    let mut ws = base();
    ws.tailscale = Some("gpu node".to_string());
    assert!(matches!(validate(config(vec![ws])), Err(FleetError::InvalidSshDestination(_))));
    let mut ws = base();
    ws.ssh = Some("sam@gpu\u{7}".to_string());
    assert!(matches!(validate(config(vec![ws])), Err(FleetError::InvalidSshDestination(_))));
    let mut ws = base();
    ws.ssh = Some(String::new());
    assert!(matches!(validate(config(vec![ws])), Err(FleetError::InvalidSshDestination(_))));
}

#[test]
fn rejects_blank_workspace_names() {
    assert!(matches!(
        validate(config(vec![lima_ws(" \t\u{3000}", "dev", &[])])),
        Err(FleetError::EmptyWorkspaceName)
    ));
    assert!(matches!(validate(config(vec![lima_ws("", "dev", &[])])), Err(FleetError::EmptyWorkspaceName)));
}

#[test]
fn rejects_unusual_machine_names() {
    for bad in ["", "-x", ".", "..", "a b", "a/b", "ü"] {
        assert!(
            matches!(validate(config(vec![lima_ws("w", bad, &[])])), Err(FleetError::InvalidMachineName(n)) if n == bad),
            "{bad:?}"
        );
    }
    for good in ["a", "dev-1", "a_b.c", "..."] {
        assert!(validate(config(vec![lima_ws("w", good, &[])])).is_ok(), "{good:?}");
    }
}

#[test]
fn rejects_bad_azure_fields() {
    let mut ws = lima_ws("cloud", "gpu", &[]);
    ws.machine = Machine::Azure {
        name: "gpu".to_string(),
        resource_group: "-rg".to_string(),
        subscription: None,
    };
    assert!(matches!(validate(config(vec![ws])), Err(FleetError::InvalidResourceGroup)));
    let mut ws = lima_ws("cloud", "gpu", &[]);
    ws.machine = Machine::Azure {
        name: "gpu".to_string(),
        resource_group: "dev-rg".to_string(),
        subscription: Some("  ".to_string()),
    };
    assert!(matches!(validate(config(vec![ws])), Err(FleetError::InvalidSubscription)));
    let mut ws = lima_ws("cloud", "gpu", &[]);
    ws.machine = Machine::Azure {
        name: "gpu".to_string(),
        resource_group: "dev-rg".to_string(),
        subscription: Some("sub-123".to_string()),
    };
    assert!(validate(config(vec![ws])).is_ok());
}

#[test]
fn hourly_must_be_finite_and_nonnegative() {
    assert!(is_valid_rate(1.5f64.to_bits()));
    assert!(is_valid_rate(0.0f64.to_bits()));
    assert!(is_valid_rate((-0.0f64).to_bits()));
    assert!(!is_valid_rate((-1.0f64).to_bits()));
    assert!(!is_valid_rate(f64::INFINITY.to_bits()));
    assert!(!is_valid_rate(f64::NAN.to_bits()));
    let mut ws = base();
    ws.hourly = Some((-2.0f64).to_bits());
    assert!(matches!(validate(config(vec![ws])), Err(FleetError::InvalidHourly)));
}

#[test]
fn repo_paths_are_expanded_and_must_be_absolute() {
    let c = validate(config(vec![lima_ws("w", "dev", &["~/src/project/"])])).unwrap();
    assert_eq!(c.workspace[0].repos[0].path, "/home/sam/src/project");
    assert!(matches!(
        validate(config(vec![lima_ws("w", "dev", &["src/project"])])),
        Err(FleetError::RelativeRepoPath(p)) if p == "src/project"
    ));
    assert!(matches!(
        config(vec![lima_ws("w", "dev", &["~/x"])]).validate(None, &vec![]),
        Err(FleetError::HomeNotSet)
    ));
}

#[test]
fn canonical_forms_decide_repo_identity() {
    let resolved = vec![
        ("/fleet-test/link".to_string(), "/fleet-test/real".to_string()),
        ("/fleet-test/real".to_string(), "/fleet-test/real".to_string()),
    ];
    let c = config(vec![
        lima_ws("a", "dev", &["/fleet-test/link"]),
        lima_ws("b", "dev", &["/fleet-test/real"]),
    ]);
    assert!(matches!(
        c.validate(Some("/home/sam"), &resolved),
        Err(FleetError::DuplicateRepo(p)) if p == "/fleet-test/real"
    ));
}

#[test]
fn select_by_name_and_errors() {
    let c = validate(config(vec![base(), lima_ws("other", "dev", &[])])).unwrap();
    assert_eq!(c.select(Some("other"), "/").unwrap().name, "other");
    assert!(matches!(c.select(Some("nope"), "/"), Err(FleetError::UnknownWorkspace(n)) if n == "nope"));
    assert!(matches!(c.select(None, "/elsewhere"), Err(FleetError::NoWorkspaceMatches(p)) if p == "/elsewhere"));
    assert_eq!(c.select(None, "/fleet-test/repo").unwrap().name, "dev");
}

#[test]
fn nested_repos_select_ambiguously() {
    let c = validate(config(vec![base(), lima_ws("other", "dev", &["/fleet-test/repo/nested"])])).unwrap();
    assert!(matches!(
        c.select(None, "/fleet-test/repo/nested/src"),
        Err(FleetError::MultipleWorkspacesMatch(p)) if p == "/fleet-test/repo/nested/src"
    ));
    assert_eq!(c.select(None, "/fleet-test/repo/src").unwrap().name, "dev");
}

#[test]
fn machine_name_and_backend() {
    let m = Machine::Lima { name: "dev".to_string() };
    assert_eq!(m.name(), "dev");
    assert_eq!(m.backend(), "lima");
    let a = Machine::Azure { name: "gpu".to_string(), resource_group: "rg".to_string(), subscription: None };
    assert_eq!(a.name(), "gpu");
    assert_eq!(a.backend(), "azure");
}
