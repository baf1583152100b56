use fleet::cli::{
    check_probes, connect_notice, exit_code, exit_without_machines, import_report, list_header,
    list_row, no_machines_notice, probe_line, up_notice, Action,
};
use fleet::command::Invocation;
use fleet::config::{Machine, Workspace};

#[test]
fn empty_config_exit_codes() {
    assert_eq!(exit_without_machines(&Action::Ls), Some(0));
    assert_eq!(exit_without_machines(&Action::Check), None);
    assert_eq!(exit_without_machines(&Action::Up { workspace: None }), Some(1));
    assert_eq!(
        exit_without_machines(&Action::Exec { workspace: None, command: vec!["uname".to_string()] }),
        Some(1)
    );
}

#[test]
fn action_names_its_workspace() {
    assert_eq!(Action::Down { workspace: Some("local".to_string()) }.workspace(), Some("local"));
    assert_eq!(Action::Connect { workspace: None }.workspace(), None);
    assert_eq!(Action::Ls.workspace(), None);
}

#[test]
fn list_rows_are_aligned() {
    assert_eq!(
        list_header(),
        "WORKSPACE          BACKEND  MACHINE                STATE           RATE/HR  TAGS"
    );
    let ws = Workspace {
        name: "local".to_string(),
        machine: Machine::Lima { name: "dev".to_string() },
        repos: vec![],
        ssh: None,
        tailscale: None,
        hourly: None,
        tags: vec!["gpu".to_string(), "ml".to_string()],
    };
    assert_eq!(
        list_row(&ws, Some("stopped"), "1.50"),
        "local              lima     dev                    stopped            1.50  gpu,ml"
    );
    assert_eq!(
        list_row(&ws, None, "-"),
        format!("{:<18} {:<8} {:<22} {:<14} {:>8}  {}", "local", "lima", "dev", "error", "-", "gpu,ml")
    );
}

#[test]
fn long_fields_are_not_cut() {
    let ws = Workspace {
        name: "a-very-long-workspace-name".to_string(),
        machine: Machine::Lima { name: "dev".to_string() },
        repos: vec![],
        ssh: None,
        tailscale: None,
        hourly: None,
        tags: vec![],
    };
    assert_eq!(
        list_row(&ws, Some("running"), "123456789.00"),
        format!("{:<18} {:<8} {:<22} {:<14} {:>8}  {}", ws.name, "lima", "dev", "running", "123456789.00", "")
    );
}

#[test]
fn notices_and_import_report() {
    assert_eq!(
        no_machines_notice("/tmp/w.toml"),
        "No machines registered. Run `fleet import lima` or add a workspace to /tmp/w.toml."
    );
    assert_eq!(import_report(&vec![], false, "/c"), vec!["No new Lima machines to import."]);
    assert_eq!(
        import_report(&vec!["new".to_string()], true, "/c"),
        vec!["Would import new", "Would add 1 workspace(s) to /c."]
    );
    let names: Vec<String> = (0..12).map(|i| format!("w{i}")).collect();
    let lines = import_report(&names, false, "/c");
    assert_eq!(lines[0], "Imported w0");
    assert_eq!(lines[12], "Added 12 workspace(s) to /c.");
}

#[test]
fn check_probes_and_lines() {
    let probes = check_probes();
    let names: Vec<&str> = probes.iter().map(|p| p.name.as_str()).collect();
    assert_eq!(names, ["Lima", "Azure", "SSH"]);
    assert_eq!(probes[0].command.display(), "limactl --version");
    assert_eq!(probes[1].command.display(), "az account show --output json --only-show-errors");
    assert_eq!(probes[2].command.display(), "ssh -V");
    assert_eq!(probe_line("SSH", true, "x"), "SSH      ok");
    assert_eq!(probe_line("Lima", false, "Install Lima."), "Lima     unavailable — Install Lima.");
}

#[test]
fn connect_notice_shows_the_command() {
    let inv = Invocation::new("limactl", &["shell", "--workdir=/", "--", "dev"]);
    assert_eq!(connect_notice(&inv), "Connect: limactl shell --workdir=/ -- dev");
}

#[test]
fn exit_code_fails_when_any_step_failed() {
    assert_eq!(exit_code(&[]), 0);
    assert_eq!(exit_code(&[true, true, true]), 0);
    assert_eq!(exit_code(&[true, false, true]), 1);
    assert_eq!(exit_code(&[false]), 1);
}

#[test]
fn up_prints_the_connection_only_after_success() {
    let mut ws = Workspace {
        name: "cloud".to_string(),
        machine: Machine::Azure {
            name: "gpu".to_string(),
            resource_group: "rg".to_string(),
            subscription: None,
        },
        repos: vec![],
        ssh: None,
        tailscale: None,
        hourly: None,
        tags: vec![],
    };
    assert!(up_notice(1, &ws).is_none());
    assert!(matches!(
        up_notice(0, &ws),
        Some(Err(fleet::error::FleetError::MissingConnectionTarget(n))) if n == "cloud"
    ));
    ws.ssh = Some("sam@gpu".to_string());
    assert_eq!(up_notice(0, &ws).unwrap().unwrap(), "Connect: ssh sam@gpu");
    assert!(up_notice(255, &ws).is_none());
}
