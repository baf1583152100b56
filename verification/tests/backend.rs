use fleet::backend::{azure, azure_status, connection, lima_names, lima_status, Backend};
use fleet::config::{Machine, Workspace};
use fleet::error::FleetError;

fn lima(name: &str) -> Machine {
    Machine::Lima { name: name.to_string() }
}

fn azure_machine(subscription: Option<&str>) -> Machine {
    Machine::Azure {
        name: "gpu".to_string(),
        resource_group: "dev-rg".to_string(),
        subscription: subscription.map(|s| s.to_string()),
    }
}

fn workspace(name: &str, machine: Machine) -> Workspace {
    Workspace {
        name: name.to_string(),
        machine,
        repos: vec![],
        ssh: None,
        tailscale: None,
        hourly: None,
        tags: vec![],
    }
}

fn argv(inv: &fleet::command::Invocation) -> Vec<String> {
    let mut v = vec![inv.program.clone()];
    v.extend(inv.args.iter().cloned());
    v
}

fn pairs(items: &[(&str, &str)]) -> Vec<(String, String)> {
    items.iter().map(|(n, s)| (n.to_string(), s.to_string())).collect()
}

fn codes(items: &[&str]) -> Vec<String> {
    items.iter().map(|c| c.to_string()).collect()
}

#[test]
fn parses_lima_stream_and_missing_instance() {
    // {"name":"one","status":"Stopped"} {"name":"two","status":"Running","cpus":4}
    let instances = pairs(&[("one", "Stopped"), ("two", "Running")]);
    assert_eq!(lima_status(&instances, "two"), "running");
    assert_eq!(lima_status(&instances, "absent"), "missing");
    // The stream is decoded before the library sees it; text that is not
    // JSON never gets that far.
    let mut stream = serde_json::Deserializer::from_str("not json").into_iter::<serde_json::Value>();
    assert!(stream.next().unwrap().is_err());
}

#[test]
fn azure_finds_power_state_without_assuming_order() {
    // [{"code":"PowerState/deallocated"},{"code":"ProvisioningState/succeeded"}]
    assert_eq!(
        azure_status(&codes(&["PowerState/deallocated", "ProvisioningState/succeeded"])),
        "deallocated"
    );
    assert_eq!(azure_status(&[]), "unknown");
    // "null" is no list of statuses, so it is refused before the library sees it.
    assert!(serde_json::from_str::<Vec<serde_json::Value>>("null").is_err());
}

#[test]
fn azure_power_state_after_other_codes() {
    assert_eq!(
        azure_status(&codes(&["ProvisioningState/succeeded", "PowerState/running"])),
        "running"
    );
    assert_eq!(azure_status(&codes(&["ProvisioningState/succeeded"])), "unknown");
}

#[test]
fn azure_power_state_is_the_text_after_the_prefix() {
    assert_eq!(azure_status(&codes(&["PowerState/"])), "");
    assert_eq!(azure_status(&codes(&["powerstate/running", "PowerState/starting"])), "starting");
    assert_eq!(azure_status(&codes(&["PowerState"])), "unknown");
}

#[test]
fn lima_status_lowercases_and_takes_first_match() {
    let instances = pairs(&[("a", "RUNNING"), ("a", "Stopped")]);
    assert_eq!(lima_status(&instances, "a"), "running");
    assert_eq!(lima_status(&[], "a"), "missing");
}

#[test]
fn lima_status_matches_names_exactly() {
    let instances = pairs(&[("Dev", "Running"), ("dev2", "Stopped")]);
    assert_eq!(lima_status(&instances, "dev"), "missing");
    assert_eq!(lima_status(&instances, "dev2"), "stopped");
}

#[test]
fn lima_names_lists_every_instance_in_order() {
    let instances = pairs(&[("one", "Stopped"), ("two", "Running"), ("one", "Broken")]);
    assert_eq!(
        lima_names(&instances),
        vec!["one".to_string(), "two".to_string(), "one".to_string()]
    );
    assert!(lima_names(&[]).is_empty());
}

#[test]
fn azure_commands_pin_the_subscription() {
    assert_eq!(
        argv(&azure(&azure_machine(Some("sub-123")), "deallocate")),
        ["az", "vm", "deallocate", "--resource-group", "dev-rg", "--name", "gpu", "--only-show-errors", "--subscription", "sub-123"]
    );
    assert_eq!(
        argv(&azure(&azure_machine(None), "start")),
        ["az", "vm", "start", "--resource-group", "dev-rg", "--name", "gpu", "--only-show-errors"]
    );
}

#[test]
fn backend_commands_for_lima_and_azure() {
    let dev = lima("dev");
    assert_eq!(argv(&dev.status_command()), ["limactl", "list", "--json"]);
    assert_eq!(argv(&dev.stop_command()), ["limactl", "stop", "--tty=false", "dev"]);
    assert_eq!(
        argv(&dev.start_command(Some("stopped")).unwrap()),
        ["limactl", "start", "--tty=false", "dev"]
    );
    assert!(dev.start_needs_status(false));
    assert!(!dev.start_needs_status(true));
    let gpu = azure_machine(Some("sub-123"));
    assert!(!gpu.start_needs_status(false));
    assert_eq!(
        argv(&gpu.status_command()),
        [
            "az", "vm", "get-instance-view", "--resource-group", "dev-rg", "--name", "gpu",
            "--only-show-errors", "--subscription", "sub-123", "--query", "instanceView.statuses",
            "--output", "json"
        ]
    );
    assert_eq!(argv(&gpu.stop_command())[2], "deallocate");
    assert_eq!(argv(&gpu.start_command(None).unwrap())[2], "start");
}

#[test]
fn start_refuses_missing_lima_instance() {
    match lima("dev").start_command(Some("missing")) {
        Err(FleetError::MissingLimaInstance(name)) => assert_eq!(name, "dev"),
        other => panic!("unexpected {other:?}"),
    }
}

#[test]
fn connection_prefers_ssh_and_quotes_the_command() {
    let mut ws = workspace("cloud", azure_machine(Some("sub-123")));
    ws.ssh = Some("sam@gpu".to_string());
    ws.tailscale = Some("gpu-node".to_string());
    let command: Vec<String> = ["printf", "%s", "hello; $(whoami)", ""].iter().map(|s| s.to_string()).collect();
    assert_eq!(
        argv(&connection(&ws, &command).unwrap()),
        ["ssh", "sam@gpu", "printf %s 'hello; $(whoami)' ''"]
    );
    assert_eq!(argv(&connection(&ws, &[]).unwrap()), ["ssh", "sam@gpu"]);
    ws.ssh = None;
    assert_eq!(argv(&connection(&ws, &[]).unwrap()), ["ssh", "gpu-node"]);
}

#[test]
fn connection_uses_lima_shell_or_needs_a_target() {
    let ws = workspace("local", lima("dev"));
    let command = vec!["echo".to_string(), "hello world".to_string()];
    assert_eq!(
        argv(&connection(&ws, &command).unwrap()),
        ["limactl", "shell", "--workdir=/", "--", "dev", "echo", "hello world"]
    );
    let cloud = workspace("cloud", azure_machine(None));
    match connection(&cloud, &[]) {
        Err(FleetError::MissingConnectionTarget(name)) => assert_eq!(name, "cloud"),
        other => panic!("unexpected {other:?}"),
    }
}
