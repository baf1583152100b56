//! The provider commands behind each workspace operation, and what their
//! decoded replies say of a machine's power state.

use vstd::prelude::*;
use crate::command::{Invocation, shell_join, shell_line};
use crate::config::{Machine, Workspace};
use crate::error::{FleetError, Fault};
use crate::text::{chars_of, views};

verus! {

/// The `az vm <action>` command line for an Azure machine, pinned to its
/// subscription when it has one.
pub open spec fn azure_line(m: Machine, action: Seq<char>) -> Seq<Seq<char>> {
    match m {
        Machine::Azure { name, resource_group, subscription } => seq![
            "az"@,
            "vm"@,
            action,
            "--resource-group"@,
            resource_group@,
            "--name"@,
            name@,
            "--only-show-errors"@,
        ] + match subscription {
            Some(s) => seq!["--subscription"@, s@],
            None => Seq::empty(),
        },
        Machine::Lima { .. } => Seq::empty(),
    }
}

/// Builds `az vm <action>` for an Azure machine.
pub fn azure(machine: &Machine, action: &str) -> (r: Invocation)
    requires
        machine is Azure,
    ensures
        r@ == azure_line(*machine, action@),
{
    match machine {
        Machine::Azure { name, resource_group, subscription } => {
            let mut cmd = Invocation::new(
                "az",
                &[
                    "vm",
                    action,
                    "--resource-group",
                    resource_group.as_str(),
                    "--name",
                    name.as_str(),
                    "--only-show-errors",
                ],
            );
            assert(cmd@ =~= azure_line(*machine, action@).take(8));
            let ghost head = cmd@;
            if let Some(subscription) = subscription {
                let flag = "--subscription".to_owned();
                let value = subscription.clone();
                let ghost before = cmd.args@;
                cmd.args.push(flag);
                cmd.args.push(value);
                assert(views(cmd.args@) =~= views(before).push(flag@).push(value@));
                assert(cmd@ =~= head + seq!["--subscription"@, subscription@]);
            } else {
                assert(cmd@ =~= head + Seq::<Seq<char>>::empty());
            }
            assert(cmd@ =~= azure_line(*machine, action@));
            cmd
        },
        Machine::Lima { .. } => {
            proof {
                assert(false);
            }
            Invocation::new("az", &[])
        },
    }
}

/// How to reach a workspace's machine: SSH to its `ssh` (or else `tailscale`)
/// destination with the command as one quoted string; without either, a
/// Lima shell in `/` running the command; an Azure machine needs one of them.
pub open spec fn connection_line(ws: Workspace, cmd: Seq<Seq<char>>) -> Option<Seq<Seq<char>>> {
    let target = if ws.ssh is Some {
        ws.ssh
    } else {
        ws.tailscale
    };
    match target {
        Some(t) => Some(
            seq!["ssh"@, t@] + if cmd.len() == 0 {
                Seq::empty()
            } else {
                seq![shell_line(cmd)]
            },
        ),
        None => match ws.machine {
            Machine::Lima { name } => Some(
                seq!["limactl"@, "shell"@, "--workdir=/"@, "--"@, name@] + cmd,
            ),
            Machine::Azure { .. } => None,
        },
    }
}

/// The command that opens a shell on the workspace's machine, or runs
/// `command` there.
pub fn connection(ws: &Workspace, command: &[String]) -> (r: Result<Invocation, FleetError>)
    ensures
        match r {
            Ok(inv) => connection_line(*ws, views(command@)) == Some(inv@),
            Err(e) => connection_line(*ws, views(command@)) is None && e@
                == Fault::MissingConnectionTarget(ws.name@),
        },
{
    let target = match &ws.ssh {
        Some(t) => Some(t),
        None => ws.tailscale.as_ref(),
    };
    if let Some(target) = target {
        let mut cmd = Invocation::new("ssh", &[target.as_str()]);
        assert(cmd@ =~= seq!["ssh"@, target@]);
        if command.len() > 0 {
            let line = shell_join(command);
            let ghost before = cmd.args@;
            cmd.args.push(line);
            assert(views(cmd.args@) =~= views(before).push(line@));
            assert(cmd@ =~= seq!["ssh"@, target@] + seq![shell_line(views(command@))]);
        } else {
            assert(cmd@ =~= seq!["ssh"@, target@] + Seq::<Seq<char>>::empty());
        }
        return Ok(cmd);
    }
    match &ws.machine {
        Machine::Lima { name } => {
            let mut cmd = Invocation::new("limactl", &["shell", "--workdir=/", "--", name.as_str()]);
            let ghost head = cmd@;
            assert(head =~= seq!["limactl"@, "shell"@, "--workdir=/"@, "--"@, name@]);
            let mut i: usize = 0;
            while i < command.len()
                invariant
                    i <= command.len(),
                    cmd@ == head + views(command@).take(i as int),
                decreases command.len() - i,
            {
                let a = command[i].clone();
                let ghost before = cmd.args@;
                let ghost before_cmd = cmd@;
                cmd.args.push(a);
                assert(views(cmd.args@) =~= views(before).push(a@));
                assert(cmd@ =~= before_cmd.push(a@));
                assert(views(command@).take(i + 1) =~= views(command@).take(i as int).push(a@));
                assert(cmd@ =~= head + views(command@).take(i + 1));
                i = i + 1;
            }
            assert(views(command@).take(command.len() as int) =~= views(command@));
            Ok(cmd)
        },
        Machine::Azure { .. } => Err(FleetError::MissingConnectionTarget(ws.name.clone())),
    }
}

/// Names `str::to_lowercase`: the Unicode lowercase mapping of a string.
pub uninterp spec fn lowercase(s: Seq<char>) -> Seq<char>;

/// `str::to_lowercase` maps each character to its Unicode lowercase form;
/// this contract only names the result.
pub assume_specification[ str::to_lowercase ](s: &str) -> (r: String)
    ensures
        r@ == lowercase(s@),
;

/// The (name, status) pairs of Lima instances, as character sequences.
pub open spec fn instance_views(v: Seq<(String, String)>) -> Seq<(Seq<char>, Seq<char>)> {
    v.map_values(|p: (String, String)| (p.0@, p.1@))
}

/// The power state of the instance `name`: the lowercased status of the
/// first instance with that name, or `missing`.
pub open spec fn lima_state(insts: Seq<(Seq<char>, Seq<char>)>, name: Seq<char>) -> Seq<char>
    decreases insts.len(),
{
    if insts.len() == 0 {
        "missing"@
    } else if insts[0].0 == name {
        lowercase(insts[0].1)
    } else {
        lima_state(insts.drop_first(), name)
    }
}

/// The power state of the Lima instance `name`, among the (name, status)
/// pairs that `limactl list --json` lists: the lowercased status of the
/// first instance with that name, or `missing` when there is none.
pub fn lima_status(instances: &[(String, String)], name: &str) -> (r: String)
    ensures
        r@ == lima_state(instance_views(instances@), name@),
{
    let ghost all = instance_views(instances@);
    let wanted = name.to_owned();
    let mut i: usize = 0;
    assert(all.skip(0) == all);
    while i < instances.len()
        invariant
            all == instance_views(instances@),
            wanted@ == name@,
            i <= instances.len(),
            lima_state(all.skip(i as int), name@) == lima_state(all, name@),
        decreases instances.len() - i,
    {
        assert(all.skip(i as int).drop_first() == all.skip(i + 1));
        assert(all.skip(i as int)[0] == (instances@[i as int].0@, instances@[i as int].1@));
        if instances[i].0 == wanted {
            return instances[i].1.as_str().to_lowercase();
        }
        i = i + 1;
    }
    assert(all.skip(i as int).len() == 0);
    "missing".to_owned()
}

/// The names of the Lima instances that `limactl list --json` lists, in
/// the order listed.
pub fn lima_names(instances: &[(String, String)]) -> (r: Vec<String>)
    ensures
        views(r@) == instance_views(instances@).map_values(|p: (Seq<char>, Seq<char>)| p.0),
{
    let ghost all = instance_views(instances@);
    let mut names: Vec<String> = Vec::new();
    let mut i: usize = 0;
    while i < instances.len()
        invariant
            all == instance_views(instances@),
            i <= instances.len(),
            views(names@) == all.take(i as int).map_values(|p: (Seq<char>, Seq<char>)| p.0),
        decreases instances.len() - i,
    {
        let n = instances[i].0.clone();
        let ghost before = views(names@);
        names.push(n);
        assert(views(names@) =~= before.push(n@));
        assert(all.take(i + 1).map_values(|p: (Seq<char>, Seq<char>)| p.0) =~= all.take(
            i as int,
        ).map_values(|p: (Seq<char>, Seq<char>)| p.0).push(n@));
        i = i + 1;
    }
    assert(all.take(instances.len() as int) =~= all);
    names
}

/// Whether `s` begins with `p`.
pub open spec fn has_prefix(s: Seq<char>, p: Seq<char>) -> bool {
    p.len() <= s.len() && s.take(p.len() as int) == p
}

/// The power state among Azure status codes: what follows `PowerState/` in
/// the first code that starts with it, or `unknown`.
pub open spec fn power_state(codes: Seq<Seq<char>>) -> Seq<char>
    decreases codes.len(),
{
    if codes.len() == 0 {
        "unknown"@
    } else if has_prefix(codes[0], "PowerState/"@) {
        codes[0].skip("PowerState/"@.len() as int)
    } else {
        power_state(codes.drop_first())
    }
}

/// What follows `prefix` at the start of `s`, if `s` starts with it.
fn strip_prefix(s: &Vec<char>, prefix: &Vec<char>) -> (r: Option<Vec<char>>)
    ensures
        match r {
            Some(rest) => has_prefix(s@, prefix@) && rest@ == s@.skip(prefix@.len() as int),
            None => !has_prefix(s@, prefix@),
        },
{
    if prefix.len() > s.len() {
        return None;
    }
    let mut i: usize = 0;
    while i < prefix.len()
        invariant
            prefix.len() <= s.len(),
            i <= prefix.len(),
            forall|j: int| 0 <= j < i ==> s@[j] == prefix@[j],
        decreases prefix.len() - i,
    {
        if s[i] != prefix[i] {
            assert(s@.take(prefix.len() as int)[i as int] != prefix@[i as int]);
            return None;
        }
        i = i + 1;
    }
    assert(s@.take(prefix.len() as int) =~= prefix@);
    let mut rest: Vec<char> = Vec::new();
    let mut k = prefix.len();
    while k < s.len()
        invariant
            prefix.len() <= k <= s.len(),
            rest@ == s@.subrange(prefix.len() as int, k as int),
        decreases s.len() - k,
    {
        rest.push(s[k]);
        k = k + 1;
    }
    Some(rest)
}

/// The power state of an Azure VM, from the status codes that `az vm
/// get-instance-view --query instanceView.statuses` lists: what follows
/// `PowerState/` in the first code that starts with it, or `unknown`.
pub fn azure_status(codes: &[String]) -> (r: String)
    ensures
        r@ == power_state(views(codes@)),
{
    let ghost all = views(codes@);
    let prefix = chars_of("PowerState/");
    let mut k: usize = 0;
    assert(all.skip(0) == all);
    while k < codes.len()
        invariant
            all == views(codes@),
            prefix@ == "PowerState/"@,
            k <= codes.len(),
            power_state(all.skip(k as int)) == power_state(all),
        decreases codes.len() - k,
    {
        assert(all.skip(k as int).drop_first() == all.skip(k + 1));
        assert(all.skip(k as int)[0] == codes@[k as int]@);
        if let Some(state) = strip_prefix(&chars_of(codes[k].as_str()), &prefix) {
            return crate::text::string_of(&state);
        }
        k = k + 1;
    }
    assert(all.skip(k as int).len() == 0);
    "unknown".to_owned()
}

/// What Fleet asks of a provider: the commands that report, start and stop a
/// machine. Running the commands, decoding their JSON replies and honouring
/// a dry run are the caller's part; [`lima_status`] and [`azure_status`]
/// read the decoded replies.
pub trait Backend {
    /// The command whose output reports the machine's power state.
    fn status_command(&self) -> Invocation;

    /// Whether starting needs the current power state first.
    fn start_needs_status(&self, dry_run: bool) -> bool;

    /// The command that starts the machine, given its power state when
    /// [`Backend::start_needs_status`] asked for it.
    fn start_command(&self, status: Option<&str>) -> Result<Invocation, FleetError>;

    /// The command that stops the machine; it never deletes it.
    fn stop_command(&self) -> Invocation;
}

/// The command that reports a machine's power state.
pub open spec fn status_line(m: Machine) -> Seq<Seq<char>> {
    match m {
        Machine::Lima { .. } => seq!["limactl"@, "list"@, "--json"@],
        Machine::Azure { .. } => azure_line(m, "get-instance-view"@) + seq![
            "--query"@,
            "instanceView.statuses"@,
            "--output"@,
            "json"@,
        ],
    }
}

/// The start command: `limactl start` for an existing Lima instance (never
/// for a missing one, which it would create), `az vm start` for Azure.
pub open spec fn start_line(m: Machine, status: Option<Seq<char>>) -> Result<Seq<Seq<char>>, Fault> {
    match m {
        Machine::Lima { name } => if status == Some("missing"@) {
            Err(Fault::MissingLimaInstance(name@))
        } else {
            Ok(seq!["limactl"@, "start"@, "--tty=false"@, name@])
        },
        Machine::Azure { .. } => Ok(azure_line(m, "start"@)),
    }
}

/// The stop command: `limactl stop` for Lima, `az vm deallocate` for Azure.
pub open spec fn stop_line(m: Machine) -> Seq<Seq<char>> {
    match m {
        Machine::Lima { name } => seq!["limactl"@, "stop"@, "--tty=false"@, name@],
        Machine::Azure { .. } => azure_line(m, "deallocate"@),
    }
}

impl Backend for Machine {
    fn status_command(&self) -> (r: Invocation)
        ensures
            r@ == status_line(*self),
    {
        match self {
            Machine::Lima { .. } => {
                let r = Invocation::new("limactl", &["list", "--json"]);
                assert(r@ =~= status_line(*self));
                r
            },
            Machine::Azure { .. } => {
                let mut cmd = azure(self, "get-instance-view");
                let ghost head = cmd@;
                let ghost before = cmd.args@;
                cmd.args.push("--query".to_owned());
                cmd.args.push("instanceView.statuses".to_owned());
                cmd.args.push("--output".to_owned());
                cmd.args.push("json".to_owned());
                assert(views(cmd.args@) =~= views(before) + seq![
                    "--query"@,
                    "instanceView.statuses"@,
                    "--output"@,
                    "json"@,
                ]);
                assert(cmd@ =~= status_line(*self));
                cmd
            },
        }
    }

    fn start_needs_status(&self, dry_run: bool) -> (r: bool)
        ensures
            r == (*self is Lima && !dry_run),
    {
        match self {
            Machine::Lima { .. } => !dry_run,
            Machine::Azure { .. } => false,
        }
    }

    fn start_command(&self, status: Option<&str>) -> (r: Result<Invocation, FleetError>)
        ensures
            match r {
                Ok(inv) => start_line(*self, crate::path::opt_view(status)) == Ok::<
                    Seq<Seq<char>>,
                    Fault,
                >(inv@),
                Err(e) => start_line(*self, crate::path::opt_view(status)) == Err::<
                    Seq<Seq<char>>,
                    Fault,
                >(e@),
            },
    {
        match self {
            Machine::Lima { name } => {
                if let Some(s) = status {
                    if s.to_owned() == "missing".to_owned() {
                        return Err(FleetError::MissingLimaInstance(name.clone()));
                    }
                }
                let r = Invocation::new("limactl", &["start", "--tty=false", name.as_str()]);
                assert(r@ =~= seq!["limactl"@, "start"@, "--tty=false"@, name@]);
                Ok(r)
            },
            Machine::Azure { .. } => Ok(azure(self, "start")),
        }
    }

    fn stop_command(&self) -> (r: Invocation)
        ensures
            r@ == stop_line(*self),
    {
        match self {
            Machine::Lima { name } => {
                let r = Invocation::new("limactl", &["stop", "--tty=false", name.as_str()]);
                assert(r@ =~= stop_line(*self));
                r
            },
            Machine::Azure { .. } => azure(self, "deallocate"),
        }
    }
}

/// Whether the command line passes `value` right after `flag`.
pub open spec fn passes(cmd: Seq<Seq<char>>, flag: Seq<char>, value: Seq<char>) -> bool {
    exists|k: int| 0 <= k && k + 1 < cmd.len() && cmd[k] == flag && #[trigger] cmd[k + 1] == value
}

/// Every `az` command for an Azure machine (status, start and stop) is
/// `az vm <action>` with its resource group and name, and carries
/// `--subscription` with the machine's subscription when it has one, so the
/// CLI's active subscription is never used in its place; stopping
/// deallocates and never deletes.
pub proof fn azure_commands_are_pinned(m: Machine, status: Option<Seq<char>>)
    requires
        m is Azure,
    ensures
        ({
            let rg = m->resource_group@;
            let name = m->Azure_name@;
            let cmds = seq![
                status_line(m),
                start_line(m, status)->Ok_0,
                stop_line(m),
            ];
            let actions = seq!["get-instance-view"@, "start"@, "deallocate"@];
            &&& start_line(m, status) is Ok
            &&& forall|k: int|
                0 <= k < 3 ==> {
                    let cmd = #[trigger] cmds[k];
                    &&& cmd.len() >= 8
                    &&& cmd[0] == "az"@ && cmd[1] == "vm"@ && cmd[2] == actions[k]
                    &&& passes(cmd, "--resource-group"@, rg)
                    &&& passes(cmd, "--name"@, name)
                    &&& (m->subscription matches Some(s) ==> passes(cmd, "--subscription"@, s@))
                }
        }),
{
    let cmds = seq![status_line(m), start_line(m, status)->Ok_0, stop_line(m)];
    let e = Seq::<Seq<char>>::empty();
    lemma_line_pinned(m, "get-instance-view"@, seq![
        "--query"@,
        "instanceView.statuses"@,
        "--output"@,
        "json"@,
    ]);
    lemma_line_pinned(m, "start"@, e);
    lemma_line_pinned(m, "deallocate"@, e);
    assert(azure_line(m, "start"@) + e == azure_line(m, "start"@));
    assert(azure_line(m, "deallocate"@) + e == azure_line(m, "deallocate"@));
    assert(cmds[0] == status_line(m));
    assert(cmds[1] == azure_line(m, "start"@));
    assert(cmds[2] == azure_line(m, "deallocate"@));
}

proof fn lemma_line_pinned(m: Machine, action: Seq<char>, extra: Seq<Seq<char>>)
    requires
        m is Azure,
    ensures
        ({
            let cmd = azure_line(m, action) + extra;
            &&& cmd.len() >= 8
            &&& cmd[0] == "az"@ && cmd[1] == "vm"@ && cmd[2] == action
            &&& passes(cmd, "--resource-group"@, m->resource_group@)
            &&& passes(cmd, "--name"@, m->Azure_name@)
            &&& (m->subscription matches Some(s) ==> passes(cmd, "--subscription"@, s@))
        }),
{
    let cmd = azure_line(m, action) + extra;
    assert(cmd[3] == "--resource-group"@ && cmd[3int + 1] == m->resource_group@);
    assert(cmd[5] == "--name"@ && cmd[5int + 1] == m->Azure_name@);
    if let Some(s) = m->subscription {
        assert(cmd[8] == "--subscription"@ && cmd[8int + 1] == s@);
    }
}

} // verus!
