//! The command-line surface: the subcommands, what they do when nothing is
//! registered, and the lines they print.

use vstd::prelude::*;
use crate::backend::{connection, connection_line};
use crate::command::{Invocation, shell_line};
use crate::error::{FleetError, Fault};
use crate::path::opt_view;
use crate::config::{Workspace, backend_label, machine_name};
use crate::import::{decimal, decimal_chars};
use crate::text::{chars_of, views, string_of};

verus! {

/// A subcommand and its arguments.
#[derive(Debug)]
pub enum Action {
    /// List workspaces and their power state (`ls`, alias `list`).
    Ls,
    /// Register existing Lima instances (`import lima`).
    ImportLima,
    /// Start a machine and print how to connect.
    Up { workspace: Option<String> },
    /// Stop a Lima VM or deallocate an Azure VM.
    Down { workspace: Option<String> },
    /// Open a shell on a machine.
    Connect { workspace: Option<String> },
    /// Run a command on a machine.
    Exec { workspace: Option<String>, command: Vec<String> },
    /// Check that the provider CLIs are usable.
    Check,
}

/// The workspace a subcommand names, if it names one.
pub open spec fn named_workspace(a: Action) -> Option<Seq<char>> {
    match a {
        Action::Up { workspace } | Action::Down { workspace } | Action::Connect { workspace }
        | Action::Exec { workspace, .. } => match workspace {
            Some(w) => Some(w@),
            None => None,
        },
        _ => None,
    }
}

impl Action {
    /// The workspace name given on the command line, if any.
    pub fn workspace(&self) -> (r: Option<&str>)
        ensures
            match r {
                Some(w) => named_workspace(*self) == Some(w@),
                None => named_workspace(*self) is None,
            },
    {
        match self {
            Action::Up { workspace } | Action::Down { workspace } | Action::Connect { workspace }
            | Action::Exec { workspace, .. } => match workspace {
                Some(w) => Some(w.as_str()),
                None => None,
            },
            _ => None,
        }
    }
}

/// The exit code when no workspace is registered: `ls` succeeds with
/// nothing to show, `check` goes on to probe the tools, every other
/// subcommand fails.
pub open spec fn exit_when_empty(a: Action) -> Option<i32> {
    match a {
        Action::Ls => Some(0),
        Action::Check => None,
        _ => Some(1),
    }
}

/// The exit code when no workspace is registered, or `None` to go on.
pub fn exit_without_machines(action: &Action) -> (r: Option<i32>)
    ensures
        r == exit_when_empty(*action),
{
    match action {
        Action::Ls => Some(0),
        Action::Check => None,
        _ => Some(1),
    }
}

/// `n` spaces (none when `n` is not positive).
pub open spec fn spaces(n: int) -> Seq<char> {
    Seq::new(if n > 0 { n as nat } else { 0 }, |i: int| ' ')
}

/// `s` padded with spaces on the right to `width` characters.
pub open spec fn pad_right(s: Seq<char>, width: int) -> Seq<char> {
    s + spaces(width - s.len())
}

/// `s` padded with spaces on the left to `width` characters.
pub open spec fn pad_left(s: Seq<char>, width: int) -> Seq<char> {
    spaces(width - s.len()) + s
}

/// The items joined by `sep`.
pub open spec fn joined_by(items: Seq<Seq<char>>, sep: Seq<char>) -> Seq<char>
    decreases items.len(),
{
    if items.len() == 0 {
        Seq::empty()
    } else if items.len() == 1 {
        items[0]
    } else {
        joined_by(items.drop_last(), sep) + sep + items.last()
    }
}

fn push_str(out: &mut Vec<char>, s: &str)
    ensures
        final(out)@ == old(out)@ + s@,
{
    let v = chars_of(s);
    let mut i: usize = 0;
    let ghost start = out@;
    while i < v.len()
        invariant
            v@ == s@,
            i <= v.len(),
            out@ == start + v@.take(i as int),
        decreases v.len() - i,
    {
        out.push(v[i]);
        i = i + 1;
    }
    assert(v@.take(v.len() as int) == v@);
}

fn push_spaces(out: &mut Vec<char>, n: usize)
    ensures
        final(out)@ == old(out)@ + spaces(n as int),
{
    let ghost start = out@;
    let mut i: usize = 0;
    while i < n
        invariant
            i <= n,
            out@ == start + spaces(i as int),
        decreases n - i,
    {
        out.push(' ');
        assert(spaces(i + 1) =~= spaces(i as int).push(' '));
        i = i + 1;
    }
}

fn push_padded_right(out: &mut Vec<char>, s: &str, width: usize)
    ensures
        final(out)@ == old(out)@ + pad_right(s@, width as int),
{
    push_str(out, s);
    let n = s.unicode_len();
    if n < width {
        push_spaces(out, width - n);
    } else {
        assert(spaces(width - s@.len()) =~= Seq::<char>::empty());
    }
}

fn push_padded_left(out: &mut Vec<char>, s: &str, width: usize)
    ensures
        final(out)@ == old(out)@ + pad_left(s@, width as int),
{
    let n = s.unicode_len();
    if n < width {
        push_spaces(out, width - n);
    } else {
        assert(spaces(width - s@.len()) =~= Seq::<char>::empty());
    }
    push_str(out, s);
}

/// The heading of the `ls` table.
pub open spec fn list_heading() -> Seq<char> {
    pad_right("WORKSPACE"@, 18) + " "@ + pad_right("BACKEND"@, 8) + " "@ + pad_right("MACHINE"@, 22)
        + " "@ + pad_right("STATE"@, 14) + " "@ + pad_left("RATE/HR"@, 8) + "  TAGS"@
}

/// One row of the `ls` table: workspace, backend, machine, power state,
/// hourly rate (already formatted) and comma-separated tags.
pub open spec fn list_line(ws: Workspace, state: Seq<char>, rate: Seq<char>) -> Seq<char> {
    pad_right(ws.name@, 18) + " "@ + pad_right(backend_label(ws.machine), 8) + " "@ + pad_right(
        machine_name(ws.machine),
        22,
    ) + " "@ + pad_right(state, 14) + " "@ + pad_left(rate, 8) + "  "@ + joined_by(
        views(ws.tags@),
        ","@,
    )
}

/// The heading of the `ls` table.
pub fn list_header() -> (r: String)
    ensures
        r@ == list_heading(),
{
    let mut out: Vec<char> = Vec::new();
    push_padded_right(&mut out, "WORKSPACE", 18);
    push_str(&mut out, " ");
    push_padded_right(&mut out, "BACKEND", 8);
    push_str(&mut out, " ");
    push_padded_right(&mut out, "MACHINE", 22);
    push_str(&mut out, " ");
    push_padded_right(&mut out, "STATE", 14);
    push_str(&mut out, " ");
    push_padded_left(&mut out, "RATE/HR", 8);
    push_str(&mut out, "  TAGS");
    assert(out@ =~= list_heading());
    string_of(&out)
}

/// The state shown in the `ls` table: the power state, or `error` when the
/// lookup failed.
pub open spec fn shown_state(state: Option<Seq<char>>) -> Seq<char> {
    match state {
        Some(s) => s,
        None => "error"@,
    }
}

/// One row of the `ls` table for `ws`, with its power state (`None` when the
/// lookup failed) and its rate as the caller formatted it.
pub fn list_row(ws: &Workspace, looked_up: Option<&str>, rate: &str) -> (r: String)
    ensures
        r@ == list_line(*ws, shown_state(opt_view(looked_up)), rate@),
{
    let state = match looked_up {
        Some(s) => s,
        None => "error",
    };
    let mut out: Vec<char> = Vec::new();
    push_padded_right(&mut out, ws.name.as_str(), 18);
    push_str(&mut out, " ");
    push_padded_right(&mut out, ws.machine.backend(), 8);
    push_str(&mut out, " ");
    push_padded_right(&mut out, ws.machine.name(), 22);
    push_str(&mut out, " ");
    push_padded_right(&mut out, state, 14);
    push_str(&mut out, " ");
    push_padded_left(&mut out, rate, 8);
    push_str(&mut out, "  ");
    let ghost head = out@;
    let ghost tags = views(ws.tags@);
    let mut i: usize = 0;
    assert(tags.take(0) =~= Seq::<Seq<char>>::empty());
    while i < ws.tags.len()
        invariant
            tags == views(ws.tags@),
            i <= ws.tags.len(),
            out@ == head + joined_by(tags.take(i as int), ","@),
        decreases ws.tags.len() - i,
    {
        let ghost pre = tags.take(i + 1);
        assert(pre.drop_last() =~= tags.take(i as int));
        if i > 0 {
            push_str(&mut out, ",");
        }
        push_str(&mut out, ws.tags[i].as_str());
        assert(out@ =~= head + joined_by(pre, ","@));
        i = i + 1;
    }
    assert(tags.take(i as int) =~= tags);
    assert(out@ =~= list_line(*ws, shown_state(opt_view(looked_up)), rate@));
    string_of(&out)
}

/// The notice printed when no workspace is registered.
pub open spec fn empty_notice(path: Seq<char>) -> Seq<char> {
    "No machines registered. Run `fleet import lima` or add a workspace to "@ + path + "."@
}

/// The notice printed when no workspace is registered in the config at `path`.
pub fn no_machines_notice(path: &str) -> (r: String)
    ensures
        r@ == empty_notice(path@),
{
    let mut out: Vec<char> = Vec::new();
    push_str(&mut out, "No machines registered. Run `fleet import lima` or add a workspace to ");
    push_str(&mut out, path);
    push_str(&mut out, ".");
    string_of(&out)
}

/// The lines `import lima` prints: one per new workspace, then a summary.
pub open spec fn import_lines(added: Seq<Seq<char>>, dry_run: bool, path: Seq<char>) -> Seq<
    Seq<char>,
> {
    let verb = if dry_run {
        "Would import"@
    } else {
        "Imported"@
    };
    added.map_values(|n: Seq<char>| verb + " "@ + n) + if added.len() == 0 {
        seq!["No new Lima machines to import."@]
    } else {
        seq![
            (if dry_run {
                "Would add"@
            } else {
                "Added"@
            }) + " "@ + decimal(added.len()) + " workspace(s) to "@ + path + "."@,
        ]
    }
}

/// The lines that `import lima` prints for the workspaces it added (or, on
/// a dry run, would add) to the config at `path`.
pub fn import_report(added: &Vec<String>, dry_run: bool, path: &str) -> (r: Vec<String>)
    ensures
        views(r@) == import_lines(views(added@), dry_run, path@),
{
    let ghost names = views(added@);
    let verb = if dry_run {
        "Would import"
    } else {
        "Imported"
    };
    let mut lines: Vec<String> = Vec::new();
    let mut i: usize = 0;
    while i < added.len()
        invariant
            names == views(added@),
            i <= added.len(),
            verb@ == (if dry_run {
                "Would import"@
            } else {
                "Imported"@
            }),
            views(lines@) == names.take(i as int).map_values(|n: Seq<char>| verb@ + " "@ + n),
        decreases added.len() - i,
    {
        let mut out: Vec<char> = Vec::new();
        push_str(&mut out, verb);
        push_str(&mut out, " ");
        push_str(&mut out, added[i].as_str());
        let line = string_of(&out);
        let ghost before = views(lines@);
        lines.push(line);
        assert(views(lines@) =~= before.push(line@));
        assert(names.take(i + 1).map_values(|n: Seq<char>| verb@ + " "@ + n) =~= names.take(
            i as int,
        ).map_values(|n: Seq<char>| verb@ + " "@ + n).push(line@));
        i = i + 1;
    }
    assert(names.take(i as int) =~= names);
    let ghost body = views(lines@);
    let last = if added.len() == 0 {
        "No new Lima machines to import.".to_owned()
    } else {
        let mut out: Vec<char> = Vec::new();
        push_str(
            &mut out,
            if dry_run {
                "Would add"
            } else {
                "Added"
            },
        );
        push_str(&mut out, " ");
        let digits = decimal_chars(added.len() as u128);
        let ghost mid = out@;
        let mut k: usize = 0;
        while k < digits.len()
            invariant
                k <= digits.len(),
                out@ == mid + digits@.take(k as int),
            decreases digits.len() - k,
        {
            out.push(digits[k]);
            k = k + 1;
        }
        assert(digits@.take(k as int) =~= digits@);
        push_str(&mut out, " workspace(s) to ");
        push_str(&mut out, path);
        push_str(&mut out, ".");
        string_of(&out)
    };
    lines.push(last);
    assert(views(lines@) =~= body.push(last@));
    assert(views(lines@) =~= import_lines(names, dry_run, path@));
    lines
}

/// A tool that `check` probes: its label, the command that must succeed,
/// and the advice shown when it does not.
#[derive(Debug)]
pub struct Probe {
    pub name: String,
    pub command: Invocation,
    pub hint: String,
}

/// The probes of `check`: Lima, Azure login, and SSH.
pub open spec fn probe_list() -> Seq<(Seq<char>, Seq<Seq<char>>, Seq<char>)> {
    seq![
        ("Lima"@, seq!["limactl"@, "--version"@], "Install Lima and make limactl available on PATH."@),
        (
            "Azure"@,
            seq!["az"@, "account"@, "show"@, "--output"@, "json"@, "--only-show-errors"@],
            "Install Azure CLI, then run az login (and az account set if needed)."@,
        ),
        ("SSH"@, seq!["ssh"@, "-V"@], "Install OpenSSH and make ssh available on PATH."@),
    ]
}

fn probe(name: &str, command: Invocation, hint: &str) -> (r: Probe)
    ensures
        r.name@ == name@,
        r.command == command,
        r.hint@ == hint@,
{
    Probe { name: name.to_owned(), command, hint: hint.to_owned() }
}

/// The tools that `check` probes, in order.
pub fn check_probes() -> (r: Vec<Probe>)
    ensures
        r@.map_values(|p: Probe| (p.name@, p.command@, p.hint@)) == probe_list(),
{
    let mut r: Vec<Probe> = Vec::new();
    let lima = Invocation::new("limactl", &["--version"]);
    assert(lima@ =~= seq!["limactl"@, "--version"@]);
    r.push(probe("Lima", lima, "Install Lima and make limactl available on PATH."));
    let azure = Invocation::new("az", &["account", "show", "--output", "json", "--only-show-errors"]);
    assert(azure@ =~= seq!["az"@, "account"@, "show"@, "--output"@, "json"@, "--only-show-errors"@]);
    r.push(
        probe(
            "Azure",
            azure,
            "Install Azure CLI, then run az login (and az account set if needed).",
        ),
    );
    let ssh = Invocation::new("ssh", &["-V"]);
    assert(ssh@ =~= seq!["ssh"@, "-V"@]);
    r.push(probe("SSH", ssh, "Install OpenSSH and make ssh available on PATH."));
    assert(r@.map_values(|p: Probe| (p.name@, p.command@, p.hint@)) =~= probe_list());
    r
}

/// The line `check` prints for one probe.
pub open spec fn probe_report(name: Seq<char>, ok: bool, hint: Seq<char>) -> Seq<char> {
    pad_right(name, 8) + if ok {
        " ok"@
    } else {
        " unavailable — "@ + hint
    }
}

/// The line `check` prints for a probe that succeeded (`ok`) or not.
pub fn probe_line(name: &str, ok: bool, hint: &str) -> (r: String)
    ensures
        r@ == probe_report(name@, ok, hint@),
{
    let mut out: Vec<char> = Vec::new();
    push_padded_right(&mut out, name, 8);
    if ok {
        push_str(&mut out, " ok");
    } else {
        push_str(&mut out, " unavailable — ");
        push_str(&mut out, hint);
    }
    string_of(&out)
}

/// Whether every step succeeded.
pub open spec fn all_succeeded(oks: Seq<bool>) -> bool {
    forall|i: int| 0 <= i < oks.len() ==> oks[i]
}

/// The exit code of `ls` and `check`: 0 when every lookup or probe
/// succeeded, else 1; the others are still reported.
pub fn exit_code(oks: &[bool]) -> (r: i32)
    ensures
        r == if all_succeeded(oks@) {
            0i32
        } else {
            1i32
        },
{
    let mut i: usize = 0;
    while i < oks.len()
        invariant
            i <= oks.len(),
            forall|j: int| 0 <= j < i ==> oks@[j],
        decreases oks.len() - i,
    {
        if !oks[i] {
            return 1;
        }
        i = i + 1;
    }
    0
}

/// What `up` prints after the start command exits with `code`: nothing
/// unless it succeeded; then how to connect, or why no connection can be
/// made.
pub fn up_notice(code: i32, ws: &Workspace) -> (r: Option<Result<String, FleetError>>)
    ensures
        code != 0 ==> r is None,
        code == 0 ==> match r {
            Some(Ok(s)) => connection_line(*ws, Seq::empty()) matches Some(argv) && s@ == "Connect: "@
                + shell_line(argv),
            Some(Err(e)) => connection_line(*ws, Seq::empty()) is None && e@
                == Fault::MissingConnectionTarget(ws.name@),
            None => false,
        },
{
    if code != 0 {
        return None;
    }
    let none: Vec<String> = Vec::new();
    assert(views(none@) =~= Seq::<Seq<char>>::empty());
    match connection(ws, none.as_slice()) {
        Ok(cmd) => Some(Ok(connect_notice(&cmd))),
        Err(e) => Some(Err(e)),
    }
}

/// The line `up` prints after starting a machine: how to connect to it.
pub fn connect_notice(inv: &Invocation) -> (r: String)
    ensures
        r@ == "Connect: "@ + shell_line(inv@),
{
    let mut out: Vec<char> = Vec::new();
    push_str(&mut out, "Connect: ");
    let shown = inv.display();
    push_str(&mut out, shown.as_str());
    string_of(&out)
}

} // verus!
