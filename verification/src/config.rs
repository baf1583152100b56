//! The workspace configuration: machines, repos and SSH targets, the rules a
//! configuration must meet, and choosing the workspace a command acts on.

use vstd::prelude::*;
use crate::error::{FleetError, Fault};
use crate::path::{
    clean_absolute, expanded, expand, has_root, lemma_normal_is_clean, lexical_normal,
    lexically_normal, same, same_path, starts_with, path_starts_with, opt_view,
};
use crate::text::{chars_of, views};

verus! {

/// An existing machine, named as its provider knows it.
#[derive(Debug)]
pub enum Machine {
    Lima { name: String },
    Azure { name: String, resource_group: String, subscription: Option<String> },
}

/// A repository directory that selects its workspace.
#[derive(Debug)]
pub struct Repo {
    pub path: String,
}

/// A workspace: a name, the machine it runs on, and how to reach it.
#[derive(Debug)]
pub struct Workspace {
    pub name: String,
    pub machine: Machine,
    pub repos: Vec<Repo>,
    /// SSH destination (an SSH config alias or user@host).
    pub ssh: Option<String>,
    pub tailscale: Option<String>,
    /// The hourly rate, as the bits of an IEEE 754 double (`f64::to_bits`).
    pub hourly: Option<u64>,
    pub tags: Vec<String>,
}

/// All configured workspaces, in file order.
#[derive(Debug)]
pub struct Config {
    pub workspace: Vec<Workspace>,
}

/// The provider's name of the machine.
pub open spec fn machine_name(m: Machine) -> Seq<char> {
    match m {
        Machine::Lima { name } => name@,
        Machine::Azure { name, .. } => name@,
    }
}

/// The provider of the machine, as written in the config.
pub open spec fn backend_label(m: Machine) -> Seq<char> {
    match m {
        Machine::Lima { .. } => "lima"@,
        Machine::Azure { .. } => "azure"@,
    }
}

impl Machine {
    pub fn name(&self) -> (r: &str)
        ensures
            r@ == machine_name(*self),
    {
        match self {
            Machine::Lima { name } => name.as_str(),
            Machine::Azure { name, .. } => name.as_str(),
        }
    }

    pub fn backend(&self) -> (r: &str)
        ensures
            r@ == backend_label(*self),
    {
        match self {
            Machine::Lima { .. } => "lima",
            Machine::Azure { .. } => "azure",
        }
    }
}

/// Unicode `White_Space`, the property `char::is_whitespace` tests.
pub open spec fn is_space(c: char) -> bool {
    ||| ('\u{9}' <= c && c <= '\u{d}')
    ||| c == ' ' || c == '\u{85}' || c == '\u{a0}' || c == '\u{1680}'
    ||| ('\u{2000}' <= c && c <= '\u{200a}')
    ||| c == '\u{2028}' || c == '\u{2029}' || c == '\u{202f}' || c == '\u{205f}' || c == '\u{3000}'
}

/// The general category `Cc`, which `char::is_control` tests.
pub open spec fn is_control(c: char) -> bool {
    c <= '\u{1f}' || ('\u{7f}' <= c && c <= '\u{9f}')
}

/// Whether `s` is empty once surrounding whitespace is trimmed.
pub open spec fn blank(s: Seq<char>) -> bool {
    forall|i: int| 0 <= i < s.len() ==> is_space(#[trigger] s[i])
}

/// Whether `s` starts like a command-line option.
pub open spec fn option_like(s: Seq<char>) -> bool {
    s.len() > 0 && s[0] == '-'
}

/// Characters allowed in a machine name.
pub open spec fn machine_name_char(c: char) -> bool {
    ||| ('a' <= c && c <= 'z')
    ||| ('A' <= c && c <= 'Z')
    ||| ('0' <= c && c <= '9')
    ||| c == '-' || c == '_' || c == '.'
}

/// A machine name that providers read as a name: nonempty, not option-like,
/// of ASCII letters, digits, `-`, `_` and `.`, and neither `.` nor `..`.
pub open spec fn valid_machine_name(n: Seq<char>) -> bool {
    &&& n.len() > 0
    &&& !option_like(n)
    &&& forall|i: int| 0 <= i < n.len() ==> machine_name_char(#[trigger] n[i])
    &&& n != seq!['.']
    &&& n != seq!['.', '.']
}

/// An Azure resource group or subscription: not blank and not option-like.
pub open spec fn valid_azure_field(s: Seq<char>) -> bool {
    !blank(s) && !option_like(s)
}

/// An SSH destination: nonempty, not option-like, without whitespace or control characters.
pub open spec fn valid_destination(t: Seq<char>) -> bool {
    &&& t.len() > 0
    &&& !option_like(t)
    &&& forall|i: int| 0 <= i < t.len() ==> !is_space(#[trigger] t[i]) && !is_control(t[i])
}

/// Whether the double with these bits is finite and not below zero
/// (`-0.0` counts as zero).
pub open spec fn valid_rate(bits: u64) -> bool {
    &&& (bits >> 52u64) & 0x7ffu64 != 0x7ffu64
    &&& (bits >> 63u64 == 0u64 || bits & 0x7fff_ffff_ffff_ffffu64 == 0u64)
}

/// The first rule that a workspace's own fields break, given the names of
/// the workspaces before it.
pub open spec fn field_fault(ws: Workspace, names: Seq<Seq<char>>) -> Option<Fault> {
    if blank(ws.name@) {
        Some(Fault::EmptyWorkspaceName)
    } else if names.contains(ws.name@) {
        Some(Fault::DuplicateWorkspace(ws.name@))
    } else if !valid_machine_name(machine_name(ws.machine)) {
        Some(Fault::InvalidMachineName(machine_name(ws.machine)))
    } else if ws.machine matches Machine::Azure { resource_group, .. } && !valid_azure_field(
        resource_group@,
    ) {
        Some(Fault::InvalidResourceGroup)
    } else if ws.machine matches Machine::Azure { subscription: Some(s), .. } && !valid_azure_field(
        s@,
    ) {
        Some(Fault::InvalidSubscription)
    } else if ws.ssh is Some && !valid_destination(ws.ssh->0@) {
        Some(Fault::InvalidSshDestination(ws.ssh->0@))
    } else if ws.tailscale is Some && !valid_destination(ws.tailscale->0@) {
        Some(Fault::InvalidSshDestination(ws.tailscale->0@))
    } else if ws.hourly matches Some(b) && !valid_rate(b) {
        Some(Fault::InvalidHourly)
    } else {
        None
    }
}

/// The canonical form of `key` among `resolved` (the first pair whose first
/// part is `key`), if there is one.
pub open spec fn canonical_of(resolved: Seq<(String, String)>, key: Seq<char>) -> Option<Seq<char>>
    decreases resolved.len(),
{
    if resolved.len() == 0 {
        None
    } else if resolved[0].0@ == key {
        Some(resolved[0].1@)
    } else {
        canonical_of(resolved.drop_first(), key)
    }
}

/// Where a repo path points: expanded, required to be absolute, then its
/// canonical form when the filesystem gave one, else its lexical normal form.
pub open spec fn repo_location(
    path: Seq<char>,
    home: Option<Seq<char>>,
    resolved: Seq<(String, String)>,
) -> Result<Seq<char>, Fault> {
    match expanded(path, home) {
        None => Err(Fault::HomeNotSet),
        Some(e) => if !has_root(e) {
            Err(Fault::RelativeRepoPath(e))
        } else {
            match canonical_of(resolved, e) {
                Some(c) => Ok(c),
                None => Ok(lexically_normal(e)),
            }
        },
    }
}

/// Whether some path in `seen` has the components of `p`.
pub open spec fn seen_path(seen: Seq<Seq<char>>, p: Seq<char>) -> bool {
    exists|i: int| 0 <= i < seen.len() && same_path(#[trigger] seen[i], p)
}

/// The locations of `repos`, in order, given the locations taken before
/// them; or the first rule they break.
pub open spec fn repos_outcome(
    repos: Seq<Repo>,
    seen: Seq<Seq<char>>,
    home: Option<Seq<char>>,
    resolved: Seq<(String, String)>,
) -> Result<Seq<Seq<char>>, Fault>
    decreases repos.len(),
{
    if repos.len() == 0 {
        Ok(Seq::empty())
    } else {
        match repo_location(repos[0].path@, home, resolved) {
            Err(f) => Err(f),
            Ok(l) => if seen_path(seen, l) {
                Err(Fault::DuplicateRepo(l))
            } else {
                match repos_outcome(repos.drop_first(), seen.push(l), home, resolved) {
                    Ok(rest) => Ok(seq![l] + rest),
                    Err(f) => Err(f),
                }
            },
        }
    }
}

/// The repo locations of each workspace, in order, given the names and
/// locations of the workspaces before them; or the first rule they break.
pub open spec fn config_outcome(
    wss: Seq<Workspace>,
    names: Seq<Seq<char>>,
    seen: Seq<Seq<char>>,
    home: Option<Seq<char>>,
    resolved: Seq<(String, String)>,
) -> Result<Seq<Seq<Seq<char>>>, Fault>
    decreases wss.len(),
{
    if wss.len() == 0 {
        Ok(Seq::empty())
    } else {
        match field_fault(wss[0], names) {
            Some(f) => Err(f),
            None => match repos_outcome(wss[0].repos@, seen, home, resolved) {
                Err(f) => Err(f),
                Ok(locs) => match config_outcome(
                    wss.drop_first(),
                    names.push(wss[0].name@),
                    seen + locs,
                    home,
                    resolved,
                ) {
                    Ok(rest) => Ok(seq![locs] + rest),
                    Err(f) => Err(f),
                },
            },
        }
    }
}

/// The paths of a workspace's repos.
pub open spec fn repo_paths(repos: Seq<Repo>) -> Seq<Seq<char>> {
    repos.map_values(|r: Repo| r.path@)
}

/// `after` is `before` with its repo paths replaced by `locs`.
pub open spec fn relocated(after: Workspace, before: Workspace, locs: Seq<Seq<char>>) -> bool {
    &&& after.name == before.name
    &&& after.machine == before.machine
    &&& after.ssh == before.ssh
    &&& after.tailscale == before.tailscale
    &&& after.hourly == before.hourly
    &&& after.tags == before.tags
    &&& repo_paths(after.repos@) == locs
}

fn is_space_char(c: char) -> (b: bool)
    ensures
        b == is_space(c),
{
    ('\u{9}' <= c && c <= '\u{d}') || c == ' ' || c == '\u{85}' || c == '\u{a0}' || c == '\u{1680}'
        || ('\u{2000}' <= c && c <= '\u{200a}') || c == '\u{2028}' || c == '\u{2029}' || c
        == '\u{202f}' || c == '\u{205f}' || c == '\u{3000}'
}

fn is_control_char(c: char) -> (b: bool)
    ensures
        b == is_control(c),
{
    c <= '\u{1f}' || ('\u{7f}' <= c && c <= '\u{9f}')
}

pub(crate) fn is_blank(s: &str) -> (b: bool)
    ensures
        b == blank(s@),
{
    let v = chars_of(s);
    let mut i: usize = 0;
    while i < v.len()
        invariant
            v@ == s@,
            i <= v.len(),
            forall|j: int| 0 <= j < i ==> is_space(#[trigger] v@[j]),
        decreases v.len() - i,
    {
        if !is_space_char(v[i]) {
            return false;
        }
        i = i + 1;
    }
    true
}

fn is_option_like(s: &str) -> (b: bool)
    ensures
        b == option_like(s@),
{
    let v = chars_of(s);
    v.len() > 0 && v[0] == '-'
}

pub(crate) fn is_valid_machine_name(n: &str) -> (b: bool)
    ensures
        b == valid_machine_name(n@),
{
    let v = chars_of(n);
    if v.len() == 0 || v[0] == '-' {
        return false;
    }
    let mut i: usize = 0;
    while i < v.len()
        invariant
            v@ == n@,
            i <= v.len(),
            forall|j: int| 0 <= j < i ==> machine_name_char(#[trigger] v@[j]),
        decreases v.len() - i,
    {
        let c = v[i];
        if !(('a' <= c && c <= 'z') || ('A' <= c && c <= 'Z') || ('0' <= c && c <= '9') || c == '-'
            || c == '_' || c == '.') {
            return false;
        }
        i = i + 1;
    }
    let one_dot = v.len() == 1 && v[0] == '.';
    let two_dots = v.len() == 2 && v[0] == '.' && v[1] == '.';
    assert(one_dot == (v@ == seq!['.'])) by {
        if v@ == seq!['.'] {
            assert(v@.len() == 1);
        }
        if one_dot {
            assert(v@ =~= seq!['.']);
        }
    }
    assert(two_dots == (v@ == seq!['.', '.'])) by {
        if v@ == seq!['.', '.'] {
            assert(v@.len() == 2);
        }
        if two_dots {
            assert(v@ =~= seq!['.', '.']);
        }
    }
    !one_dot && !two_dots
}

fn is_valid_azure_field(s: &str) -> (b: bool)
    ensures
        b == valid_azure_field(s@),
{
    !is_blank(s) && !is_option_like(s)
}

fn is_valid_destination(t: &str) -> (b: bool)
    ensures
        b == valid_destination(t@),
{
    let v = chars_of(t);
    if v.len() == 0 || v[0] == '-' {
        return false;
    }
    let mut i: usize = 0;
    while i < v.len()
        invariant
            v@ == t@,
            i <= v.len(),
            forall|j: int| 0 <= j < i ==> !is_space(#[trigger] v@[j]) && !is_control(v@[j]),
        decreases v.len() - i,
    {
        if is_space_char(v[i]) || is_control_char(v[i]) {
            return false;
        }
        i = i + 1;
    }
    true
}

/// Whether the double with these bits is finite and not below zero.
pub fn is_valid_rate(bits: u64) -> (b: bool)
    ensures
        b == valid_rate(bits),
{
    (bits >> 52u64) & 0x7ffu64 != 0x7ffu64 && (bits >> 63u64 == 0u64 || bits
        & 0x7fff_ffff_ffff_ffffu64 == 0u64)
}

pub(crate) fn contains_name(names: &Vec<String>, name: &String) -> (b: bool)
    ensures
        b == views(names@).contains(name@),
{
    let mut i: usize = 0;
    while i < names.len()
        invariant
            i <= names.len(),
            forall|j: int| 0 <= j < i ==> views(names@)[j] != name@,
        decreases names.len() - i,
    {
        if names[i] == *name {
            assert(views(names@)[i as int] == name@);
            return true;
        }
        i = i + 1;
    }
    false
}

fn check_fields(ws: &Workspace, names: &Vec<String>) -> (r: Option<FleetError>)
    ensures
        match r {
            Some(e) => field_fault(*ws, views(names@)) == Some(e@),
            None => field_fault(*ws, views(names@)) is None,
        },
{
    if is_blank(ws.name.as_str()) {
        return Some(FleetError::EmptyWorkspaceName);
    }
    if contains_name(names, &ws.name) {
        return Some(FleetError::DuplicateWorkspace(ws.name.clone()));
    }
    let name = ws.machine.name();
    if !is_valid_machine_name(name) {
        return Some(FleetError::InvalidMachineName(name.to_owned()));
    }
    if let Machine::Azure { resource_group, subscription, .. } = &ws.machine {
        if !is_valid_azure_field(resource_group.as_str()) {
            return Some(FleetError::InvalidResourceGroup);
        }
        if let Some(s) = subscription {
            if !is_valid_azure_field(s.as_str()) {
                return Some(FleetError::InvalidSubscription);
            }
        }
    }
    if let Some(t) = &ws.ssh {
        if !is_valid_destination(t.as_str()) {
            return Some(FleetError::InvalidSshDestination(t.clone()));
        }
    }
    if let Some(t) = &ws.tailscale {
        if !is_valid_destination(t.as_str()) {
            return Some(FleetError::InvalidSshDestination(t.clone()));
        }
    }
    if let Some(b) = ws.hourly {
        if !is_valid_rate(b) {
            return Some(FleetError::InvalidHourly);
        }
    }
    None
}

fn canonical_lookup(resolved: &Vec<(String, String)>, key: &String) -> (r: Option<String>)
    ensures
        match r {
            Some(c) => canonical_of(resolved@, key@) == Some(c@),
            None => canonical_of(resolved@, key@) is None,
        },
{
    let mut i: usize = 0;
    assert(resolved@.skip(0) == resolved@);
    while i < resolved.len()
        invariant
            i <= resolved.len(),
            canonical_of(resolved@.skip(i as int), key@) == canonical_of(resolved@, key@),
        decreases resolved.len() - i,
    {
        let ghost s = resolved@.skip(i as int);
        assert(s.drop_first() == resolved@.skip(i + 1));
        if resolved[i].0 == *key {
            return Some(resolved[i].1.clone());
        }
        i = i + 1;
    }
    assert(resolved@.skip(i as int).len() == 0);
    None
}

fn locate(path: &str, home: Option<&str>, resolved: &Vec<(String, String)>) -> (r: Result<
    String,
    FleetError,
>)
    ensures
        match r {
            Ok(l) => repo_location(path@, opt_view(home), resolved@) == Ok::<Seq<char>, Fault>(l@),
            Err(e) => repo_location(path@, opt_view(home), resolved@) == Err::<Seq<char>, Fault>(e@),
        },
{
    let e = match expand(path, home) {
        Ok(e) => e,
        Err(err) => {
            return Err(err);
        },
    };
    let ev = chars_of(e.as_str());
    if !(ev.len() > 0 && ev[0] == '/') {
        return Err(FleetError::RelativeRepoPath(e));
    }
    match canonical_lookup(resolved, &e) {
        Some(c) => Ok(c),
        None => Ok(lexical_normal(e.as_str())),
    }
}

fn is_seen(seen: &Vec<String>, p: &String) -> (b: bool)
    ensures
        b == seen_path(views(seen@), p@),
{
    let mut i: usize = 0;
    while i < seen.len()
        invariant
            i <= seen.len(),
            forall|j: int| 0 <= j < i ==> !same_path(#[trigger] views(seen@)[j], p@),
        decreases seen.len() - i,
    {
        if same(seen[i].as_str(), p.as_str()) {
            assert(same_path(views(seen@)[i as int], p@));
            return true;
        }
        i = i + 1;
    }
    false
}

fn locate_repos(
    repos: &Vec<Repo>,
    seen: &mut Vec<String>,
    home: Option<&str>,
    resolved: &Vec<(String, String)>,
) -> (r: Result<Vec<Repo>, FleetError>)
    ensures
        match r {
            Ok(new) => repos_outcome(repos@, views(old(seen)@), opt_view(home), resolved@) == Ok::<
                Seq<Seq<char>>,
                Fault,
            >(repo_paths(new@)) && views(final(seen)@) == views(old(seen)@) + repo_paths(new@),
            Err(e) => repos_outcome(repos@, views(old(seen)@), opt_view(home), resolved@) == Err::<
                Seq<Seq<char>>,
                Fault,
            >(e@),
        },
{
    let ghost h = opt_view(home);
    let ghost seen0 = views(seen@);
    let mut out: Vec<Repo> = Vec::new();
    let mut i: usize = 0;
    assert(repos@.skip(0) == repos@);
    assert(repo_paths(out@) =~= Seq::<Seq<char>>::empty());
    assert(views(seen@) =~= seen0 + repo_paths(out@));
    while i < repos.len()
        invariant
            i <= repos.len(),
            h == opt_view(home),
            seen0 == views(old(seen)@),
            views(seen@) == seen0 + repo_paths(out@),
            repos_outcome(repos@, seen0, h, resolved@) == match repos_outcome(
                repos@.skip(i as int),
                views(seen@),
                h,
                resolved@,
            ) {
                Ok(rest) => Ok(repo_paths(out@) + rest),
                Err(f) => Err(f),
            },
        decreases repos.len() - i,
    {
        let ghost s = repos@.skip(i as int);
        assert(s[0] == repos@[i as int]);
        assert(s.drop_first() == repos@.skip(i + 1));
        let l = match locate(repos[i].path.as_str(), home, resolved) {
            Ok(l) => l,
            Err(e) => {
                assert(repos_outcome(s, views(seen@), h, resolved@) == Err::<Seq<Seq<char>>, Fault>(
                    e@,
                ));
                return Err(e);
            },
        };
        if is_seen(seen, &l) {
            assert(repos_outcome(s, views(seen@), h, resolved@) == Err::<Seq<Seq<char>>, Fault>(
                Fault::DuplicateRepo(l@),
            ));
            return Err(FleetError::DuplicateRepo(l));
        }
        let ghost before_out = repo_paths(out@);
        let ghost before_seen = views(seen@);
        seen.push(l.clone());
        assert(views(seen@) =~= before_seen.push(l@));
        out.push(Repo { path: l });
        assert(repo_paths(out@) =~= before_out.push(l@));
        proof {
            match repos_outcome(repos@.skip(i + 1), views(seen@), h, resolved@) {
                Ok(rest) => {
                    assert(before_out + (seq![l@] + rest) =~= repo_paths(out@) + rest);
                },
                Err(f) => {},
            }
        }
        i = i + 1;
    }
    assert(repos@.skip(i as int).len() == 0);
    assert(repo_paths(out@) + Seq::<Seq<char>>::empty() =~= repo_paths(out@));
    Ok(out)
}

/// Whether every canonical form in `resolved` is absolute and has no `..`
/// component, as the filesystem gives them.
pub open spec fn clean_resolution(resolved: Seq<(String, String)>) -> bool {
    forall|i: int| 0 <= i < resolved.len() ==> clean_absolute(#[trigger] resolved[i].1@)
}

proof fn lemma_canonical_clean(resolved: Seq<(String, String)>, key: Seq<char>)
    requires
        clean_resolution(resolved),
    ensures
        canonical_of(resolved, key) matches Some(c) ==> clean_absolute(c),
    decreases resolved.len(),
{
    if resolved.len() > 0 && resolved[0].0@ != key {
        let rest = resolved.drop_first();
        assert forall|i: int| 0 <= i < rest.len() implies clean_absolute(#[trigger] rest[i].1@) by {
            assert(rest[i] == resolved[i + 1]);
        }
        lemma_canonical_clean(rest, key);
    }
}

proof fn lemma_location_clean(path: Seq<char>, home: Option<Seq<char>>, resolved: Seq<(String, String)>)
    requires
        clean_resolution(resolved),
    ensures
        repo_location(path, home, resolved) matches Ok(l) ==> clean_absolute(l),
{
    if let Some(e) = expanded(path, home) {
        lemma_canonical_clean(resolved, e);
        lemma_normal_is_clean(e);
    }
}

proof fn lemma_repos_clean(
    repos: Seq<Repo>,
    seen: Seq<Seq<char>>,
    home: Option<Seq<char>>,
    resolved: Seq<(String, String)>,
)
    requires
        clean_resolution(resolved),
    ensures
        repos_outcome(repos, seen, home, resolved) matches Ok(ls) ==> forall|i: int|
            0 <= i < ls.len() ==> clean_absolute(#[trigger] ls[i]),
    decreases repos.len(),
{
    if repos.len() > 0 {
        lemma_location_clean(repos[0].path@, home, resolved);
        if let Ok(l) = repo_location(repos[0].path@, home, resolved) {
            lemma_repos_clean(repos.drop_first(), seen.push(l), home, resolved);
            if let Ok(rest) = repos_outcome(repos.drop_first(), seen.push(l), home, resolved) {
                let ls = seq![l] + rest;
                assert forall|i: int| 0 <= i < ls.len() implies clean_absolute(#[trigger] ls[i]) by {
                    if i > 0 {
                        assert(ls[i] == rest[i - 1]);
                    }
                }
            }
        }
    }
}

proof fn lemma_config_clean(
    wss: Seq<Workspace>,
    names: Seq<Seq<char>>,
    seen: Seq<Seq<char>>,
    home: Option<Seq<char>>,
    resolved: Seq<(String, String)>,
)
    requires
        clean_resolution(resolved),
    ensures
        config_outcome(wss, names, seen, home, resolved) matches Ok(locss) ==> forall|i: int, j: int|
            0 <= i < locss.len() && 0 <= j < locss[i].len() ==> clean_absolute(#[trigger] locss[i][j]),
    decreases wss.len(),
{
    if wss.len() > 0 && field_fault(wss[0], names) is None {
        lemma_repos_clean(wss[0].repos@, seen, home, resolved);
        if let Ok(locs) = repos_outcome(wss[0].repos@, seen, home, resolved) {
            let names2 = names.push(wss[0].name@);
            lemma_config_clean(wss.drop_first(), names2, seen + locs, home, resolved);
            if let Ok(rest) = config_outcome(wss.drop_first(), names2, seen + locs, home, resolved) {
                let all = seq![locs] + rest;
                assert forall|i: int, j: int|
                    0 <= i < all.len() && 0 <= j < all[i].len() implies clean_absolute(
                    #[trigger] all[i][j],
                ) by {
                    if i > 0 {
                        assert(all[i] == rest[i - 1]);
                    } else {
                        assert(all[i] == locs);
                    }
                }
            }
        }
    }
}

/// The outcome that [`Config::validate`] computes: the repo locations of every
/// workspace, or the first rule that the configuration breaks.
pub open spec fn validation(
    c: Config,
    home: Option<Seq<char>>,
    resolved: Seq<(String, String)>,
) -> Result<Seq<Seq<Seq<char>>>, Fault> {
    config_outcome(c.workspace@, Seq::empty(), Seq::empty(), home, resolved)
}

impl Config {
    /// Checks every workspace in file order and points each repo path at the
    /// directory it names; the first broken rule is the error.
    ///
    /// `home` is the value of `HOME`, if set; `resolved` pairs each expanded
    /// repo path that exists on disk with its canonical form, which is
    /// absolute and free of `..`. Other paths are normalized by their text
    /// alone, so that symlinks and `..` cannot give one directory to two
    /// workspaces; every accepted repo path is absolute and free of `.` and
    /// `..`.
    pub fn validate(self, home: Option<&str>, resolved: &Vec<(String, String)>) -> (r: Result<
        Config,
        FleetError,
    >)
        requires
            clean_resolution(resolved@),
        ensures
            match r {
                Ok(c) => validation(self, opt_view(home), resolved@) matches Ok(locs) && c.workspace@.len()
                    == self.workspace@.len() && (forall|i: int|
                    0 <= i < c.workspace@.len() ==> relocated(
                        #[trigger] c.workspace@[i],
                        self.workspace@[i],
                        locs[i],
                    )) && forall|i: int, j: int|
                    0 <= i < c.workspace@.len() && 0 <= j < c.workspace@[i].repos@.len()
                        ==> clean_absolute(#[trigger] c.workspace@[i].repos@[j].path@),
                Err(e) => validation(self, opt_view(home), resolved@) == Err::<
                    Seq<Seq<Seq<char>>>,
                    Fault,
                >(e@),
            },
    {
        let ghost h = opt_view(home);
        let ghost wss0 = self.workspace@;
        let mut rest = self.workspace;
        let mut out: Vec<Workspace> = Vec::new();
        let mut names: Vec<String> = Vec::new();
        let mut seen: Vec<String> = Vec::new();
        let ghost mut done: Seq<Seq<Seq<char>>> = Seq::empty();
        assert(wss0.skip(0) == wss0);
        assert(views(names@) =~= Seq::<Seq<char>>::empty());
        assert(views(seen@) =~= Seq::<Seq<char>>::empty());
        assert(done + Seq::<Seq<Seq<char>>>::empty() =~= done);
        while rest.len() > 0
            invariant
                h == opt_view(home),
                wss0 == self.workspace@,
                rest@ == wss0.skip(done.len() as int),
                done.len() <= wss0.len(),
                out@.len() == done.len(),
                forall|j: int| 0 <= j < done.len() ==> relocated(#[trigger] out@[j], wss0[j], done[j]),
                config_outcome(wss0, Seq::empty(), Seq::empty(), h, resolved@) == match config_outcome(
                    rest@,
                    views(names@),
                    views(seen@),
                    h,
                    resolved@,
                ) {
                    Ok(tail) => Ok(done + tail),
                    Err(f) => Err(f),
                },
            decreases rest.len(),
        {
            let ghost k = done.len() as int;
            let ghost before_rest = rest@;
            let ws = rest.remove(0);
            assert(ws == wss0[k]);
            assert(rest@ == before_rest.drop_first());
            assert(before_rest.drop_first() =~= wss0.skip(k + 1));
            if let Some(e) = check_fields(&ws, &names) {
                assert(config_outcome(before_rest, views(names@), views(seen@), h, resolved@)
                    == Err::<Seq<Seq<Seq<char>>>, Fault>(e@));
                return Err(e);
            }
            let ghost seen_before = views(seen@);
            let located = locate_repos(&ws.repos, &mut seen, home, resolved);
            let new_repos = match located {
                Ok(new_repos) => new_repos,
                Err(e) => {
                    assert(config_outcome(before_rest, views(names@), seen_before, h, resolved@)
                        == Err::<Seq<Seq<Seq<char>>>, Fault>(e@));
                    return Err(e);
                },
            };
            let ghost locs = repo_paths(new_repos@);
            let Workspace { name, machine, repos, ssh, tailscale, hourly, tags } = ws;
            let ghost before_names = views(names@);
            names.push(name.clone());
            assert(views(names@) =~= before_names.push(name@));
            let ghost before_out = out@;
            out.push(Workspace { name, machine, repos: new_repos, ssh, tailscale, hourly, tags });
            proof {
                match config_outcome(rest@, views(names@), views(seen@), h, resolved@) {
                    Ok(tail) => {
                        assert(done + (seq![locs] + tail) =~= done.push(locs) + tail);
                    },
                    Err(f) => {},
                }
                assert forall|j: int| 0 <= j < done.len() + 1 implies relocated(
                    #[trigger] out@[j],
                    wss0[j],
                    done.push(locs)[j],
                ) by {
                    if j < done.len() {
                        assert(out@[j] == before_out[j]);
                    }
                }
                done = done.push(locs);
            }
        }
        assert(wss0.skip(done.len() as int).len() == 0);
        assert(done.len() == wss0.len());
        proof {
            lemma_config_clean(wss0, Seq::empty(), Seq::empty(), h, resolved@);
            assert(config_outcome(rest@, views(names@), views(seen@), h, resolved@) == Ok::<
                Seq<Seq<Seq<char>>>,
                Fault,
            >(Seq::empty()));
            assert(done + Seq::<Seq<Seq<char>>>::empty() =~= done);
            assert forall|i: int, j: int|
                0 <= i < out@.len() && 0 <= j < out@[i].repos@.len() implies clean_absolute(
                #[trigger] out@[i].repos@[j].path@,
            ) by {
                assert(relocated(out@[i], wss0[i], done[i]));
                assert(repo_paths(out@[i].repos@)[j] == out@[i].repos@[j].path@);
            }
        }
        Ok(Config { workspace: out })
    }
}

/// Whether one of the workspace's repos contains the directory `cwd`.
pub open spec fn covers(ws: Workspace, cwd: Seq<char>) -> bool {
    exists|j: int| 0 <= j < ws.repos@.len() && path_starts_with(cwd, #[trigger] ws.repos@[j].path@)
}

/// The positions of the workspaces whose repos contain `cwd`, in order.
pub open spec fn covering(wss: Seq<Workspace>, cwd: Seq<char>) -> Seq<int>
    decreases wss.len(),
{
    if wss.len() == 0 {
        Seq::empty()
    } else {
        covering(wss.drop_last(), cwd) + if covers(wss.last(), cwd) {
            seq![wss.len() - 1]
        } else {
            Seq::empty()
        }
    }
}

/// Whether `i` is the first position of a workspace named `name`.
pub open spec fn first_named(wss: Seq<Workspace>, name: Seq<char>, i: int) -> bool {
    &&& 0 <= i < wss.len()
    &&& wss[i].name@ == name
    &&& forall|j: int| 0 <= j < i ==> (#[trigger] wss[j]).name@ != name
}

fn covers_dir(ws: &Workspace, cwd: &str) -> (b: bool)
    ensures
        b == covers(*ws, cwd@),
{
    let mut j: usize = 0;
    while j < ws.repos.len()
        invariant
            j <= ws.repos.len(),
            forall|k: int| 0 <= k < j ==> !path_starts_with(cwd@, #[trigger] ws.repos@[k].path@),
        decreases ws.repos.len() - j,
    {
        if starts_with(cwd, ws.repos[j].path.as_str()) {
            return true;
        }
        j = j + 1;
    }
    false
}

impl Config {
    /// The workspace a command acts on: the one named `name`, or else the
    /// only one whose repos contain the directory `cwd`.
    ///
    /// `cwd` is the current directory as the caller resolved it (its
    /// canonical form where the filesystem gives one).
    pub fn select(&self, name: Option<&str>, cwd: &str) -> (r: Result<&Workspace, FleetError>)
        ensures
            name matches Some(n) ==> match r {
                Ok(ws) => exists|i: int| first_named(self.workspace@, n@, i) && *ws == self.workspace@[i],
                Err(e) => e@ == Fault::UnknownWorkspace(n@) && forall|i: int|
                    0 <= i < self.workspace@.len() ==> (#[trigger] self.workspace@[i]).name@ != n@,
            },
            name is None ==> match r {
                Ok(ws) => covering(self.workspace@, cwd@).len() == 1 && *ws == self.workspace@[covering(
                    self.workspace@,
                    cwd@,
                )[0]],
                Err(e) => (covering(self.workspace@, cwd@).len() == 0 && e@ == Fault::NoWorkspaceMatches(
                    cwd@,
                )) || (covering(self.workspace@, cwd@).len() >= 2 && e@
                    == Fault::MultipleWorkspacesMatch(cwd@)),
            },
    {
        if let Some(n) = name {
            let wanted = n.to_owned();
            let mut i: usize = 0;
            while i < self.workspace.len()
                invariant
                    name == Some(n),
                    wanted@ == n@,
                    i <= self.workspace.len(),
                    forall|j: int| 0 <= j < i ==> (#[trigger] self.workspace@[j]).name@ != n@,
                decreases self.workspace.len() - i,
            {
                if self.workspace[i].name == wanted {
                    let ws = &self.workspace[i];
                    assert(*ws == self.workspace@[i as int]);
                    assert(first_named(self.workspace@, n@, i as int));
                    return Ok(ws);
                }
                i = i + 1;
            }
            return Err(FleetError::UnknownWorkspace(wanted));
        }
        let mut found: Vec<usize> = Vec::new();
        let mut i: usize = 0;
        assert(self.workspace@.take(0) =~= Seq::<Workspace>::empty());
        while i < self.workspace.len()
            invariant
                i <= self.workspace.len(),
                forall|k: int| 0 <= k < found.len() ==> found@[k] < i,
                found@.map_values(|k: usize| k as int) == covering(self.workspace@.take(i as int), cwd@),
            decreases self.workspace.len() - i,
        {
            let ghost pre = self.workspace@.take(i + 1);
            assert(pre.drop_last() =~= self.workspace@.take(i as int));
            assert(pre.last() == self.workspace@[i as int]);
            let ghost before = found@;
            if covers_dir(&self.workspace[i], cwd) {
                found.push(i);
                assert(found@.map_values(|k: usize| k as int) =~= before.map_values(
                    |k: usize| k as int,
                ).push(i as int));
            }
            assert(found@.map_values(|k: usize| k as int) =~= covering(pre, cwd@));
            i = i + 1;
        }
        assert(self.workspace@.take(i as int) =~= self.workspace@);
        let cwd_owned = cwd.to_owned();
        if found.len() == 1 {
            assert(found@.map_values(|k: usize| k as int)[0] == found@[0] as int);
            let ws = &self.workspace[found[0]];
            assert(*ws == self.workspace@[found@[0] as int]);
            Ok(ws)
        } else if found.len() == 0 {
            Err(FleetError::NoWorkspaceMatches(cwd_owned))
        } else {
            Err(FleetError::MultipleWorkspacesMatch(cwd_owned))
        }
    }
}

/// The repos of all workspaces, in file order.
pub open spec fn all_repos(wss: Seq<Workspace>) -> Seq<Repo>
    decreases wss.len(),
{
    if wss.len() == 0 {
        Seq::empty()
    } else {
        wss[0].repos@ + all_repos(wss.drop_first())
    }
}

/// Where a repo points (empty when its path cannot be located).
pub open spec fn location_of(r: Repo, home: Option<Seq<char>>, resolved: Seq<(String, String)>) -> Seq<
    char,
> {
    match repo_location(r.path@, home, resolved) {
        Ok(l) => l,
        Err(_) => Seq::empty(),
    }
}

/// Every repo can be located, none points at a directory in `seen`, and no
/// two point at the same directory.
pub open spec fn repos_acceptable(
    repos: Seq<Repo>,
    seen: Seq<Seq<char>>,
    home: Option<Seq<char>>,
    resolved: Seq<(String, String)>,
) -> bool {
    &&& forall|k: int| 0 <= k < repos.len() ==> (#[trigger] repo_location(repos[k].path@, home, resolved)) is Ok
    &&& forall|k: int| 0 <= k < repos.len() ==> !seen_path(seen, #[trigger] location_of(repos[k], home, resolved))
    &&& forall|k: int, l: int| 0 <= k < l < repos.len() ==> !same_path(
        #[trigger] location_of(repos[k], home, resolved),
        #[trigger] location_of(repos[l], home, resolved),
    )
}

proof fn lemma_seen_push(seen: Seq<Seq<char>>, l: Seq<char>, x: Seq<char>)
    ensures
        seen_path(seen.push(l), x) <==> seen_path(seen, x) || same_path(l, x),
{
    if seen_path(seen.push(l), x) {
        let i = choose|i: int| 0 <= i < seen.push(l).len() && same_path(#[trigger] seen.push(l)[i], x);
        if i < seen.len() {
            assert(seen[i] == seen.push(l)[i]);
        }
    }
    if seen_path(seen, x) {
        let i = choose|i: int| 0 <= i < seen.len() && same_path(#[trigger] seen[i], x);
        assert(seen.push(l)[i] == seen[i]);
    }
    if same_path(l, x) {
        assert(seen.push(l)[seen.len() as int] == l);
    }
}

proof fn lemma_repos_outcome(
    repos: Seq<Repo>,
    seen: Seq<Seq<char>>,
    home: Option<Seq<char>>,
    resolved: Seq<(String, String)>,
)
    ensures
        repos_outcome(repos, seen, home, resolved) is Ok <==> repos_acceptable(
            repos,
            seen,
            home,
            resolved,
        ),
        repos_outcome(repos, seen, home, resolved) is Ok ==> repos_outcome(
            repos,
            seen,
            home,
            resolved,
        )->Ok_0 == repos.map_values(|r: Repo| location_of(r, home, resolved)),
    decreases repos.len(),
{
    if repos.len() > 0 {
        let rest = repos.drop_first();
        match repo_location(repos[0].path@, home, resolved) {
            Err(f) => {},
            Ok(l) => {
                assert(location_of(repos[0], home, resolved) == l);
                if !seen_path(seen, l) {
                    lemma_repos_outcome(rest, seen.push(l), home, resolved);
                    if repos_acceptable(repos, seen, home, resolved) {
                        assert forall|k: int| 0 <= k < rest.len() implies !seen_path(
                            seen.push(l),
                            #[trigger] location_of(rest[k], home, resolved),
                        ) by {
                            assert(rest[k] == repos[k + 1]);
                            lemma_seen_push(seen, l, location_of(rest[k], home, resolved));
                        }
                        assert forall|k: int, m: int| 0 <= k < m < rest.len() implies !same_path(
                            #[trigger] location_of(rest[k], home, resolved),
                            #[trigger] location_of(rest[m], home, resolved),
                        ) by {
                            assert(rest[k] == repos[k + 1]);
                            assert(rest[m] == repos[m + 1]);
                        }
                        assert forall|k: int| 0 <= k < rest.len() implies (#[trigger] repo_location(
                            rest[k].path@,
                            home,
                            resolved,
                        )) is Ok by {
                            assert(rest[k] == repos[k + 1]);
                        }
                        assert(repos_acceptable(rest, seen.push(l), home, resolved));
                    }
                    if repos_acceptable(rest, seen.push(l), home, resolved) {
                        assert forall|k: int| 0 <= k < repos.len() implies (#[trigger] repo_location(
                            repos[k].path@,
                            home,
                            resolved,
                        )) is Ok by {
                            if k > 0 {
                                assert(rest[k - 1] == repos[k]);
                            }
                        }
                        assert forall|k: int| 0 <= k < repos.len() implies !seen_path(
                            seen,
                            #[trigger] location_of(repos[k], home, resolved),
                        ) by {
                            if k > 0 {
                                assert(rest[k - 1] == repos[k]);
                                lemma_seen_push(seen, l, location_of(repos[k], home, resolved));
                            }
                        }
                        assert forall|k: int, m: int| 0 <= k < m < repos.len() implies !same_path(
                            #[trigger] location_of(repos[k], home, resolved),
                            #[trigger] location_of(repos[m], home, resolved),
                        ) by {
                            assert(rest[m - 1] == repos[m]);
                            if k > 0 {
                                assert(rest[k - 1] == repos[k]);
                            } else {
                                lemma_seen_push(seen, l, location_of(repos[m], home, resolved));
                            }
                        }
                    }
                    if repos_outcome(repos, seen, home, resolved) is Ok {
                        assert(repos_outcome(repos, seen, home, resolved)->Ok_0 =~= repos.map_values(
                            |r: Repo| location_of(r, home, resolved),
                        ));
                    }
                } else {
                    assert(!repos_acceptable(repos, seen, home, resolved));
                }
            },
        }
    }
}

proof fn lemma_seen_concat(seen: Seq<Seq<char>>, ls: Seq<Seq<char>>, x: Seq<char>)
    ensures
        seen_path(seen + ls, x) <==> seen_path(seen, x) || exists|k: int|
            0 <= k < ls.len() && same_path(#[trigger] ls[k], x),
{
    if seen_path(seen + ls, x) {
        let i = choose|i: int| 0 <= i < (seen + ls).len() && same_path(#[trigger] (seen + ls)[i], x);
        if i < seen.len() {
            assert(seen[i] == (seen + ls)[i]);
        } else {
            assert(ls[i - seen.len()] == (seen + ls)[i]);
        }
    }
    if seen_path(seen, x) {
        let i = choose|i: int| 0 <= i < seen.len() && same_path(#[trigger] seen[i], x);
        assert((seen + ls)[i] == seen[i]);
    }
    if exists|k: int| 0 <= k < ls.len() && same_path(#[trigger] ls[k], x) {
        let k = choose|k: int| 0 <= k < ls.len() && same_path(#[trigger] ls[k], x);
        assert((seen + ls)[seen.len() + k] == ls[k]);
    }
}

proof fn lemma_acceptable_split(
    a: Seq<Repo>,
    b: Seq<Repo>,
    seen: Seq<Seq<char>>,
    home: Option<Seq<char>>,
    resolved: Seq<(String, String)>,
)
    ensures
        repos_acceptable(a + b, seen, home, resolved) <==> repos_acceptable(a, seen, home, resolved)
            && repos_acceptable(
            b,
            seen + a.map_values(|r: Repo| location_of(r, home, resolved)),
            home,
            resolved,
        ),
{
    let ab = a + b;
    let la = a.map_values(|r: Repo| location_of(r, home, resolved));
    assert forall|k: int| 0 <= k < a.len() implies ab[k] == a[k] by {}
    assert forall|k: int| 0 <= k < b.len() implies ab[a.len() + k] == b[k] by {}
    if repos_acceptable(ab, seen, home, resolved) {
        assert forall|k: int| 0 <= k < a.len() implies (#[trigger] repo_location(
            a[k].path@,
            home,
            resolved,
        )) is Ok by {
            assert(ab[k] == a[k]);
        }
        assert forall|k: int| 0 <= k < a.len() implies !seen_path(
            seen,
            #[trigger] location_of(a[k], home, resolved),
        ) by {
            assert(ab[k] == a[k]);
        }
        assert forall|k: int, l: int| 0 <= k < l < a.len() implies !same_path(
            #[trigger] location_of(a[k], home, resolved),
            #[trigger] location_of(a[l], home, resolved),
        ) by {
            assert(ab[k] == a[k]);
            assert(ab[l] == a[l]);
        }
        assert forall|k: int| 0 <= k < b.len() implies (#[trigger] repo_location(
            b[k].path@,
            home,
            resolved,
        )) is Ok by {
            assert(ab[a.len() + k] == b[k]);
        }
        assert forall|k: int| 0 <= k < b.len() implies !seen_path(
            seen + la,
            #[trigger] location_of(b[k], home, resolved),
        ) by {
            let x = location_of(b[k], home, resolved);
            assert(ab[a.len() + k] == b[k]);
            lemma_seen_concat(seen, la, x);
            if exists|j: int| 0 <= j < la.len() && same_path(#[trigger] la[j], x) {
                let j = choose|j: int| 0 <= j < la.len() && same_path(#[trigger] la[j], x);
                assert(ab[j] == a[j]);
                assert(la[j] == location_of(ab[j], home, resolved));
                assert(j < a.len() + k);
            }
        }
        assert forall|k: int, l: int| 0 <= k < l < b.len() implies !same_path(
            #[trigger] location_of(b[k], home, resolved),
            #[trigger] location_of(b[l], home, resolved),
        ) by {
            assert(ab[a.len() + k] == b[k]);
            assert(ab[a.len() + l] == b[l]);
        }
    }
    if repos_acceptable(a, seen, home, resolved) && repos_acceptable(b, seen + la, home, resolved) {
        assert forall|k: int| 0 <= k < ab.len() implies (#[trigger] repo_location(
            ab[k].path@,
            home,
            resolved,
        )) is Ok by {
            if k >= a.len() {
                assert(ab[k] == b[k - a.len()]);
            }
        }
        assert forall|k: int| 0 <= k < ab.len() implies !seen_path(
            seen,
            #[trigger] location_of(ab[k], home, resolved),
        ) by {
            if k >= a.len() {
                assert(ab[k] == b[k - a.len()]);
                lemma_seen_concat(seen, la, location_of(ab[k], home, resolved));
            }
        }
        assert forall|k: int, l: int| 0 <= k < l < ab.len() implies !same_path(
            #[trigger] location_of(ab[k], home, resolved),
            #[trigger] location_of(ab[l], home, resolved),
        ) by {
            if l < a.len() {
            } else if k < a.len() {
                assert(ab[l] == b[l - a.len()]);
                lemma_seen_concat(seen, la, location_of(ab[l], home, resolved));
                assert(la[k] == location_of(ab[k], home, resolved));
            } else {
                assert(ab[k] == b[k - a.len()]);
                assert(ab[l] == b[l - a.len()]);
            }
        }
    }
}

proof fn lemma_field_fault(ws: Workspace, names: Seq<Seq<char>>)
    ensures
        field_fault(ws, names) is None <==> field_fault(ws, Seq::empty()) is None && !names.contains(
            ws.name@,
        ),
{
}

/// What every accepted configuration satisfies, and nothing more.
pub open spec fn well_formed(
    wss: Seq<Workspace>,
    names: Seq<Seq<char>>,
    seen: Seq<Seq<char>>,
    home: Option<Seq<char>>,
    resolved: Seq<(String, String)>,
) -> bool {
    &&& forall|i: int| 0 <= i < wss.len() ==> (#[trigger] field_fault(wss[i], Seq::empty())) is None
    &&& forall|i: int| 0 <= i < wss.len() ==> !names.contains((#[trigger] wss[i]).name@)
    &&& forall|i: int, j: int| 0 <= i < j < wss.len() ==> (#[trigger] wss[i]).name@ != (
    #[trigger] wss[j]).name@
    &&& repos_acceptable(all_repos(wss), seen, home, resolved)
}

proof fn lemma_config_outcome(
    wss: Seq<Workspace>,
    names: Seq<Seq<char>>,
    seen: Seq<Seq<char>>,
    home: Option<Seq<char>>,
    resolved: Seq<(String, String)>,
)
    ensures
        config_outcome(wss, names, seen, home, resolved) is Ok <==> well_formed(
            wss,
            names,
            seen,
            home,
            resolved,
        ),
    decreases wss.len(),
{
    if wss.len() == 0 {
        assert(all_repos(wss) =~= Seq::<Repo>::empty());
    } else {
        let w = wss[0];
        let rest = wss.drop_first();
        let n2 = names.push(w.name@);
        let locs = w.repos@.map_values(|r: Repo| location_of(r, home, resolved));
        lemma_field_fault(w, names);
        lemma_repos_outcome(w.repos@, seen, home, resolved);
        lemma_config_outcome(rest, n2, seen + locs, home, resolved);
        lemma_acceptable_split(w.repos@, all_repos(rest), seen, home, resolved);
        assert(all_repos(wss) == w.repos@ + all_repos(rest));
        assert forall|i: int| 0 <= i < rest.len() implies rest[i] == wss[i + 1] by {}
        if well_formed(wss, names, seen, home, resolved) {
            assert(field_fault(wss[0], Seq::empty()) is None);
            assert(!names.contains(wss[0].name@));
            assert forall|i: int| 0 <= i < rest.len() implies !n2.contains(
                (#[trigger] rest[i]).name@,
            ) by {
                assert(wss[0].name@ != wss[i + 1].name@);
                assert(!names.contains(wss[i + 1].name@));
                if n2.contains(rest[i].name@) {
                    let k = choose|k: int| 0 <= k < n2.len() && n2[k] == rest[i].name@;
                    if k < names.len() {
                        assert(names[k] == n2[k]);
                    }
                }
            }
            assert forall|i: int| 0 <= i < rest.len() implies (#[trigger] field_fault(
                rest[i],
                Seq::empty(),
            )) is None by {
                assert(field_fault(wss[i + 1], Seq::empty()) is None);
            }
            assert forall|i: int, j: int| 0 <= i < j < rest.len() implies (#[trigger] rest[i]).name@
                != (#[trigger] rest[j]).name@ by {
                assert(wss[i + 1].name@ != wss[j + 1].name@);
            }
            assert(well_formed(rest, n2, seen + locs, home, resolved));
        }
        if config_outcome(wss, names, seen, home, resolved) is Ok {
            assert(well_formed(rest, n2, seen + locs, home, resolved));
            assert forall|i: int| 0 <= i < wss.len() implies (#[trigger] field_fault(
                wss[i],
                Seq::empty(),
            )) is None by {
                if i > 0 {
                    assert(rest[i - 1] == wss[i]);
                }
            }
            assert forall|i: int| 0 <= i < wss.len() implies !names.contains(
                (#[trigger] wss[i]).name@,
            ) by {
                if i > 0 {
                    assert(rest[i - 1] == wss[i]);
                    assert(!n2.contains(rest[i - 1].name@));
                    if names.contains(wss[i].name@) {
                        let k = choose|k: int| 0 <= k < names.len() && names[k] == wss[i].name@;
                        assert(n2[k] == names[k]);
                    }
                }
            }
            assert forall|i: int, j: int| 0 <= i < j < wss.len() implies (#[trigger] wss[i]).name@ != (
            #[trigger] wss[j]).name@ by {
                assert(rest[j - 1] == wss[j]);
                if i > 0 {
                    assert(rest[i - 1] == wss[i]);
                } else {
                    assert(!n2.contains(rest[j - 1].name@));
                    assert(n2[names.len() as int] == w.name@);
                }
            }
        }
    }
}

/// A configuration is accepted exactly when every workspace's own fields
/// follow the rules, no two workspaces share a name, every repo path can be
/// located (expanded, absolute), and no two repo entries point at the same
/// directory.
pub proof fn accepted_exactly_when(
    c: Config,
    home: Option<Seq<char>>,
    resolved: Seq<(String, String)>,
)
    ensures
        validation(c, home, resolved) is Ok <==> {
            let all = all_repos(c.workspace@);
            &&& forall|i: int|
                0 <= i < c.workspace@.len() ==> (#[trigger] field_fault(
                    c.workspace@[i],
                    Seq::empty(),
                )) is None
            &&& forall|i: int, j: int|
                0 <= i < j < c.workspace@.len() ==> (#[trigger] c.workspace@[i]).name@ != (
                #[trigger] c.workspace@[j]).name@
            &&& forall|k: int| 0 <= k < all.len() ==> (#[trigger] repo_location(all[k].path@, home, resolved)) is Ok
            &&& forall|k: int, l: int|
                0 <= k < l < all.len() ==> !same_path(
                    #[trigger] location_of(all[k], home, resolved),
                    #[trigger] location_of(all[l], home, resolved),
                )
        },
{
    lemma_config_outcome(c.workspace@, Seq::empty(), Seq::empty(), home, resolved);
    let all = all_repos(c.workspace@);
    assert forall|k: int| 0 <= k < all.len() implies !seen_path(
        Seq::<Seq<char>>::empty(),
        #[trigger] location_of(all[k], home, resolved),
    ) by {}
}

/// In an accepted configuration, every workspace is the first (and only)
/// one with its name, so selecting by that name picks exactly it.
pub proof fn selection_by_name_is_exact(
    c: Config,
    i: int,
    home: Option<Seq<char>>,
    resolved: Seq<(String, String)>,
)
    requires
        validation(c, home, resolved) is Ok,
        0 <= i < c.workspace@.len(),
    ensures
        first_named(c.workspace@, c.workspace@[i].name@, i),
        forall|j: int| first_named(c.workspace@, c.workspace@[i].name@, j) ==> j == i,
{
    accepted_exactly_when(c, home, resolved);
    assert forall|j: int| 0 <= j < i implies (#[trigger] c.workspace@[j]).name@ != c.workspace@[i].name@ by {}
    assert forall|j: int| first_named(c.workspace@, c.workspace@[i].name@, j) implies j == i by {
        if j > i {
            assert(c.workspace@[i].name@ != c.workspace@[i].name@);
        }
    }
}

/// An SSH or Tailscale destination is refused exactly when it is empty,
/// starts with `-`, or holds a whitespace or control character; in
/// particular every nonempty text of printable ASCII characters that does
/// not start with `-`, such as `user@host` or `host:22`, is accepted.
pub proof fn destinations_are_refused_exactly_when(t: Seq<char>)
    ensures
        valid_destination(t) <==> (t.len() > 0 && t[0] != '-' && forall|i: int|
            0 <= i < t.len() ==> !is_space(#[trigger] t[i]) && !is_control(t[i])),
        (t.len() > 0 && t[0] != '-' && forall|i: int| 0 <= i < t.len() ==> '!' <= #[trigger] t[i] && t[i] <= '~')
            ==> valid_destination(t),
{
}

proof fn lemma_covering(wss: Seq<Workspace>, cwd: Seq<char>)
    ensures
        forall|k: int|
            0 <= k < covering(wss, cwd).len() ==> 0 <= #[trigger] covering(wss, cwd)[k] < wss.len()
                && covers(wss[covering(wss, cwd)[k]], cwd),
        forall|x: int|
            0 <= x < wss.len() && covers(#[trigger] wss[x], cwd) ==> covering(wss, cwd).contains(x),
        forall|a: int, b: int|
            0 <= a < b < covering(wss, cwd).len() ==> #[trigger] covering(wss, cwd)[a] < #[trigger] covering(
                wss,
                cwd,
            )[b],
    decreases wss.len(),
{
    if wss.len() > 0 {
        let init = wss.drop_last();
        lemma_covering(init, cwd);
        let c0 = covering(init, cwd);
        let tail = if covers(wss.last(), cwd) {
            seq![wss.len() - 1]
        } else {
            Seq::<int>::empty()
        };
        let c = covering(wss, cwd);
        assert(c == c0 + tail);
        assert forall|k: int| 0 <= k < c.len() implies 0 <= #[trigger] c[k] < wss.len() && covers(
            wss[c[k]],
            cwd,
        ) by {
            if k < c0.len() {
                assert(c[k] == c0[k]);
                assert(init[c0[k]] == wss[c0[k]]);
            } else {
                assert(c[k] == tail[k - c0.len()]);
            }
        }
        assert forall|x: int| 0 <= x < wss.len() && covers(#[trigger] wss[x], cwd) implies c.contains(x) by {
            if x < init.len() {
                assert(init[x] == wss[x]);
                assert(c0.contains(x));
                let k = choose|k: int| 0 <= k < c0.len() && c0[k] == x;
                assert(c[k] == x);
            } else {
                assert(c[c0.len() as int] == x);
            }
        }
        assert forall|a: int, b: int| 0 <= a < b < c.len() implies #[trigger] c[a] < #[trigger] c[b] by {
            if b < c0.len() {
                assert(c[a] == c0[a] && c[b] == c0[b]);
            } else {
                assert(c[a] == c0[a]);
                assert(c0[a] < init.len());
            }
        }
    }
}

/// Without a name, the workspaces that could be meant are exactly those with
/// a repo, at any position in their list, whose path is a component prefix
/// of the current directory: the selection fails with no match when there is
/// none, and picks workspace `i` exactly when it is the only one.
pub proof fn selection_by_directory_is_exact(wss: Seq<Workspace>, cwd: Seq<char>, i: int)
    requires
        0 <= i < wss.len(),
    ensures
        covering(wss, cwd).len() == 0 <==> forall|k: int, j: int|
            0 <= k < wss.len() && 0 <= j < wss[k].repos@.len() ==> !path_starts_with(
                cwd,
                #[trigger] wss[k].repos@[j].path@,
            ),
        covering(wss, cwd) == seq![i] <==> {
            &&& exists|j: int| 0 <= j < wss[i].repos@.len() && path_starts_with(cwd, #[trigger] wss[i].repos@[j].path@)
            &&& forall|k: int, j: int|
                0 <= k < wss.len() && k != i && 0 <= j < wss[k].repos@.len() ==> !path_starts_with(
                    cwd,
                    #[trigger] wss[k].repos@[j].path@,
                )
        },
{
    lemma_covering(wss, cwd);
    let c = covering(wss, cwd);
    if c.len() == 0 {
        assert forall|k: int, j: int|
            0 <= k < wss.len() && 0 <= j < wss[k].repos@.len() implies !path_starts_with(
            cwd,
            #[trigger] wss[k].repos@[j].path@,
        ) by {
            if path_starts_with(cwd, wss[k].repos@[j].path@) {
                assert(covers(wss[k], cwd));
                assert(c.contains(k));
            }
        }
    } else {
        assert(covers(wss[c[0]], cwd));
    }
    if c == seq![i] {
        assert(covers(wss[c[0]], cwd));
        assert forall|k: int, j: int|
            0 <= k < wss.len() && k != i && 0 <= j < wss[k].repos@.len() implies !path_starts_with(
            cwd,
            #[trigger] wss[k].repos@[j].path@,
        ) by {
            if path_starts_with(cwd, wss[k].repos@[j].path@) {
                assert(covers(wss[k], cwd));
                assert(c.contains(k));
            }
        }
    }
    if (exists|j: int| 0 <= j < wss[i].repos@.len() && path_starts_with(cwd, #[trigger] wss[i].repos@[j].path@))
        && forall|k: int, j: int|
        0 <= k < wss.len() && k != i && 0 <= j < wss[k].repos@.len() ==> !path_starts_with(
            cwd,
            #[trigger] wss[k].repos@[j].path@,
        ) {
        assert(covers(wss[i], cwd));
        assert(c.contains(i));
        assert forall|k: int| 0 <= k < c.len() implies c[k] == i by {
            if c[k] != i {
                let w = wss[c[k]];
                assert(covers(w, cwd));
                let j = choose|j: int| 0 <= j < w.repos@.len() && path_starts_with(cwd, #[trigger] w.repos@[j].path@);
                assert(!path_starts_with(cwd, wss[c[k]].repos@[j].path@));
            }
        }
        if c.len() > 1 {
            assert(c[0] < c[1]);
        }
        assert(c =~= seq![i]);
    }
}

} // verus!
