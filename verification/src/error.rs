//! The ways a Fleet operation is refused.

use vstd::prelude::*;

verus! {

/// Why a configuration, a selection or a provider operation was refused.
#[derive(Debug)]
pub enum FleetError {
    /// A workspace name is empty or whitespace only.
    EmptyWorkspaceName,
    /// Two workspaces share this name.
    DuplicateWorkspace(String),
    /// A machine name that providers would misread (empty, option-like, or with unusual characters).
    InvalidMachineName(String),
    /// An Azure resource group that is blank or looks like an option.
    InvalidResourceGroup,
    /// An Azure subscription that is blank or looks like an option.
    InvalidSubscription,
    /// An SSH or Tailscale destination that is empty, looks like an option, or holds spaces or control characters.
    InvalidSshDestination(String),
    /// An hourly rate that is not a finite, nonnegative number.
    InvalidHourly,
    /// A path starts with `~` but `HOME` is not set.
    HomeNotSet,
    /// A repo path that is neither absolute nor under `~/`.
    RelativeRepoPath(String),
    /// Two repo entries name the same directory.
    DuplicateRepo(String),
    /// No workspace has this name.
    UnknownWorkspace(String),
    /// No workspace's repos contain this directory.
    NoWorkspaceMatches(String),
    /// The repos of several workspaces contain this directory.
    MultipleWorkspacesMatch(String),
    /// This Azure workspace has neither `ssh` nor `tailscale`.
    MissingConnectionTarget(String),
    /// `limactl start` would create this Lima instance, which does not exist.
    MissingLimaInstance(String),
    /// The config text is not TOML.
    InvalidToml,
    /// The config's `workspace` key holds something other than an array.
    WorkspaceNotArray,
}

/// A [`FleetError`] with its text as character sequences.
pub enum Fault {
    EmptyWorkspaceName,
    DuplicateWorkspace(Seq<char>),
    InvalidMachineName(Seq<char>),
    InvalidResourceGroup,
    InvalidSubscription,
    InvalidSshDestination(Seq<char>),
    InvalidHourly,
    HomeNotSet,
    RelativeRepoPath(Seq<char>),
    DuplicateRepo(Seq<char>),
    UnknownWorkspace(Seq<char>),
    NoWorkspaceMatches(Seq<char>),
    MultipleWorkspacesMatch(Seq<char>),
    MissingConnectionTarget(Seq<char>),
    MissingLimaInstance(Seq<char>),
    InvalidToml,
    WorkspaceNotArray,
}

impl View for FleetError {
    type V = Fault;

    open spec fn view(&self) -> Fault {
        match self {
            FleetError::EmptyWorkspaceName => Fault::EmptyWorkspaceName,
            FleetError::DuplicateWorkspace(s) => Fault::DuplicateWorkspace(s@),
            FleetError::InvalidMachineName(s) => Fault::InvalidMachineName(s@),
            FleetError::InvalidResourceGroup => Fault::InvalidResourceGroup,
            FleetError::InvalidSubscription => Fault::InvalidSubscription,
            FleetError::InvalidSshDestination(s) => Fault::InvalidSshDestination(s@),
            FleetError::InvalidHourly => Fault::InvalidHourly,
            FleetError::HomeNotSet => Fault::HomeNotSet,
            FleetError::RelativeRepoPath(s) => Fault::RelativeRepoPath(s@),
            FleetError::DuplicateRepo(s) => Fault::DuplicateRepo(s@),
            FleetError::UnknownWorkspace(s) => Fault::UnknownWorkspace(s@),
            FleetError::NoWorkspaceMatches(s) => Fault::NoWorkspaceMatches(s@),
            FleetError::MultipleWorkspacesMatch(s) => Fault::MultipleWorkspacesMatch(s@),
            FleetError::MissingConnectionTarget(s) => Fault::MissingConnectionTarget(s@),
            FleetError::MissingLimaInstance(s) => Fault::MissingLimaInstance(s@),
            FleetError::InvalidToml => Fault::InvalidToml,
            FleetError::WorkspaceNotArray => Fault::WorkspaceNotArray,
        }
    }
}

} // verus!
