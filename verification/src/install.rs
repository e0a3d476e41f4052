//! The file installer: the order in which a converted file is put in place.
//!
//! Installing takes three steps that the caller carries out: the upload is
//! written to a staging file, the staging file is put over the destination,
//! and the staging file is removed. The functions here say where the two
//! files are and which step comes next, given how the step before went. The
//! destination is touched by one step only, and only once the upload has
//! been staged whole.

use vstd::prelude::*;
use crate::paths::{file_name, file_name_of, joined, resolve};

verus! {

/// Where an upload is staged and where it is installed.
#[derive(Debug)]
pub struct InstallPlan {
    /// The scratch file that receives the upload.
    pub staging: String,
    /// The library file that the upload replaces.
    pub destination: String,
}

/// Installing failed: the upload could not be staged or put in place.
#[derive(Clone, Copy, Debug, PartialEq, Eq, Structural)]
pub struct StorageError;

/// One step of an installation, for the caller to carry out.
#[derive(Clone, Copy, Debug, PartialEq, Eq, Structural)]
pub enum InstallAction {
    /// Write the upload to the staging file.
    Stage,
    /// Put the staging file over the destination.
    Commit,
    /// Remove the staging file.
    RemoveStaging,
}

/// How far an installation has come.
#[derive(Clone, Copy, Debug, PartialEq, Eq, Structural)]
pub enum InstallPhase {
    /// The upload is to be staged.
    Staging,
    /// The staged upload is to be put in place.
    Committing,
    /// The staging file is to be removed; `installed` says whether the
    /// upload has been put in place.
    Removing { installed: bool },
    /// Nothing is left to do; `installed` says whether the upload is in
    /// place.
    Finished { installed: bool },
}

/// The scratch file for an upload to `relative`: the last component of the
/// path, in the working directory.
pub open spec fn staging_of(relative: Seq<char>) -> Seq<char> {
    seq!['.', '/'] + file_name_of(relative)
}

/// The step that a phase asks for.
pub open spec fn action_in(phase: InstallPhase) -> Option<InstallAction> {
    match phase {
        InstallPhase::Staging => Some(InstallAction::Stage),
        InstallPhase::Committing => Some(InstallAction::Commit),
        InstallPhase::Removing { .. } => Some(InstallAction::RemoveStaging),
        InstallPhase::Finished { .. } => None,
    }
}

/// The phase that follows `phase` once its step has been carried out, with
/// or without success. A failed step is followed by the removal of the
/// staging file; whether that removal succeeds does not matter.
pub open spec fn phase_after(phase: InstallPhase, succeeded: bool) -> InstallPhase {
    match phase {
        InstallPhase::Staging => if succeeded {
            InstallPhase::Committing
        } else {
            InstallPhase::Removing { installed: false }
        },
        InstallPhase::Committing => InstallPhase::Removing { installed: succeeded },
        InstallPhase::Removing { installed } => InstallPhase::Finished { installed },
        InstallPhase::Finished { installed } => InstallPhase::Finished { installed },
    }
}

/// What a phase reports to the uploader, once nothing is left to do.
pub open spec fn outcome_in(phase: InstallPhase) -> Option<Result<(), StorageError>> {
    match phase {
        InstallPhase::Finished { installed } => Some(
            if installed {
                Ok(())
            } else {
                Err(StorageError)
            },
        ),
        _ => None,
    }
}

/// Says where an upload to `relative` below `root` is staged and installed.
pub fn plan_install(root: &str, relative: &str) -> (out: InstallPlan)
    ensures
        out.staging@ == staging_of(relative@),
        out.destination@ == joined(root@, relative@),
{
    proof {
        reveal_strlit("./");
    }
    let mut staging = String::from_str("./");
    let name = file_name(relative);
    staging.append(name.as_str());
    assert(staging@ =~= staging_of(relative@));
    InstallPlan { staging, destination: resolve(root, relative) }
}

impl InstallPhase {
    /// The phase in which every installation begins.
    pub fn start() -> (out: InstallPhase)
        ensures
            out == InstallPhase::Staging,
    {
        InstallPhase::Staging
    }

    /// The step to carry out in this phase; none once the installation has
    /// finished.
    pub fn action(self) -> (out: Option<InstallAction>)
        ensures
            out == action_in(self),
    {
        match self {
            InstallPhase::Staging => Some(InstallAction::Stage),
            InstallPhase::Committing => Some(InstallAction::Commit),
            InstallPhase::Removing { .. } => Some(InstallAction::RemoveStaging),
            InstallPhase::Finished { .. } => None,
        }
    }

    /// The phase that follows once this phase's step has been carried out;
    /// `succeeded` says how it went.
    pub fn advance(self, succeeded: bool) -> (out: InstallPhase)
        ensures
            out == phase_after(self, succeeded),
    {
        match self {
            InstallPhase::Staging => if succeeded {
                InstallPhase::Committing
            } else {
                InstallPhase::Removing { installed: false }
            },
            InstallPhase::Committing => InstallPhase::Removing { installed: succeeded },
            InstallPhase::Removing { installed } => InstallPhase::Finished { installed },
            InstallPhase::Finished { installed } => InstallPhase::Finished { installed },
        }
    }

    /// How the installation ended; none while steps are left.
    pub fn outcome(self) -> (out: Option<Result<(), StorageError>>)
        ensures
            out == outcome_in(self),
    {
        match self {
            InstallPhase::Finished { installed } => Some(
                if installed {
                    Ok(())
                } else {
                    Err(StorageError)
                },
            ),
            _ => None,
        }
    }
}

/// The destination is written only after the upload has been staged whole:
/// the step that puts the upload in place is asked for exactly when the
/// phase before was the staging and its step succeeded.
pub proof fn lemma_commit_follows_staging(phase: InstallPhase, succeeded: bool)
    ensures
        action_in(phase_after(phase, succeeded)) == Some(InstallAction::Commit) <==> (phase
            == InstallPhase::Staging && succeeded),
{
}

/// Every installation ends after at most three steps. It ends as installed
/// exactly when the upload was staged and put in place, and the removal of
/// the staging file is the last step in either case.
pub proof fn lemma_install_runs(staged: bool, committed: bool, removed: bool)
    ensures
        staged ==> outcome_in(
            phase_after(
                phase_after(phase_after(InstallPhase::Staging, true), committed),
                removed,
            ),
        ) == Some(
            if committed {
                Ok::<(), StorageError>(())
            } else {
                Err::<(), StorageError>(StorageError)
            },
        ),
        !staged ==> outcome_in(phase_after(phase_after(InstallPhase::Staging, false), removed))
            == Some(Err::<(), StorageError>(StorageError)),
        action_in(phase_after(phase_after(InstallPhase::Staging, true), committed)) == Some(
            InstallAction::RemoveStaging,
        ),
        action_in(phase_after(InstallPhase::Staging, false)) == Some(InstallAction::RemoveStaging),
{
}

} // verus!
