use vstd::prelude::*;
use crate::paths::{join_path, path_joined};
use crate::text::{seq_contains, str_contains};

verus! {

/// The name of the lockfile in a project's root.
pub const FOUNDRY_LOCK: &'static str = "foundry.lock";

/// How a dependency is pinned, and the revision it is locked at.
pub enum DepIdentifier {
    Branch { name: String, rev: String, overrides: bool },
    Tag { name: String, rev: String, overrides: bool },
    Rev { rev: String, overrides: bool },
}

impl DepIdentifier {
    /// The revision the dependency is locked at.
    pub open spec fn spec_rev(&self) -> Seq<char> {
        match self {
            DepIdentifier::Branch { rev, .. } => rev@,
            DepIdentifier::Tag { rev, .. } => rev@,
            DepIdentifier::Rev { rev, .. } => rev@,
        }
    }

    /// The revision the dependency is locked at.
    pub fn rev(&self) -> (r: &String)
        ensures
            r@ == self.spec_rev(),
            match self {
                DepIdentifier::Branch { rev, .. } => r@ == rev@,
                DepIdentifier::Tag { rev, .. } => r@ == rev@,
                DepIdentifier::Rev { rev, .. } => r@ == rev@,
            },
    {
        match self {
            DepIdentifier::Branch { rev, .. } => rev,
            DepIdentifier::Tag { rev, .. } => rev,
            DepIdentifier::Rev { rev, .. } => rev,
        }
    }
}

/// A locked dependency: its directory relative to the project root, and how
/// it is pinned.
pub struct LockEntry {
    pub path: String,
    pub identifier: DepIdentifier,
}

/// The dependencies of a project as its lockfile records them.
pub struct Lockfile {
    deps: Vec<LockEntry>,
    lockfile_path: String,
}

/// Why a lockfile could not be loaded.
pub enum LockfileError {
    /// There is no lockfile at the given path.
    NotFound { path: String },
    /// The lockfile could not be read or parsed; the message says why.
    Invalid { message: String },
}

impl Lockfile {
    /// The locked dependencies.
    pub closed spec fn spec_deps(&self) -> Seq<LockEntry> {
        self.deps@
    }

    /// The lockfile's path.
    pub closed spec fn spec_lockfile_path(&self) -> Seq<char> {
        self.lockfile_path@
    }

    /// A lockfile handler for the project at `project_root`, with no
    /// dependencies loaded yet; its path is `foundry.lock` in that root.
    pub fn new(project_root: &str) -> (r: Lockfile)
        ensures
            r.spec_deps().len() == 0,
            r.spec_lockfile_path() == path_joined(project_root@, FOUNDRY_LOCK@),
    {
        Lockfile { deps: Vec::new(), lockfile_path: join_path(project_root, FOUNDRY_LOCK) }
    }

    /// The lockfile's path.
    pub fn lockfile_path(&self) -> (r: &String)
        ensures
            r@ == self.spec_lockfile_path(),
    {
        &self.lockfile_path
    }

    /// The locked dependencies.
    pub fn deps(&self) -> (r: &Vec<LockEntry>)
        ensures
            r@ == self.spec_deps(),
    {
        &self.deps
    }

    /// Loads the dependencies from what was read at the lockfile's path:
    /// `None` when no file is there, else the parsed entries or why reading or
    /// parsing failed. A missing lockfile is the `NotFound` error, naming the
    /// path; on any error the loaded dependencies are left as they were.
    pub fn read(&mut self, loaded: Option<Result<Vec<LockEntry>, String>>) -> (r: Result<(), LockfileError>)
        ensures
            final(self).spec_lockfile_path() == old(self).spec_lockfile_path(),
            match loaded {
                None => {
                    &&& r matches Err(LockfileError::NotFound { path }) && path@ == old(self).spec_lockfile_path()
                    &&& final(self).spec_deps() == old(self).spec_deps()
                },
                Some(Err(message)) => {
                    &&& r matches Err(LockfileError::Invalid { message: m }) && m@ == message@
                    &&& final(self).spec_deps() == old(self).spec_deps()
                },
                Some(Ok(deps)) => r is Ok && final(self).spec_deps() == deps@,
            },
    {
        match loaded {
            None => Err(LockfileError::NotFound { path: self.lockfile_path.clone() }),
            Some(Err(message)) => Err(LockfileError::Invalid { message }),
            Some(Ok(deps)) => {
                self.deps = deps;
                Ok(())
            },
        }
    }
}

impl LockfileError {
    /// The error's message.
    pub open spec fn spec_message(&self) -> Seq<char> {
        match self {
            LockfileError::NotFound { path } => "Lockfile not found at "@ + path@,
            LockfileError::Invalid { message } => message@,
        }
    }

    /// The error's message.
    pub fn message(&self) -> (r: String)
        ensures
            r@ == self.spec_message(),
    {
        match self {
            LockfileError::NotFound { path } => {
                let mut m = "Lockfile not found at ".to_owned();
                m.append(path.as_str());
                m
            },
            LockfileError::Invalid { message } => message.clone(),
        }
    }

    /// Whether a failure to load the lockfile deserves a warning: every
    /// failure does but one whose message reports a missing lockfile.
    pub fn deserves_warning(&self) -> (r: bool)
        ensures
            r == !seq_contains(self.spec_message(), "Lockfile not found"@),
    {
        let m = self.message();
        !str_contains(m.as_str(), "Lockfile not found")
    }
}

/// A missing lockfile never deserves a warning.
pub proof fn lemma_missing_lockfile_goes_unwarned(path: String)
    ensures
        seq_contains(LockfileError::NotFound { path }.spec_message(), "Lockfile not found"@),
{
    reveal_strlit("Lockfile not found at ");
    reveal_strlit("Lockfile not found");
    let m = LockfileError::NotFound { path }.spec_message();
    assert(m.subrange(0int, 0int + "Lockfile not found"@.len()) =~= "Lockfile not found"@);
}

/// What was found of a locked dependency on disk.
pub enum DepObservation {
    /// Its directory does not exist.
    Missing,
    /// Its directory exists but its checked-out revision could not be read.
    RevisionUnavailable,
    /// Its directory exists and has this revision checked out.
    Revision(String),
}

/// A disagreement between the lockfile and the dependencies on disk.
pub enum DepWarning {
    /// The dependency's directory does not exist.
    NotFound { path: String },
    /// The dependency's checked-out revision could not be read.
    RevisionUnavailable { path: String },
    /// The checked-out revision is not the locked one.
    RevisionMismatch { path: String, expected: String, actual: String },
}

/// The warning, if any, that a locked dependency deserves given what was found
/// on disk: none exactly when its directory exists and the locked revision is
/// checked out.
pub fn check_dependency(entry: &LockEntry, observed: &DepObservation) -> (r: Option<DepWarning>)
    ensures
        match observed {
            DepObservation::Missing => r matches Some(DepWarning::NotFound { path }) && path@ == entry.path@,
            DepObservation::RevisionUnavailable => r matches Some(DepWarning::RevisionUnavailable { path }) && path@ == entry.path@,
            DepObservation::Revision(actual) => if actual@ == entry.identifier.spec_rev() {
                r is None
            } else {
                r matches Some(DepWarning::RevisionMismatch { path, expected, actual: a }) && path@ == entry.path@ && expected@
                    == entry.identifier.spec_rev() && a@ == actual@
            },
        },
{
    match observed {
        DepObservation::Missing => Some(DepWarning::NotFound { path: entry.path.clone() }),
        DepObservation::RevisionUnavailable => Some(DepWarning::RevisionUnavailable { path: entry.path.clone() }),
        DepObservation::Revision(actual) => {
            let expected = entry.identifier.rev().clone();
            if *actual == expected {
                None
            } else {
                Some(DepWarning::RevisionMismatch { path: entry.path.clone(), expected, actual: actual.clone() })
            }
        },
    }
}

impl DepWarning {
    /// The warning's message.
    pub open spec fn spec_message(&self) -> Seq<char> {
        match self {
            DepWarning::NotFound { path } => "Dependency '"@ + path@ + "' not found at expected path"@,
            DepWarning::RevisionUnavailable { path } => "Failed to get git revision for dependency '"@ + path@ + "'"@,
            DepWarning::RevisionMismatch { path, expected, actual } => "Dependency '"@ + path@ + "' revision mismatch: expected '"@
                + expected@ + "', found '"@ + actual@ + "'"@,
        }
    }

    /// The warning's message.
    pub fn message(&self) -> (r: String)
        ensures
            r@ == self.spec_message(),
    {
        match self {
            DepWarning::NotFound { path } => {
                let mut m = "Dependency '".to_owned();
                m.append(path.as_str());
                m.append("' not found at expected path");
                m
            },
            DepWarning::RevisionUnavailable { path } => {
                let mut m = "Failed to get git revision for dependency '".to_owned();
                m.append(path.as_str());
                m.append("'");
                m
            },
            DepWarning::RevisionMismatch { path, expected, actual } => {
                let mut m = "Dependency '".to_owned();
                m.append(path.as_str());
                m.append("' revision mismatch: expected '");
                m.append(expected.as_str());
                m.append("', found '");
                m.append(actual.as_str());
                m.append("'");
                m
            },
        }
    }
}

/// The status of a soldeer dependency after its integrity check.
pub enum IntegrityStatus {
    Installed,
    Missing,
    FailedIntegrity,
}

/// A problem found with a soldeer dependency.
pub enum SoldeerWarning {
    /// The dependency is missing or fails its integrity check.
    IntegrityFailed { name: String, status: IntegrityStatus },
    /// The integrity check itself failed; the message says why.
    CheckFailed { name: String, message: String },
}

impl IntegrityStatus {
    /// The status's name.
    pub open spec fn spec_name(&self) -> Seq<char> {
        match self {
            IntegrityStatus::Installed => "Installed"@,
            IntegrityStatus::Missing => "Missing"@,
            IntegrityStatus::FailedIntegrity => "FailedIntegrity"@,
        }
    }

    /// The status's name.
    pub fn name(&self) -> (r: String)
        ensures
            r@ == self.spec_name(),
    {
        match self {
            IntegrityStatus::Installed => "Installed".to_owned(),
            IntegrityStatus::Missing => "Missing".to_owned(),
            IntegrityStatus::FailedIntegrity => "FailedIntegrity".to_owned(),
        }
    }
}

impl SoldeerWarning {
    /// The warning's message.
    pub open spec fn spec_message(&self) -> Seq<char> {
        match self {
            SoldeerWarning::IntegrityFailed { name, status } => "Dependency '"@ + name@ + "' integrity check failed: "@ + status.spec_name(),
            SoldeerWarning::CheckFailed { name, message } => "Dependency '"@ + name@ + "' integrity check error: "@ + message@,
        }
    }

    /// The warning's message.
    pub fn message(&self) -> (r: String)
        ensures
            r@ == self.spec_message(),
    {
        let mut m = "Dependency '".to_owned();
        match self {
            SoldeerWarning::IntegrityFailed { name, status } => {
                m.append(name.as_str());
                m.append("' integrity check failed: ");
                let s = status.name();
                m.append(s.as_str());
            },
            SoldeerWarning::CheckFailed { name, message } => {
                m.append(name.as_str());
                m.append("' integrity check error: ");
                m.append(message.as_str());
            },
        }
        m
    }
}

/// The warning, if any, that a soldeer dependency deserves given the outcome
/// of its integrity check: none exactly when it is installed intact.
pub fn soldeer_warning(name: &str, checked: Result<IntegrityStatus, String>) -> (r: Option<SoldeerWarning>)
    ensures
        match checked {
            Ok(IntegrityStatus::Installed) => r is None,
            Ok(IntegrityStatus::Missing) => r matches Some(SoldeerWarning::IntegrityFailed { name: n, status: IntegrityStatus::Missing }) && n@ == name@,
            Ok(IntegrityStatus::FailedIntegrity) => r matches Some(SoldeerWarning::IntegrityFailed { name: n, status: IntegrityStatus::FailedIntegrity }) && n@ == name@,
            Err(message) => r matches Some(SoldeerWarning::CheckFailed { name: n, message: m }) && n@ == name@ && m@ == message@,
        },
{
    match checked {
        Ok(IntegrityStatus::Installed) => None,
        Ok(status) => Some(SoldeerWarning::IntegrityFailed { name: name.to_owned(), status }),
        Err(message) => Some(SoldeerWarning::CheckFailed { name: name.to_owned(), message }),
    }
}

} // verus!
