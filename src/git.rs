//! Choosing the version-control mode and the starting directory.
use vstd::prelude::*;

verus! {

/// Which version-control file set restricts the tree.
#[derive(PartialEq, Eq, Structural, Debug, Clone, Copy)]
pub enum GitMode {
    /// Files the repository holds.
    Versioned,
    /// Files in the working directory the repository does not hold.
    Unversioned,
    /// Files with changes in the index.
    Staged,
    /// Files with changes in the working directory not yet in the index.
    Changed,
    /// Commit history; restricts no file set.
    History,
}

/// The version-control flags of one invocation: five modes, each from the given
/// path or from the repository root.
#[derive(PartialEq, Eq, Structural, Debug, Clone, Copy, Default)]
pub struct GitFlags {
    pub versioned: bool,
    pub unversioned: bool,
    pub staged: bool,
    pub changed: bool,
    pub history: bool,
    pub versioned_root: bool,
    pub unversioned_root: bool,
    pub staged_root: bool,
    pub changed_root: bool,
    pub history_root: bool,
}

/// The mode in force: changed over staged over unversioned over versioned over history.
pub open spec fn chosen_mode(f: GitFlags) -> Option<GitMode> {
    if f.changed || f.changed_root {
        Some(GitMode::Changed)
    } else if f.staged || f.staged_root {
        Some(GitMode::Staged)
    } else if f.unversioned || f.unversioned_root {
        Some(GitMode::Unversioned)
    } else if f.versioned || f.versioned_root {
        Some(GitMode::Versioned)
    } else if f.history || f.history_root {
        Some(GitMode::History)
    } else {
        None
    }
}

/// Picks one mode from the flags by fixed priority.
pub fn select_git_mode(f: &GitFlags) -> (r: Option<GitMode>)
    ensures
        r == chosen_mode(*f),
        (f.changed || f.changed_root) ==> r == Some(GitMode::Changed),
{
    if f.changed || f.changed_root {
        Some(GitMode::Changed)
    } else if f.staged || f.staged_root {
        Some(GitMode::Staged)
    } else if f.unversioned || f.unversioned_root {
        Some(GitMode::Unversioned)
    } else if f.versioned || f.versioned_root {
        Some(GitMode::Versioned)
    } else if f.history || f.history_root {
        Some(GitMode::History)
    } else {
        None
    }
}

/// Whether any root variant was asked for: the traversal then starts at the repository's top.
pub fn uses_git_root(f: &GitFlags) -> (r: bool)
    ensures
        r == (f.versioned_root || f.unversioned_root || f.staged_root || f.changed_root || f.history_root),
{
    f.versioned_root || f.unversioned_root || f.staged_root || f.changed_root || f.history_root
}

/// Whether the mode restricts the tree to a file set; history does not.
pub fn wants_file_set(m: GitMode) -> (r: bool)
    ensures
        r == (m != GitMode::History),
{
    match m {
        GitMode::History => false,
        _ => true,
    }
}

/// Why a traversal cannot start.
#[derive(PartialEq, Eq, Structural, Debug, Clone, Copy)]
pub enum GitError {
    /// A version-control mode was asked for outside any repository.
    NotARepository,
}

/// Where the traversal starts. `repo` is what discovery from `path` found:
/// `None` outside any repository, else the repository's working directory if it has one.
pub fn resolve_start(mode: Option<GitMode>, use_root: bool, path: String, repo: Option<Option<String>>) -> (r: Result<String, GitError>)
    ensures
        (mode is Some || use_root) && repo is None ==> r == Err::<String, GitError>(GitError::NotARepository),
        r is Ok <==> (repo is Some || (mode is None && !use_root)),
        r is Ok && use_root && repo.unwrap() is Some ==> r.unwrap()@ == repo.unwrap().unwrap()@,
        r is Ok && !(use_root && repo.unwrap() is Some) ==> r.unwrap()@ == path@,
{
    match repo {
        None => {
            if mode.is_some() || use_root {
                Err(GitError::NotARepository)
            } else {
                Ok(path)
            }
        },
        Some(workdir) => {
            if use_root {
                match workdir {
                    Some(w) => Ok(w),
                    None => Ok(path),
                }
            } else {
                Ok(path)
            }
        },
    }
}

} // verus!
