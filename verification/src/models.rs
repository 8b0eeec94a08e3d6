//! Values shared by the timeline, the git side and the session sync.
use vstd::prelude::*;

verus! {

/// The view of an optional string.
pub open spec fn opt_text(o: Option<String>) -> Option<Seq<char>> {
    match o {
        Some(s) => Some(s@),
        None => None,
    }
}

/// A copy of an optional string.
pub fn clone_opt(o: &Option<String>) -> (res: Option<String>)
    ensures
        opt_text(res) == opt_text(*o),
{
    match o {
        Some(s) => Some(s.clone()),
        None => None,
    }
}

/// Counts of one sync run.
#[derive(Debug, Clone, PartialEq, Eq)]
pub struct SyncStats {
    pub new_sessions: u32,
    pub updated_sessions: u32,
}

/// A git commit as the timeline shows it.
#[derive(Debug, Clone, PartialEq, Eq)]
pub struct Commit {
    pub hash: String,
    pub message: String,
    pub author: Option<String>,
    pub committed_at_ms: i64,
    pub project_name: Option<String>,
}

pub struct CommitView {
    pub hash: Seq<char>,
    pub message: Seq<char>,
    pub author: Option<Seq<char>>,
    pub committed_at_ms: i64,
    pub project_name: Option<Seq<char>>,
}

impl View for Commit {
    type V = CommitView;

    open spec fn view(&self) -> CommitView {
        CommitView {
            hash: self.hash@,
            message: self.message@,
            author: opt_text(self.author),
            committed_at_ms: self.committed_at_ms,
            project_name: opt_text(self.project_name),
        }
    }
}

/// The views of a sequence of commits.
pub open spec fn commits_view(v: Seq<Commit>) -> Seq<CommitView> {
    v.map_values(|c: Commit| c@)
}

} // verus!
