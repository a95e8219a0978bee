use vstd::prelude::*;

pub mod app_db;
pub mod command;
pub mod git;
pub mod progress;
pub mod text;
pub mod types;

use crate::types::RepositoryInfo;

verus! {

/// The process-lifetime state: the configured root path and the shared
/// repository registry. One value of this type is owned by the embedding
/// application and handed to each operation; the application serializes
/// access with a single lock around it.
pub struct AppState {
    pub count: u32,
    pub path_root: String,
    pub local_repositories: Vec<RepositoryInfo>,
}

impl AppState {
    /// A fresh state: no root path, no repositories.
    pub fn new() -> (r: AppState)
        ensures
            r.count == 0,
            r.path_root@ == Seq::<char>::empty(),
            r.local_repositories@.len() == 0,
    {
        AppState { count: 0, path_root: String::new(), local_repositories: Vec::new() }
    }

    /// Bump the interaction counter and report its new value.
    pub fn increase_counter(&mut self) -> (r: u32)
        requires
            old(self).count < u32::MAX,
        ensures
            final(self).count == old(self).count + 1,
            r == final(self).count,
            final(self).path_root == old(self).path_root,
            final(self).local_repositories == old(self).local_repositories,
    {
        self.count = self.count + 1;
        self.count
    }
}

} // verus!
