use vstd::prelude::*;
use crate::types::RepositoryInfo;

verus! {

/// The persisted application database: the repository list and a few
/// top-level settings, written to disk as one JSON document by the
/// embedding application.
pub struct AppDb {
    pub repository_infos: Vec<RepositoryInfo>,
    pub auth_token: String,
    pub root_path: String,
    pub app_version: String,
}

impl AppDb {
    /// Accept a repository registration; the database itself is not
    /// changed by this call.
    pub fn add_repository(&mut self, repo_url: String, create_folder_name: String) -> (r: Result<
        (),
        String,
    >)
        ensures
            r is Ok,
            *final(self) == *old(self),
    {
        Ok(())
    }

    /// Accept a repository removal; the database itself is not changed by
    /// this call.
    pub fn remove_repository(&mut self, work_dir: String) -> (r: Result<(), String>)
        ensures
            r is Ok,
            *final(self) == *old(self),
    {
        Ok(())
    }
}

} // verus!
