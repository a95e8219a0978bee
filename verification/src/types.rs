use vstd::prelude::*;

verus! {

/// Ghost image of a repository record: every field as a mathematical
/// value.
#[verifier::ext_equal]
pub ghost struct RepoView {
    pub id: u32,
    pub name: Seq<char>,
    pub remote_url: Seq<char>,
    pub branch: Seq<char>,
    pub path: Seq<char>,
    pub game_version: Seq<char>,
    pub game_versions: Seq<Seq<char>>,
    pub server: Seq<char>,
    pub server_options: Seq<Seq<char>>,
    pub has_warning: bool,
    pub last_sync_time: Option<Seq<char>>,
}

/// One registered repository. `game_versions` (display labels) and
/// `server_options` (raw identifiers) are index-aligned: the label at a
/// position names the identifier at the same position.
#[derive(Debug)]
pub struct RepositoryInfo {
    pub id: u32,
    pub name: String,
    pub remote_url: String,
    pub branch: String,
    pub path: String,
    pub game_version: String,
    pub game_versions: Vec<String>,
    pub server: String,
    pub server_options: Vec<String>,
    pub has_warning: bool,
    pub last_sync_time: Option<String>,
}

impl View for RepositoryInfo {
    type V = RepoView;

    open spec fn view(&self) -> RepoView {
        RepoView {
            id: self.id,
            name: self.name@,
            remote_url: self.remote_url@,
            branch: self.branch@,
            path: self.path@,
            game_version: self.game_version@,
            game_versions: self.game_versions.deep_view(),
            server: self.server@,
            server_options: self.server_options.deep_view(),
            has_warning: self.has_warning,
            last_sync_time: match self.last_sync_time {
                Some(s) => Some(s@),
                None => None,
            },
        }
    }
}

impl DeepView for RepositoryInfo {
    type V = RepoView;

    open spec fn deep_view(&self) -> RepoView {
        self.view()
    }
}

/// Copy a list of strings.
pub fn clone_strings(v: &Vec<String>) -> (r: Vec<String>)
    ensures
        r@.len() == v@.len(),
        r.deep_view() == v.deep_view(),
{
    let mut r: Vec<String> = Vec::new();
    let n = v.len();
    let mut i: usize = 0;
    while i < n
        invariant
            0 <= i <= n,
            n == v@.len(),
            r@.len() == i,
            forall|k: int| 0 <= k < i ==> r@[k]@ == v@[k]@,
        decreases n - i,
    {
        r.push(v[i].clone());
        i = i + 1;
    }
    proof {
        assert(r.deep_view() =~= v.deep_view());
    }
    r
}

impl Clone for RepositoryInfo {
    /// A field-for-field copy: the copy's view is the original's.
    fn clone(&self) -> (r: Self)
        ensures
            r@ == self@,
    {
        let r = RepositoryInfo {
            id: self.id,
            name: self.name.clone(),
            remote_url: self.remote_url.clone(),
            branch: self.branch.clone(),
            path: self.path.clone(),
            game_version: self.game_version.clone(),
            game_versions: clone_strings(&self.game_versions),
            server: self.server.clone(),
            server_options: clone_strings(&self.server_options),
            has_warning: self.has_warning,
            last_sync_time: match &self.last_sync_time {
                Some(s) => Some(s.clone()),
                None => None,
            },
        };
        r
    }
}

/// One entry of the filtered tag list: the exact tag name (or synthetic
/// branch marker) used for checkout, and its human label.
#[derive(Debug)]
pub struct TagInfo {
    pub original_tag: String,
    pub display_name: String,
}

impl View for TagInfo {
    type V = (Seq<char>, Seq<char>);

    open spec fn view(&self) -> (Seq<char>, Seq<char>) {
        (self.original_tag@, self.display_name@)
    }
}

/// The snapshot handed to the UI layer when the application starts.
pub struct AppInitializeEvent {
    pub repository_datas: Vec<RepositoryInfo>,
    pub auth_token: String,
    pub root_path: String,
    pub app_version: String,
}

/// One progress notification of a running clone.
pub struct CloneProgressEvent {
    pub repo_name: String,
    pub progress: u32,
    pub message: String,
    pub received_bytes: Option<u64>,
    pub total_objects: Option<u32>,
    pub received_objects: Option<u32>,
    pub speed: Option<String>,
}

/// The single completion notification of a clone attempt.
pub struct CloneCompleteEvent {
    pub repo_name: String,
    pub success: bool,
    pub error_message: Option<String>,
}

} // verus!
