use vstd::prelude::*;
use vstd::pervasive::VecAdditionalExecFns;
use crate::AppState;
use crate::text::{is_digit, s_len, trim, trim_spec};
use crate::types::{clone_strings, RepositoryInfo, RepoView, TagInfo};

verus! {

/// Largest id in use; 0 for an empty registry.
pub open spec fn max_id(rs: Seq<RepoView>) -> int
    decreases rs.len(),
{
    if rs.len() == 0 {
        0
    } else {
        let m = max_id(rs.drop_last());
        if rs.last().id > m {
            rs.last().id as int
        } else {
            m
        }
    }
}

pub proof fn lemma_max_id(rs: Seq<RepoView>)
    ensures
        0 <= max_id(rs) <= u32::MAX,
        forall|i: int| 0 <= i < rs.len() ==> rs[i].id <= max_id(rs),
    decreases rs.len(),
{
    if rs.len() > 0 {
        lemma_max_id(rs.drop_last());
        assert forall|i: int| 0 <= i < rs.len() implies rs[i].id <= max_id(rs) by {
            if i < rs.len() - 1 {
                assert(rs.drop_last()[i] == rs[i]);
            }
        }
    }
}

/// Some record already uses this remote URL.
pub open spec fn url_taken(rs: Seq<RepoView>, url: Seq<char>) -> bool {
    exists|i: int| 0 <= i < rs.len() && rs[i].remote_url == url
}

/// Index of the first record with this id, or the length if none.
pub open spec fn idx_of(rs: Seq<RepoView>, id: u32) -> int
    decreases rs.len(),
{
    if rs.len() == 0 {
        0
    } else if rs[0].id == id {
        0
    } else {
        1 + idx_of(rs.skip(1), id)
    }
}

pub proof fn lemma_idx_of(rs: Seq<RepoView>, id: u32)
    ensures
        0 <= idx_of(rs, id) <= rs.len(),
        idx_of(rs, id) < rs.len() ==> rs[idx_of(rs, id)].id == id,
        forall|j: int| 0 <= j < idx_of(rs, id) ==> rs[j].id != id,
    decreases rs.len(),
{
    if rs.len() == 0 {
    } else if rs[0].id == id {
    } else {
        lemma_idx_of(rs.skip(1), id);
        assert forall|j: int| 0 <= j < idx_of(rs, id) implies rs[j].id != id by {
            if j > 0 {
                assert(rs.skip(1)[j - 1] == rs[j]);
            }
        }
    }
}

/// A character allowed in a repository name.
pub open spec fn valid_name_char(c: char) -> bool {
    is_digit(c) || (97 <= c as u32 && c as u32 <= 122) || (65 <= c as u32 && c as u32 <= 90)
        || c == '_' || c == '-'
}

/// A valid repository name: non-empty, only letters, digits, underscores
/// and dashes.
pub open spec fn valid_name(s: Seq<char>) -> bool {
    s.len() > 0 && forall|j: int| 0 <= j < s.len() ==> valid_name_char(s[j])
}

/// The display labels of a tag-entry list, in order.
pub open spec fn labels_of(ts: Seq<(String, String)>) -> Seq<Seq<char>> {
    ts.map_values(|e: (String, String)| e.1@)
}

/// The raw identifiers of a tag-entry list, in order.
pub open spec fn raws_of(ts: Seq<(String, String)>) -> Seq<Seq<char>> {
    ts.map_values(|e: (String, String)| e.0@)
}

/// The record a manual registration creates: next id, the given name and
/// URL, default branch, everything else empty.
pub open spec fn added_repo(rs: Seq<RepoView>, url: Seq<char>, name: Seq<char>) -> RepoView {
    RepoView {
        id: (max_id(rs) + 1) as u32,
        name: name,
        remote_url: url,
        branch: "main"@,
        path: Seq::empty(),
        game_version: Seq::empty(),
        game_versions: Seq::empty(),
        server: Seq::empty(),
        server_options: Seq::empty(),
        has_warning: false,
        last_sync_time: None,
    }
}

/// Manual registration: a repeated URL or a whitespace-only name leaves
/// the registry unchanged; otherwise the new record is appended.
pub open spec fn add_spec(rs: Seq<RepoView>, url: Seq<char>, name: Seq<char>) -> Seq<RepoView> {
    if url_taken(rs, url) || trim_spec(name).len() == 0 {
        rs
    } else {
        rs.push(added_repo(rs, url, name))
    }
}

/// Registering the same URL twice changes nothing after the first
/// registration went through: the second call finds the URL taken (or
/// finds it was already taken) and leaves the registry as it was,
/// whatever name it brings.
pub proof fn lemma_add_idempotent(
    rs: Seq<RepoView>,
    url: Seq<char>,
    name1: Seq<char>,
    name2: Seq<char>,
)
    requires
        trim_spec(name1).len() > 0,
    ensures
        add_spec(add_spec(rs, url, name1), url, name2) == add_spec(rs, url, name1),
{
    let t = add_spec(rs, url, name1);
    if url_taken(rs, url) {
        assert(t == rs);
    } else {
        assert(t == rs.push(added_repo(rs, url, name1)));
        assert(t[rs.len() as int].remote_url == url);
        assert(url_taken(t, url));
    }
}

/// Largest id in use in the registry.
fn highest_id(repos: &Vec<RepositoryInfo>) -> (r: u32)
    ensures
        r as int == max_id(repos.deep_view()),
{
    let ghost dv = repos.deep_view();
    let n = repos.len();
    let mut acc: u32 = 0;
    let mut i: usize = 0;
    proof {
        assert(dv.take(0) =~= Seq::<RepoView>::empty());
    }
    while i < n
        invariant
            0 <= i <= n,
            n == repos@.len(),
            dv == repos.deep_view(),
            acc as int == max_id(dv.take(i as int)),
        decreases n - i,
    {
        proof {
            assert(dv.take(i + 1).drop_last() =~= dv.take(i as int));
            assert(dv.take(i + 1).last() == repos@[i as int]@);
        }
        let cur = repos[i].id;
        if cur > acc {
            acc = cur;
        }
        i = i + 1;
    }
    proof {
        assert(dv.take(n as int) =~= dv);
    }
    acc
}

/// Whether some record already uses this remote URL.
fn url_exists(repos: &Vec<RepositoryInfo>, url: &String) -> (r: bool)
    ensures
        r == url_taken(repos.deep_view(), url@),
{
    let n = repos.len();
    let mut i: usize = 0;
    while i < n
        invariant
            0 <= i <= n,
            n == repos@.len(),
            forall|k: int| 0 <= k < i ==> repos.deep_view()[k].remote_url != url@,
        decreases n - i,
    {
        if repos[i].remote_url == *url {
            assert(repos.deep_view()[i as int].remote_url == url@);
            return true;
        }
        i = i + 1;
    }
    false
}

/// Position of the record with this id, if it is registered.
fn find_index(repos: &Vec<RepositoryInfo>, repo_id: u32) -> (r: Option<usize>)
    ensures
        match r {
            Some(i) => i == idx_of(repos.deep_view(), repo_id) && i < repos@.len(),
            None => idx_of(repos.deep_view(), repo_id) == repos@.len(),
        },
{
    proof {
        lemma_idx_of(repos.deep_view(), repo_id);
    }
    let n = repos.len();
    let mut i: usize = 0;
    while i < n
        invariant
            0 <= i <= n,
            n == repos@.len(),
            forall|k: int| 0 <= k < i ==> repos.deep_view()[k].id != repo_id,
            0 <= idx_of(repos.deep_view(), repo_id) <= n,
            idx_of(repos.deep_view(), repo_id) < n ==> repos.deep_view()[idx_of(
                repos.deep_view(),
                repo_id,
            )].id == repo_id,
            forall|j: int| 0 <= j < idx_of(repos.deep_view(), repo_id)
                ==> repos.deep_view()[j].id != repo_id,
        decreases n - i,
    {
        if repos[i].id == repo_id {
            proof {
                let dv = repos.deep_view();
                assert(dv[i as int] == repos@[i as int]@);
                assert(dv[i as int].id == repo_id);
                if idx_of(dv, repo_id) < i {
                    assert(dv[idx_of(dv, repo_id)].id != repo_id);
                    assert(false);
                }
                if idx_of(dv, repo_id) > i {
                    assert(dv[i as int].id != repo_id);
                    assert(false);
                }
            }
            return Some(i);
        }
        i = i + 1;
    }
    None
}

/// Copy the record list.
fn clone_repositories(repos: &Vec<RepositoryInfo>) -> (r: Vec<RepositoryInfo>)
    ensures
        r@.len() == repos@.len(),
        r.deep_view() == repos.deep_view(),
{
    let mut r: Vec<RepositoryInfo> = Vec::new();
    let n = repos.len();
    let mut i: usize = 0;
    while i < n
        invariant
            0 <= i <= n,
            n == repos@.len(),
            r@.len() == i,
            forall|k: int| 0 <= k < i ==> r@[k]@ == repos@[k]@,
        decreases n - i,
    {
        r.push(repos[i].clone());
        i = i + 1;
    }
    proof {
        assert(r.deep_view() =~= repos.deep_view());
    }
    r
}

/// Check a proposed repository name: non-empty, letters, digits,
/// underscores and dashes only.
pub fn validate_repo_name(name: String) -> (r: Result<bool, String>)
    ensures
        name@.len() == 0 ==> (r matches Err(e) && e@ == "Repository name cannot be empty"@),
        name@.len() > 0 && !valid_name(name@) ==> (r matches Err(e) && e@
            == "Repository name can only contain letters, numbers, underscores, and dashes"@),
        valid_name(name@) ==> r == Ok::<bool, String>(true),
{
    let n = s_len(name.as_str());
    if n == 0 {
        return Err(String::from_str("Repository name cannot be empty"));
    }
    let mut i: usize = 0;
    while i < n
        invariant
            0 <= i <= n,
            n == name@.len(),
            forall|k: int| 0 <= k < i ==> valid_name_char(name@[k]),
        decreases n - i,
    {
        let c = name.as_str().get_char(i);
        let u = c as u32;
        let ok = (48 <= u && u <= 57) || (97 <= u && u <= 122) || (65 <= u && u <= 90) || c == '_'
            || c == '-';
        if !ok {
            return Err(
                String::from_str(
                    "Repository name can only contain letters, numbers, underscores, and dashes",
                ),
            );
        }
        i = i + 1;
    }
    Ok(true)
}

/// The configured root path under which repositories are cloned.
pub fn get_root_path(state: &AppState) -> (r: String)
    ensures
        r@ == state.path_root@,
{
    state.path_root.clone()
}

/// Replace the root path and hand it back.
pub fn set_root_path(state: &mut AppState, path: String) -> (r: String)
    ensures
        final(state).path_root@ == path@,
        final(state).local_repositories == old(state).local_repositories,
        final(state).count == old(state).count,
        r@ == path@,
{
    state.path_root = path.clone();
    path
}

/// The registered repositories, as a copy.
pub fn get_repositories(state: &AppState) -> (r: Vec<RepositoryInfo>)
    ensures
        r.deep_view() == state.local_repositories.deep_view(),
{
    clone_repositories(&state.local_repositories)
}

/// Register a repository by hand: assign the next id and append the
/// record, unless the URL is already registered or the name is blank.
/// Returns a copy of the resulting registry, as the caller displays it.
pub fn add_project(state: &mut AppState, remote_url: String, project_name: String) -> (r: Vec<
    RepositoryInfo,
>)
    requires
        max_id(old(state).local_repositories.deep_view()) < u32::MAX,
    ensures
        final(state).local_repositories.deep_view() == add_spec(
            old(state).local_repositories.deep_view(),
            remote_url@,
            project_name@,
        ),
        final(state).path_root == old(state).path_root,
        final(state).count == old(state).count,
        r.deep_view() == final(state).local_repositories.deep_view(),
        !url_taken(old(state).local_repositories.deep_view(), remote_url@) && trim_spec(
            project_name@,
        ).len() > 0 ==> forall|j: int|
            0 <= j < old(state).local_repositories.deep_view().len() ==> old(
                state,
            ).local_repositories.deep_view()[j].id
                < final(state).local_repositories.deep_view().last().id,
{
    proof {
        lemma_max_id(state.local_repositories.deep_view());
    }
    let id_max = highest_id(&state.local_repositories);
    if url_exists(&state.local_repositories, &remote_url) {
        return clone_repositories(&state.local_repositories);
    }
    if s_len(trim(project_name.as_str())) == 0 {
        return clone_repositories(&state.local_repositories);
    }
    let ghost prev = state.local_repositories.deep_view();
    let repo = RepositoryInfo {
        id: id_max + 1,
        name: project_name,
        remote_url,
        branch: String::from_str("main"),
        game_version: String::new(),
        game_versions: Vec::new(),
        path: String::new(),
        server: String::new(),
        server_options: Vec::new(),
        has_warning: false,
        last_sync_time: None,
    };
    state.local_repositories.push(repo);
    proof {
        let url = state.local_repositories@.last().remote_url@;
        let name = state.local_repositories@.last().name@;
        assert(state.local_repositories.deep_view() =~~= prev.push(added_repo(prev, url, name)));
    }
    clone_repositories(&state.local_repositories)
}

/// Relies on chrono's `Local::now` for the wall-clock time, formatted
/// `YYYY-MM-DD HH:MM:SS`; the value depends on the clock and the local
/// timezone, so nothing is promised of it.
#[verifier::external_body]
fn local_timestamp() -> String {
    chrono::Local::now().format("%Y-%m-%d %H:%M:%S").to_string()
}

/// Turn filtered tag entries into their transfer form.
pub fn tag_infos(tags: &Vec<(String, String)>) -> (r: Vec<TagInfo>)
    ensures
        r@.len() == tags@.len(),
        forall|i: int| 0 <= i < tags@.len() ==> r@[i]@ == (tags@[i].0@, tags@[i].1@),
{
    let mut r: Vec<TagInfo> = Vec::new();
    let n = tags.len();
    let mut i: usize = 0;
    while i < n
        invariant
            0 <= i <= n,
            n == tags@.len(),
            r@.len() == i,
            forall|k: int| 0 <= k < i ==> r@[k]@ == (tags@[k].0@, tags@[k].1@),
        decreases n - i,
    {
        let e = &tags[i];
        r.push(TagInfo { original_tag: e.0.clone(), display_name: e.1.clone() });
        i = i + 1;
    }
    r
}

/// The filesystem path of the repository with this id, if registered.
pub fn find_repo_path(state: &AppState, repo_id: u32) -> (r: Option<String>)
    ensures
        ({
            let rs = state.local_repositories.deep_view();
            match r {
                Some(p) => idx_of(rs, repo_id) < rs.len() && p@ == rs[idx_of(rs, repo_id)].path,
                None => idx_of(rs, repo_id) == rs.len(),
            }
        }),
{
    match find_index(&state.local_repositories, repo_id) {
        Some(i) => Some(state.local_repositories[i].path.clone()),
        None => None,
    }
}

/// The display labels of a tag-entry list, as owned strings.
fn labels_vec(tags: &Vec<(String, String)>) -> (r: Vec<String>)
    ensures
        r.deep_view() == labels_of(tags@),
{
    let mut r: Vec<String> = Vec::new();
    let n = tags.len();
    let mut i: usize = 0;
    while i < n
        invariant
            0 <= i <= n,
            n == tags@.len(),
            r@.len() == i,
            forall|k: int| 0 <= k < i ==> r@[k]@ == tags@[k].1@,
        decreases n - i,
    {
        r.push(tags[i].1.clone());
        i = i + 1;
    }
    proof {
        assert(r.deep_view() =~= labels_of(tags@));
    }
    r
}

/// The raw identifiers of a tag-entry list, as owned strings.
fn raws_vec(tags: &Vec<(String, String)>) -> (r: Vec<String>)
    ensures
        r.deep_view() == raws_of(tags@),
{
    let mut r: Vec<String> = Vec::new();
    let n = tags.len();
    let mut i: usize = 0;
    while i < n
        invariant
            0 <= i <= n,
            n == tags@.len(),
            r@.len() == i,
            forall|k: int| 0 <= k < i ==> r@[k]@ == tags@[k].0@,
        decreases n - i,
    {
        r.push(tags[i].0.clone());
        i = i + 1;
    }
    proof {
        assert(r.deep_view() =~= raws_of(tags@));
    }
    r
}

/// The current version: the first display label, empty when there is none.
pub open spec fn current_of(ts: Seq<(String, String)>) -> Seq<char> {
    if ts.len() > 0 {
        ts[0].1@
    } else {
        Seq::empty()
    }
}

/// The first display label, empty when there is none.
fn current_label(tags: &Vec<(String, String)>) -> (r: String)
    ensures
        r@ == current_of(tags@),
{
    if tags.len() > 0 {
        tags[0].1.clone()
    } else {
        String::new()
    }
}

/// A record after a refresh: only the version fields and the sync time
/// change.
pub open spec fn refreshed_repo(
    r: RepoView,
    labels: Seq<Seq<char>>,
    raws: Seq<Seq<char>>,
    current: Seq<char>,
    time: Seq<char>,
) -> RepoView {
    RepoView {
        game_versions: labels,
        server_options: raws,
        game_version: current,
        last_sync_time: Some(time),
        ..r
    }
}

/// Re-read version information for a repository: replace its display
/// labels, raw identifiers and current version with the given filtered
/// tags and stamp the sync time; identity fields never change. Fails
/// exactly when no record has the id.
pub fn refresh_repository_at(
    state: &mut AppState,
    repo_id: u32,
    tags: &Vec<(String, String)>,
    sync_time: String,
) -> (r: Result<RepositoryInfo, String>)
    ensures
        ({
            let rs = old(state).local_repositories.deep_view();
            let idx = idx_of(rs, repo_id);
            &&& idx >= rs.len() ==> (r matches Err(e) && e@ == "Repository not found"@ && final(state).local_repositories.deep_view() == rs)
            &&& idx < rs.len() ==> ({
                let updated = refreshed_repo(
                    rs[idx],
                    labels_of(tags@),
                    raws_of(tags@),
                    current_of(tags@),
                    sync_time@,
                );
                &&& final(state).local_repositories.deep_view() == rs.update(idx, updated)
                &&& r matches Ok(rec) && rec@ == updated
            })
            &&& final(state).path_root == old(state).path_root
            &&& final(state).count == old(state).count
        }),
{
    match find_index(&state.local_repositories, repo_id) {
        None => Err(String::from_str("Repository not found")),
        Some(i) => {
            let labels = labels_vec(tags);
            let raws = raws_vec(tags);
            let current = current_label(tags);
            let prev_rec = &state.local_repositories[i];
            let updated = RepositoryInfo {
                id: prev_rec.id,
                name: prev_rec.name.clone(),
                remote_url: prev_rec.remote_url.clone(),
                branch: prev_rec.branch.clone(),
                path: prev_rec.path.clone(),
                game_version: current,
                game_versions: labels,
                server: prev_rec.server.clone(),
                server_options: raws,
                has_warning: prev_rec.has_warning,
                last_sync_time: Some(sync_time),
            };
            let out = updated.clone();
            let ghost rs = state.local_repositories.deep_view();
            state.local_repositories.set(i, updated);
            proof {
                assert(state.local_repositories.deep_view() =~~= rs.update(
                    i as int,
                    refreshed_repo(
                        rs[i as int],
                        labels_of(tags@),
                        raws_of(tags@),
                        current_of(tags@),
                        out@.last_sync_time.unwrap(),
                    ),
                ));
            }
            Ok(out)
        },
    }
}

/// Re-read version information for a repository, stamping the present
/// wall-clock time: as `refresh_repository_at`, with a sync time the
/// clock chose.
pub fn refresh_repository(state: &mut AppState, repo_id: u32, tags: &Vec<(String, String)>) -> (r:
    Result<RepositoryInfo, String>)
    ensures
        ({
            let rs = old(state).local_repositories.deep_view();
            let idx = idx_of(rs, repo_id);
            let nv = final(state).local_repositories.deep_view();
            &&& idx >= rs.len() ==> (r matches Err(e) && e@ == "Repository not found"@ && nv == rs)
            &&& idx < rs.len() ==> ({
                &&& nv.len() == rs.len()
                &&& forall|j: int| 0 <= j < rs.len() && j != idx ==> nv[j] == rs[j]
                &&& nv[idx].game_versions == labels_of(tags@)
                &&& nv[idx].server_options == raws_of(tags@)
                &&& nv[idx].game_version == current_of(tags@)
                &&& nv[idx].last_sync_time is Some
                &&& nv[idx].id == rs[idx].id
                &&& nv[idx].name == rs[idx].name
                &&& nv[idx].remote_url == rs[idx].remote_url
                &&& nv[idx].branch == rs[idx].branch
                &&& nv[idx].path == rs[idx].path
                &&& nv[idx].server == rs[idx].server
                &&& nv[idx].has_warning == rs[idx].has_warning
                &&& r matches Ok(rec) && rec@ == nv[idx]
            })
            &&& final(state).path_root == old(state).path_root
            &&& final(state).count == old(state).count
        }),
{
    let now = local_timestamp();
    let ghost rs = state.local_repositories.deep_view();
    let ghost nowv = now@;
    let r = refresh_repository_at(state, repo_id, tags, now);
    proof {
        lemma_idx_of(rs, repo_id);
        let idx = idx_of(rs, repo_id);
        if idx < rs.len() {
            let updated = refreshed_repo(
                rs[idx],
                labels_of(tags@),
                raws_of(tags@),
                current_of(tags@),
                nowv,
            );
            assert(state.local_repositories.deep_view() == rs.update(idx, updated));
            assert(state.local_repositories.deep_view()[idx] == updated);
        }
    }
    r
}

/// Index of the first entry equal to `x`, or the length if none.
pub open spec fn seq_index_of(ss: Seq<Seq<char>>, x: Seq<char>) -> int
    decreases ss.len(),
{
    if ss.len() == 0 {
        0
    } else if ss[0] == x {
        0
    } else {
        1 + seq_index_of(ss.skip(1), x)
    }
}

pub proof fn lemma_seq_index_of(ss: Seq<Seq<char>>, x: Seq<char>)
    ensures
        0 <= seq_index_of(ss, x) <= ss.len(),
        seq_index_of(ss, x) < ss.len() ==> ss[seq_index_of(ss, x)] == x,
        forall|j: int| 0 <= j < seq_index_of(ss, x) ==> ss[j] != x,
    decreases ss.len(),
{
    if ss.len() == 0 {
    } else if ss[0] == x {
    } else {
        lemma_seq_index_of(ss.skip(1), x);
        assert forall|j: int| 0 <= j < seq_index_of(ss, x) implies ss[j] != x by {
            if j > 0 {
                assert(ss.skip(1)[j - 1] == ss[j]);
            }
        }
    }
}

/// Position of the first string equal to `x`, if any.
fn position_of(options: &Vec<String>, x: &String) -> (r: Option<usize>)
    ensures
        match r {
            Some(k) => k == seq_index_of(options.deep_view(), x@) && k < options@.len(),
            None => seq_index_of(options.deep_view(), x@) == options@.len(),
        },
{
    proof {
        lemma_seq_index_of(options.deep_view(), x@);
    }
    let n = options.len();
    let mut k: usize = 0;
    while k < n
        invariant
            0 <= k <= n,
            n == options@.len(),
            forall|j: int| 0 <= j < k ==> options.deep_view()[j] != x@,
            0 <= seq_index_of(options.deep_view(), x@) <= n,
            seq_index_of(options.deep_view(), x@) < n ==> options.deep_view()[seq_index_of(
                options.deep_view(),
                x@,
            )] == x@,
            forall|j: int| 0 <= j < seq_index_of(options.deep_view(), x@)
                ==> options.deep_view()[j] != x@,
        decreases n - k,
    {
        if options[k] == *x {
            proof {
                let dv = options.deep_view();
                assert(dv[k as int] == options@[k as int]@);
                if seq_index_of(dv, x@) < k {
                    assert(dv[seq_index_of(dv, x@)] != x@);
                    assert(false);
                }
                if seq_index_of(dv, x@) > k {
                    assert(dv[k as int] != x@);
                    assert(false);
                }
            }
            return Some(k);
        }
        proof {
            assert(options.deep_view()[k as int] == options@[k as int]@);
        }
        k = k + 1;
    }
    None
}

/// A record after a checkout: when the raw identifier is among its
/// options and a label stands at the same position, the current version
/// becomes that label; otherwise nothing changes.
pub open spec fn version_changed(r: RepoView, tag: Seq<char>) -> RepoView {
    let k = seq_index_of(r.server_options, tag);
    if k < r.server_options.len() && k < r.game_versions.len() {
        RepoView { game_version: r.game_versions[k], ..r }
    } else {
        r
    }
}

/// Record that the working tree now stands at `tag`: the current version
/// label becomes the label aligned with that identifier. Fails exactly
/// when no record has the id; an identifier that is not among the
/// record's options leaves the record as it was.
pub fn change_version(state: &mut AppState, repo_id: u32, tag: String) -> (r: Result<
    RepositoryInfo,
    String,
>)
    ensures
        ({
            let rs = old(state).local_repositories.deep_view();
            let idx = idx_of(rs, repo_id);
            &&& idx >= rs.len() ==> (r matches Err(e) && e@ == "Repository not found"@ && final(state).local_repositories.deep_view() == rs)
            &&& idx < rs.len() ==> ({
                let updated = version_changed(rs[idx], tag@);
                &&& final(state).local_repositories.deep_view() == rs.update(idx, updated)
                &&& r matches Ok(rec) && rec@ == updated
            })
            &&& final(state).path_root == old(state).path_root
            &&& final(state).count == old(state).count
        }),
{
    match find_index(&state.local_repositories, repo_id) {
        None => Err(String::from_str("Repository not found")),
        Some(i) => {
            let ghost rs = state.local_repositories.deep_view();
            let rec = &state.local_repositories[i];
            proof {
                assert(rs[i as int] == state.local_repositories@[i as int]@);
                assert(rs[i as int].server_options == rec.server_options.deep_view());
            }
            let found = position_of(&rec.server_options, &tag);
            let updated = match found {
                Some(pos) => {
                    if pos < rec.game_versions.len() {
                        let mut u = rec.clone();
                        u.game_version = rec.game_versions[pos].clone();
                        u
                    } else {
                        rec.clone()
                    }
                },
                None => rec.clone(),
            };
            let out = updated.clone();
            state.local_repositories.set(i, updated);
            proof {
                assert(state.local_repositories.deep_view() =~~= rs.update(
                    i as int,
                    version_changed(rs[i as int], tag@),
                ));
            }
            Ok(out)
        },
    }
}

/// The registry without the records bearing this id.
pub open spec fn remove_id(rs: Seq<RepoView>, id: u32) -> Seq<RepoView>
    decreases rs.len(),
{
    if rs.len() == 0 {
        rs
    } else if rs[0].id == id {
        remove_id(rs.skip(1), id)
    } else {
        seq![rs[0]] + remove_id(rs.skip(1), id)
    }
}

/// Drop a repository from the registry. Fails exactly when no record has
/// the id; otherwise every record with the id is removed and the rest
/// keep their order. The on-disk directory is the caller's concern: its
/// absence or survival never blocks removal from the registry.
pub fn delete_repository(state: &mut AppState, repo_id: u32) -> (r: Result<bool, String>)
    ensures
        ({
            let rs = old(state).local_repositories.deep_view();
            let idx = idx_of(rs, repo_id);
            &&& idx >= rs.len() ==> (r matches Err(e) && e@ == "Repository not found"@ && final(state).local_repositories.deep_view() == rs)
            &&& idx < rs.len() ==> (r == Ok::<bool, String>(true) && final(state).local_repositories.deep_view() == remove_id(rs, repo_id))
            &&& final(state).path_root == old(state).path_root
            &&& final(state).count == old(state).count
        }),
{
    match find_index(&state.local_repositories, repo_id) {
        None => Err(String::from_str("Repository not found")),
        Some(_) => {
            let ghost rs = state.local_repositories.deep_view();
            let mut kept: Vec<RepositoryInfo> = Vec::new();
            let n = state.local_repositories.len();
            let mut j: usize = 0;
            proof {
                assert(rs.skip(0) =~= rs);
                assert(kept.deep_view() + remove_id(rs, repo_id) =~= remove_id(rs, repo_id));
            }
            while j < n
                invariant
                    0 <= j <= n,
                    n == state.local_repositories@.len(),
                    rs == state.local_repositories.deep_view(),
                    remove_id(rs, repo_id) == kept.deep_view() + remove_id(
                        rs.skip(j as int),
                        repo_id,
                    ),
                decreases n - j,
            {
                let ghost rest = rs.skip(j as int);
                proof {
                    assert(rest[0] == rs[j as int]);
                    assert(rest.skip(1) =~= rs.skip(j + 1));
                }
                let rec = &state.local_repositories[j];
                if rec.id != repo_id {
                    let ghost prev = kept.deep_view();
                    kept.push(rec.clone());
                    proof {
                        assert(kept.deep_view() =~= prev.push(rs[j as int]));
                    }
                }
                j = j + 1;
            }
            proof {
                assert(rs.skip(n as int) =~= Seq::<RepoView>::empty());
                assert(kept.deep_view() + remove_id(rs.skip(n as int), repo_id) =~= kept.deep_view());
            }
            state.local_repositories = kept;
            Ok(true)
        },
    }
}

/// The record a finished clone registers.
pub open spec fn cloned_repo(
    rs: Seq<RepoView>,
    name: Seq<char>,
    url: Seq<char>,
    branch: Seq<char>,
    path: Seq<char>,
    ts: Seq<(String, String)>,
    time: Seq<char>,
) -> RepoView {
    RepoView {
        id: (max_id(rs) + 1) as u32,
        name: name,
        remote_url: url,
        branch: branch,
        path: path,
        game_version: current_of(ts),
        game_versions: labels_of(ts),
        server: Seq::empty(),
        server_options: raws_of(ts),
        has_warning: false,
        last_sync_time: Some(time),
    }
}

/// The two paths a clone uses, derived from the root path and the
/// repository name: the final location `root/name` and the temporary
/// checkout `root/.tmp_name`. Fails exactly on a missing root path or an
/// invalid name.
#[verifier::loop_isolation(false)]
pub fn clone_paths(root_path: &str, project_name: &str) -> (r: Result<(String, String), String>)
    ensures
        root_path@.len() == 0 ==> (r matches Err(e) && e@
            == "Root path is not set. Please set it in Settings."@),
        root_path@.len() > 0 && !valid_name(project_name@) ==> (r matches Err(e) && e@
            == "Invalid repository name"@),
        root_path@.len() > 0 && valid_name(project_name@) ==> (r matches Ok(p) && p.0@
            == root_path@ + "/"@ + project_name@ && p.1@ == root_path@ + "/.tmp_"@
            + project_name@),
{
    let n = s_len(root_path);
    if n == 0 {
        return Err(String::from_str("Root path is not set. Please set it in Settings."));
    }
    let name_len = s_len(project_name);
    if name_len == 0 {
        return Err(String::from_str("Invalid repository name"));
    }
    let mut i: usize = 0;
    while i < name_len
        invariant
            0 <= i <= name_len,
            name_len == project_name@.len(),
            forall|k: int| 0 <= k < i ==> valid_name_char(project_name@[k]),
        decreases name_len - i,
    {
        let c = project_name.get_char(i);
        let u = c as u32;
        let ok = (48 <= u && u <= 57) || (97 <= u && u <= 122) || (65 <= u && u <= 90) || c == '_'
            || c == '-';
        if !ok {
            return Err(String::from_str("Invalid repository name"));
        }
        i = i + 1;
    }
    let mut final_path = root_path.to_owned();
    final_path.append("/");
    final_path.append(project_name);
    let mut temp_path = root_path.to_owned();
    temp_path.append("/.tmp_");
    temp_path.append(project_name);
    Ok((final_path, temp_path))
}

/// Enter the record of a finished clone with the given sync time: the
/// next id is assigned and the record appended with the clone's branch,
/// final path and filtered tags.
pub fn register_clone_at(
    state: &mut AppState,
    project_name: String,
    remote_url: String,
    branch: String,
    final_path: String,
    tags: &Vec<(String, String)>,
    sync_time: String,
) -> (r: RepositoryInfo)
    requires
        max_id(old(state).local_repositories.deep_view()) < u32::MAX,
    ensures
        ({
            let rs = old(state).local_repositories.deep_view();
            let added = cloned_repo(
                rs,
                project_name@,
                remote_url@,
                branch@,
                final_path@,
                tags@,
                sync_time@,
            );
            &&& final(state).local_repositories.deep_view() == rs.push(added)
            &&& r@ == added
            &&& forall|j: int| 0 <= j < rs.len() ==> rs[j].id < added.id
            &&& final(state).path_root == old(state).path_root
            &&& final(state).count == old(state).count
        }),
{
    proof {
        lemma_max_id(state.local_repositories.deep_view());
    }
    let id_max = highest_id(&state.local_repositories);
    let labels = labels_vec(tags);
    let raws = raws_vec(tags);
    let current = current_label(tags);
    let ghost rs = state.local_repositories.deep_view();
    let repo = RepositoryInfo {
        id: id_max + 1,
        name: project_name,
        remote_url,
        branch,
        path: final_path,
        game_version: current,
        game_versions: labels,
        server: String::new(),
        server_options: raws,
        has_warning: false,
        last_sync_time: Some(sync_time),
    };
    let out = repo.clone();
    state.local_repositories.push(repo);
    proof {
        assert(state.local_repositories.deep_view() =~~= rs.push(out@));
    }
    out
}

/// Enter the record of a finished clone, stamping the present wall-clock
/// time: as `register_clone_at`, with a sync time the clock chose.
pub fn register_clone(
    state: &mut AppState,
    project_name: String,
    remote_url: String,
    branch: String,
    final_path: String,
    tags: &Vec<(String, String)>,
) -> (r: RepositoryInfo)
    requires
        max_id(old(state).local_repositories.deep_view()) < u32::MAX,
    ensures
        ({
            let rs = old(state).local_repositories.deep_view();
            let nv = final(state).local_repositories.deep_view();
            &&& nv.len() == rs.len() + 1
            &&& forall|j: int| 0 <= j < rs.len() ==> nv[j] == rs[j]
            &&& nv.last().id == max_id(rs) + 1
            &&& nv.last().name == project_name@
            &&& nv.last().remote_url == remote_url@
            &&& nv.last().branch == branch@
            &&& nv.last().path == final_path@
            &&& nv.last().game_version == current_of(tags@)
            &&& nv.last().game_versions == labels_of(tags@)
            &&& nv.last().server_options == raws_of(tags@)
            &&& nv.last().server == Seq::<char>::empty()
            &&& nv.last().has_warning == false
            &&& nv.last().last_sync_time is Some
            &&& r@ == nv.last()
            &&& final(state).path_root == old(state).path_root
            &&& final(state).count == old(state).count
        }),
{
    let now = local_timestamp();
    register_clone_at(state, project_name, remote_url, branch, final_path, tags, now)
}

} // verus!
