use repo_manager::app_db::AppDb;
use repo_manager::command::{
    add_project, change_version, clone_paths, delete_repository, find_repo_path,
    get_repositories, get_root_path, refresh_repository, refresh_repository_at,
    register_clone_at, set_root_path, tag_infos, validate_repo_name,
};
use repo_manager::types::RepositoryInfo;
use repo_manager::AppState;

fn record(id: u32, name: &str, url: &str, path: &str) -> RepositoryInfo {
    RepositoryInfo {
        id,
        name: String::from(name),
        remote_url: String::from(url),
        branch: String::from("main"),
        path: String::from(path),
        game_version: String::new(),
        game_versions: Vec::new(),
        server: String::new(),
        server_options: Vec::new(),
        has_warning: false,
        last_sync_time: None,
    }
}

#[test]
fn validate_repo_name_accepts_the_allowed_alphabet() {
    assert_eq!(validate_repo_name(String::from("abc_-123")), Ok(true));
    assert_eq!(
        validate_repo_name(String::new()),
        Err(String::from("Repository name cannot be empty"))
    );
    assert_eq!(
        validate_repo_name(String::from("bad name!")),
        Err(String::from(
            "Repository name can only contain letters, numbers, underscores, and dashes"
        ))
    );
}

#[test]
fn root_path_round_trips() {
    let mut state = AppState::new();
    assert_eq!(get_root_path(&state), String::new());
    let back = set_root_path(&mut state, String::from("/srv/repos"));
    assert_eq!(back, String::from("/srv/repos"));
    assert_eq!(get_root_path(&state), String::from("/srv/repos"));
}

#[test]
fn add_project_assigns_increasing_ids() {
    let mut state = AppState::new();
    let after = add_project(&mut state, String::from("u1"), String::from("one"));
    assert_eq!(after.len(), 1);
    assert_eq!(after[0].id, 1);
    assert_eq!(after[0].name, "one");
    assert_eq!(after[0].remote_url, "u1");
    assert_eq!(after[0].branch, "main");
    assert_eq!(after[0].path, "");
    let after = add_project(&mut state, String::from("u2"), String::from("two"));
    assert_eq!(after.len(), 2);
    assert_eq!(after[1].id, 2);
}

#[test]
fn add_project_is_idempotent_on_the_url() {
    let mut state = AppState::new();
    add_project(&mut state, String::from("git@host:r.git"), String::from("one"));
    let again = add_project(&mut state, String::from("git@host:r.git"), String::from("other"));
    assert_eq!(again.len(), 1);
    assert_eq!(again[0].name, "one");
    assert_eq!(state.local_repositories.len(), 1);
}

#[test]
fn add_project_rejects_a_blank_name() {
    let mut state = AppState::new();
    let after = add_project(&mut state, String::from("u1"), String::from("   "));
    assert!(after.is_empty());
    assert!(state.local_repositories.is_empty());
}

#[test]
fn ids_never_reuse_a_living_maximum() {
    let mut state = AppState::new();
    add_project(&mut state, String::from("u1"), String::from("one"));
    add_project(&mut state, String::from("u2"), String::from("two"));
    delete_repository(&mut state, 1).unwrap();
    let after = add_project(&mut state, String::from("u3"), String::from("three"));
    assert_eq!(after[1].id, 3);
}

#[test]
fn refresh_replaces_the_version_fields_only() {
    let mut state = AppState::new();
    state.local_repositories.push(record(7, "one", "u1", "/p/one"));
    let tags = vec![
        (String::from("BRANCH:dev"), String::from("dev-latest")),
        (String::from("v1.2.0-dev"), String::from("dev-1.2.0")),
    ];
    let rec = refresh_repository_at(&mut state, 7, &tags, String::from("2024-01-02 03:04:05"))
        .expect("the record exists");
    assert_eq!(rec.id, 7);
    assert_eq!(rec.name, "one");
    assert_eq!(rec.path, "/p/one");
    assert_eq!(rec.game_version, "dev-latest");
    assert_eq!(
        rec.game_versions,
        vec![String::from("dev-latest"), String::from("dev-1.2.0")]
    );
    assert_eq!(
        rec.server_options,
        vec![String::from("BRANCH:dev"), String::from("v1.2.0-dev")]
    );
    assert_eq!(rec.last_sync_time, Some(String::from("2024-01-02 03:04:05")));
    assert_eq!(state.local_repositories[0].game_version, "dev-latest");
}

#[test]
fn refresh_stamps_a_wall_clock_sync_time() {
    let mut state = AppState::new();
    state.local_repositories.push(record(4, "one", "u1", "/p/one"));
    let tags = vec![(String::from("v1-dev"), String::from("dev-1"))];
    let rec = refresh_repository(&mut state, 4, &tags).expect("the record exists");
    let stamp = rec.last_sync_time.expect("a refresh stamps the time");
    // the clock chose the value; the shape is YYYY-MM-DD HH:MM:SS
    assert_eq!(stamp.len(), 19);
    assert_eq!(&stamp[4..5], "-");
    assert_eq!(&stamp[10..11], " ");
}

#[test]
fn refresh_of_an_unknown_id_fails() {
    let mut state = AppState::new();
    let tags = Vec::new();
    assert_eq!(
        refresh_repository_at(&mut state, 9, &tags, String::from("t"))
            .expect_err("nothing is registered"),
        String::from("Repository not found")
    );
}

#[test]
fn change_version_selects_the_aligned_label() {
    let mut state = AppState::new();
    let mut rec = record(3, "one", "u1", "/p/one");
    rec.server_options = vec![String::from("BRANCH:dev"), String::from("v1-dev")];
    rec.game_versions = vec![String::from("dev-latest"), String::from("dev-1")];
    state.local_repositories.push(rec);
    let out = change_version(&mut state, 3, String::from("v1-dev")).unwrap();
    assert_eq!(out.game_version, "dev-1");
    assert_eq!(state.local_repositories[0].game_version, "dev-1");
    let out = change_version(&mut state, 3, String::from("unknown-tag")).unwrap();
    assert_eq!(out.game_version, "dev-1");
    assert_eq!(
        change_version(&mut state, 4, String::from("v1-dev")).expect_err("no such id"),
        String::from("Repository not found")
    );
}

#[test]
fn delete_removes_the_record_even_without_a_directory() {
    let mut state = AppState::new();
    state
        .local_repositories
        .push(record(1, "gone", "u1", "/path/that/was/already/removed"));
    state.local_repositories.push(record(2, "kept", "u2", "/p/kept"));
    assert_eq!(delete_repository(&mut state, 1), Ok(true));
    assert_eq!(state.local_repositories.len(), 1);
    assert_eq!(state.local_repositories[0].id, 2);
    assert_eq!(
        delete_repository(&mut state, 1).expect_err("already gone"),
        String::from("Repository not found")
    );
}

#[test]
fn find_repo_path_reads_the_stored_path() {
    let mut state = AppState::new();
    state.local_repositories.push(record(5, "one", "u1", "/p/one"));
    assert_eq!(find_repo_path(&state, 5), Some(String::from("/p/one")));
    assert_eq!(find_repo_path(&state, 6), None);
}

#[test]
fn clone_paths_builds_final_and_temporary_locations() {
    assert_eq!(
        clone_paths("/srv/repos", "proj"),
        Ok((String::from("/srv/repos/proj"), String::from("/srv/repos/.tmp_proj")))
    );
    assert_eq!(
        clone_paths("", "proj").expect_err("no root"),
        String::from("Root path is not set. Please set it in Settings.")
    );
    assert_eq!(
        clone_paths("/srv/repos", "bad name").expect_err("invalid name"),
        String::from("Invalid repository name")
    );
    assert_eq!(
        clone_paths("/srv/repos", "").expect_err("empty name"),
        String::from("Invalid repository name")
    );
}

#[test]
fn register_clone_fills_the_record_from_the_tags() {
    let mut state = AppState::new();
    add_project(&mut state, String::from("u0"), String::from("zero"));
    let tags = vec![
        (String::from("v2-dev"), String::from("dev-2")),
        (String::from("v1-qa"), String::from("qa-1")),
    ];
    let rec = register_clone_at(
        &mut state,
        String::from("proj"),
        String::from("git@host:p.git"),
        String::from("main"),
        String::from("/srv/repos/proj"),
        &tags,
        String::from("2024-05-06 07:08:09"),
    );
    assert_eq!(rec.id, 2);
    assert_eq!(rec.name, "proj");
    assert_eq!(rec.path, "/srv/repos/proj");
    assert_eq!(rec.game_version, "dev-2");
    assert_eq!(rec.game_versions, vec![String::from("dev-2"), String::from("qa-1")]);
    assert_eq!(rec.server_options, vec![String::from("v2-dev"), String::from("v1-qa")]);
    assert_eq!(rec.has_warning, false);
    assert_eq!(rec.last_sync_time, Some(String::from("2024-05-06 07:08:09")));
    assert_eq!(state.local_repositories.len(), 2);
}

#[test]
fn get_repositories_hands_out_a_copy() {
    let mut state = AppState::new();
    add_project(&mut state, String::from("u1"), String::from("one"));
    let copy = get_repositories(&state);
    assert_eq!(copy.len(), 1);
    assert_eq!(copy[0].name, "one");
}

#[test]
fn tag_infos_keeps_both_halves() {
    let tags = vec![(String::from("v1-dev"), String::from("dev-1"))];
    let infos = tag_infos(&tags);
    assert_eq!(infos.len(), 1);
    assert_eq!(infos[0].original_tag, "v1-dev");
    assert_eq!(infos[0].display_name, "dev-1");
}

#[test]
fn app_db_stubs_accept_their_calls() {
    let mut db = AppDb {
        repository_infos: Vec::new(),
        auth_token: String::new(),
        root_path: String::new(),
        app_version: String::new(),
    };
    assert_eq!(db.add_repository(String::from("u"), String::from("d")), Ok(()));
    assert_eq!(db.remove_repository(String::from("/w")), Ok(()));
}

#[test]
fn counter_increases_by_one() {
    let mut state = AppState::new();
    assert_eq!(state.increase_counter(), 1);
    assert_eq!(state.increase_counter(), 2);
}
