use repo_manager::git::Git;
use repo_manager::progress::Stage;

#[test]
fn receiving_line_full() {
    let ev = Git::parse_git_progress("Receiving objects:  45% (450/1000), 1.5 MiB | 2.00 MiB/s")
        .expect("a receiving line decodes");
    assert_eq!(ev.stage, Stage::Receiving);
    assert_eq!(ev.progress, 10 + 45 * 50 / 100);
    assert_eq!(ev.received_objects, Some(450));
    assert_eq!(ev.total_objects, Some(1000));
    assert_eq!(ev.received_bytes, Some(1572864));
    assert_eq!(ev.speed, Some(String::from("2.00 MiB/s")));
}

#[test]
fn receiving_line_without_sizes() {
    let ev = Git::parse_git_progress("Receiving objects: 100% (1000/1000)").unwrap();
    assert_eq!(ev.stage, Stage::Receiving);
    assert_eq!(ev.progress, 60);
    assert_eq!(ev.received_objects, Some(1000));
    assert_eq!(ev.total_objects, Some(1000));
    assert_eq!(ev.received_bytes, None);
    assert_eq!(ev.speed, None);
}

#[test]
fn receiving_line_without_percent_defaults_to_zero() {
    let ev = Git::parse_git_progress("Receiving objects: (3/9)").unwrap();
    assert_eq!(ev.stage, Stage::Receiving);
    assert_eq!(ev.progress, 0);
    assert_eq!(ev.received_objects, Some(3));
    assert_eq!(ev.total_objects, Some(9));
}

#[test]
fn counting_line_is_fixed() {
    let ev = Git::parse_git_progress("remote: Counting objects: 100% (15/15), done.").unwrap();
    assert_eq!(ev.stage, Stage::Counting);
    assert_eq!(ev.progress, 5);
    assert_eq!(ev.received_objects, None);
    assert_eq!(ev.total_objects, None);
    assert_eq!(ev.received_bytes, None);
    assert_eq!(ev.speed, None);
}

#[test]
fn enumerating_counts_as_counting() {
    let ev = Git::parse_git_progress("remote: Enumerating objects: 31, done.").unwrap();
    assert_eq!(ev.stage, Stage::Counting);
    assert_eq!(ev.progress, 5);
}

#[test]
fn compressing_line_maps_into_its_band() {
    let ev = Git::parse_git_progress("Compressing objects:  80% (8/10)").unwrap();
    assert_eq!(ev.stage, Stage::Compressing);
    assert_eq!(ev.progress, 5 + 80 * 5 / 100);
}

#[test]
fn compressing_line_without_percent_defaults() {
    let ev = Git::parse_git_progress("Compressing objects: working").unwrap();
    assert_eq!(ev.stage, Stage::Compressing);
    assert_eq!(ev.progress, 8);
}

#[test]
fn resolving_line_maps_into_its_band() {
    let ev = Git::parse_git_progress("Resolving deltas:  50% (5/10)").unwrap();
    assert_eq!(ev.stage, Stage::Resolving);
    assert_eq!(ev.progress, 60 + 50 * 30 / 100);
    let done = Git::parse_git_progress("Resolving deltas: 100% (10/10), done.").unwrap();
    assert_eq!(done.progress, 90);
}

#[test]
fn resolving_line_without_percent_defaults() {
    let ev = Git::parse_git_progress("Resolving deltas: starting").unwrap();
    assert_eq!(ev.progress, 60);
}

#[test]
fn unrelated_lines_yield_no_event() {
    assert!(Git::parse_git_progress("Cloning into 'repo'...").is_none());
    assert!(Git::parse_git_progress("").is_none());
    assert!(Git::parse_git_progress("warning: something").is_none());
}

#[test]
fn leading_whitespace_is_ignored() {
    let ev = Git::parse_git_progress("   Resolving deltas:  10%  ").unwrap();
    assert_eq!(ev.stage, Stage::Resolving);
    assert_eq!(ev.progress, 63);
}

#[test]
fn size_parsing_follows_the_units() {
    assert_eq!(Git::parse_size_to_bytes("1.5 MiB"), Some(1572864));
    assert_eq!(Git::parse_size_to_bytes("200 B"), Some(200));
    assert_eq!(Git::parse_size_to_bytes("1024 KiB"), Some(1048576));
    assert_eq!(Git::parse_size_to_bytes("2 GB"), Some(2147483648));
    assert_eq!(Git::parse_size_to_bytes("3 kb"), Some(3072));
    assert_eq!(Git::parse_size_to_bytes(".5 KB"), Some(512));
}

#[test]
fn size_parsing_unknown_unit_counts_raw_bytes() {
    assert_eq!(Git::parse_size_to_bytes("5 widgets"), Some(5));
    // a fractional count with no real unit is floored to whole bytes
    assert_eq!(Git::parse_size_to_bytes("3.4 widgets"), Some(3));
}

#[test]
fn size_parsing_rejects_malformed_numbers() {
    assert_eq!(Git::parse_size_to_bytes(""), None);
    assert_eq!(Git::parse_size_to_bytes("   "), None);
    assert_eq!(Git::parse_size_to_bytes("abc MiB"), None);
    assert_eq!(Git::parse_size_to_bytes("1.2.3 MB"), None);
    assert_eq!(Git::parse_size_to_bytes(". KB"), None);
}

#[test]
fn percents_never_decrease_over_a_well_formed_transcript() {
    let transcript = [
        "remote: Enumerating objects: 120, done.",
        "remote: Counting objects: 100% (120/120), done.",
        "Compressing objects:   0% (0/50)",
        "Compressing objects:  50% (25/50)",
        "Compressing objects: 100% (50/50), done.",
        "Receiving objects:   0% (0/120)",
        "Receiving objects:  40% (48/120), 1.00 MiB | 1.00 MiB/s",
        "Receiving objects: 100% (120/120), 2.50 MiB | 1.00 MiB/s, done.",
        "Resolving deltas:   0% (0/30)",
        "Resolving deltas:  60% (18/30)",
        "Resolving deltas: 100% (30/30), done.",
    ];
    let mut last = 0u32;
    for line in transcript {
        let ev = Git::parse_git_progress(line).expect("every transcript line decodes");
        assert!(
            ev.progress >= last,
            "progress went backwards at {line:?}: {} < {last}",
            ev.progress
        );
        last = ev.progress;
    }
    assert_eq!(last, 90);
}
