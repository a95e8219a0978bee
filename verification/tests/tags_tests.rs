use repo_manager::git::Git;
use repo_manager::git::CheckoutStep;
use repo_manager::text::split_tokens;

#[test]
fn command_strings_split_on_whitespace_runs() {
    assert_eq!(
        split_tokens("checkout -b dev origin/dev"),
        vec![
            String::from("checkout"),
            String::from("-b"),
            String::from("dev"),
            String::from("origin/dev"),
        ]
    );
    assert_eq!(split_tokens("  a \t b "), vec![String::from("a"), String::from("b")]);
    assert!(split_tokens("").is_empty());
    assert!(split_tokens("   ").is_empty());
}

#[test]
fn extract_version_takes_the_run_at_the_first_digit() {
    assert_eq!(Git::extract_version("dev_v1.2.3-rc"), Some(String::from("1.2.3")));
    assert_eq!(Git::extract_version("qa2024"), Some(String::from("2024")));
    assert_eq!(Git::extract_version("release"), None);
}

#[test]
fn extract_version_caps_interior_dots_at_two() {
    assert_eq!(Git::extract_version("v1.2.3.4-dev"), Some(String::from("1.2.3")));
    assert_eq!(Git::extract_version("v1..2"), Some(String::from("1..2")));
}

#[test]
fn extract_version_trims_trailing_dots() {
    assert_eq!(Git::extract_version("v1.2.-qa"), Some(String::from("1.2")));
    assert_eq!(Git::extract_version("1..."), Some(String::from("1")));
}

#[test]
fn format_tag_display_prefixes_the_marker() {
    assert_eq!(Git::format_tag_display("v1.2.0-dev"), String::from("dev-1.2.0"));
    assert_eq!(Git::format_tag_display("QA-2.0"), String::from("qa-2.0"));
    assert_eq!(Git::format_tag_display("DEV"), String::from("DEV"));
    assert_eq!(Git::format_tag_display("release-1.0"), String::from("release-1.0"));
}

#[test]
fn dev_marker_wins_over_qa() {
    assert_eq!(Git::format_tag_display("dev-qa-7"), String::from("dev-7"));
}

#[test]
fn filtered_tags_end_to_end() {
    let output = "v1.2.0-dev\nv1.1.0-qa\nv1.0.0\n";
    let tags = Git::get_filtered_tags(output, true, false, 10);
    assert_eq!(
        tags,
        vec![
            (String::from("BRANCH:dev"), String::from("dev-latest")),
            (String::from("v1.2.0-dev"), String::from("dev-1.2.0")),
            (String::from("v1.1.0-qa"), String::from("qa-1.1.0")),
        ]
    );
}

#[test]
fn filtered_tags_keep_the_first_of_a_repeated_label() {
    let output = "v1.2-dev\ndev-1.2\nqa-3\n";
    let tags = Git::get_filtered_tags(output, false, false, 10);
    assert_eq!(
        tags,
        vec![
            (String::from("v1.2-dev"), String::from("dev-1.2")),
            (String::from("qa-3"), String::from("qa-3")),
        ]
    );
}

#[test]
fn filtered_tags_respect_the_limit() {
    let output = "v1-dev\nv2-dev\nv3-dev\n";
    let tags = Git::get_filtered_tags(output, true, true, 2);
    assert_eq!(
        tags,
        vec![
            (String::from("BRANCH:dev"), String::from("dev-latest")),
            (String::from("BRANCH:qa"), String::from("qa-latest")),
        ]
    );
    let one = Git::get_filtered_tags(output, true, true, 1);
    assert_eq!(one, vec![(String::from("BRANCH:dev"), String::from("dev-latest"))]);
    let none = Git::get_filtered_tags(output, true, true, 0);
    assert!(none.is_empty());
}

#[test]
fn filtered_tags_labels_are_pairwise_distinct() {
    let output = "v1.0-dev\nrel1.0-dev\nv1.0-qa\nqa1.0\ndev\nqa\n";
    let tags = Git::get_filtered_tags(output, true, true, 10);
    for i in 0..tags.len() {
        for j in (i + 1)..tags.len() {
            assert_ne!(tags[i].1, tags[j].1, "labels {i} and {j} collide");
        }
    }
}

#[test]
fn get_tags_limits_then_trims_and_filters() {
    let output = "a\n\n b \nc\n";
    assert_eq!(Git::get_tags(output, 2), vec![String::from("a")]);
    assert_eq!(
        Git::get_tags(output, 10),
        vec![String::from("a"), String::from("b"), String::from("c")]
    );
}

#[test]
fn remote_branches_are_matched_without_prefix_or_case() {
    let output = "  origin/HEAD -> origin/main\n  origin/dev\n  origin/main\n";
    let branches = Git::remote_branch_list(output);
    assert_eq!(branches.len(), 3);
    assert_eq!(branches[1], String::from("origin/dev"));
    assert!(Git::has_remote_branch(&branches, "dev"));
    assert!(Git::has_remote_branch(&branches, "DEV"));
    assert!(Git::has_remote_branch(&branches, "main"));
    assert!(!Git::has_remote_branch(&branches, "qa"));
}

#[test]
fn checkout_direct_success_pulls_and_succeeds() {
    let mut step = Git::checkout_start(false);
    assert_eq!(step, CheckoutStep::Fetch);
    step = Git::checkout_next(step, true);
    assert_eq!(step, CheckoutStep::Checkout);
    assert_eq!(
        Git::checkout_command(step, "dev"),
        Some(String::from("checkout dev"))
    );
    step = Git::checkout_next(step, true);
    assert_eq!(step, CheckoutStep::Pull { success: true });
    step = Git::checkout_next(step, true);
    assert_eq!(step, CheckoutStep::Done { success: true });
}

#[test]
fn checkout_retry_after_two_failures_can_succeed() {
    let mut step = Git::checkout_start(true);
    assert_eq!(step, CheckoutStep::Reset);
    step = Git::checkout_next(step, true);
    step = Git::checkout_next(step, true);
    assert_eq!(step, CheckoutStep::Checkout);
    step = Git::checkout_next(step, false);
    assert_eq!(step, CheckoutStep::NewBranch);
    assert_eq!(
        Git::checkout_command(step, "dev"),
        Some(String::from("checkout -b dev origin/dev"))
    );
    step = Git::checkout_next(step, false);
    assert_eq!(step, CheckoutStep::Retry);
    step = Git::checkout_next(step, true);
    assert_eq!(step, CheckoutStep::Pull { success: true });
    step = Git::checkout_next(step, false);
    assert_eq!(step, CheckoutStep::Done { success: true });
    assert_eq!(Git::checkout_command(step, "dev"), None);
}

#[test]
fn checkout_through_new_branch_reports_failure() {
    let mut step = CheckoutStep::Checkout;
    step = Git::checkout_next(step, false);
    step = Git::checkout_next(step, true);
    assert_eq!(step, CheckoutStep::Pull { success: false });
    step = Git::checkout_next(step, true);
    assert_eq!(step, CheckoutStep::Done { success: false });
}
