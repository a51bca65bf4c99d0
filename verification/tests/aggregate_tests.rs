use git_team_stats::commit::{CommitData, DiffBase, select_diff_base};
use git_team_stats::contributor::analyze_contributors;
use git_team_stats::files::analyze_file_changes;
use git_team_stats::window::is_within_days;

const NOW: i64 = 1_700_000_000;

fn commit(
    name: &str,
    email: &str,
    time: i64,
    insertions: usize,
    deletions: usize,
    files_changed: usize,
    paths: &[&str],
) -> CommitData {
    CommitData {
        name: name.to_string(),
        email: email.to_string(),
        time,
        insertions,
        deletions,
        files_changed,
        paths: paths.iter().map(|p| p.to_string()).collect(),
    }
}

#[test]
fn window_all_time_includes_everything() {
    assert!(is_within_days(0, 0, NOW));
    assert!(is_within_days(-5_000_000_000, 0, NOW));
    assert!(is_within_days(NOW + 100, 0, NOW));
}

#[test]
fn window_boundary_is_inclusive() {
    let days: i64 = 7;
    let cutoff = NOW - days * 86400;
    assert!(is_within_days(cutoff, days, NOW));
    assert!(!is_within_days(cutoff - 1, days, NOW));
}

#[test]
fn contributors_scenario_two_authors() {
    let commits = vec![
        commit("Alice", "a@x.com", NOW - 100, 10, 0, 1, &[]),
        commit("Bob", "b@x.com", NOW - 200, 5, 2, 2, &[]),
        commit("Alice", "a@x.com", NOW - 300, 10, 0, 1, &[]),
        commit("Alice", "a@x.com", NOW - 400, 10, 0, 1, &[]),
    ];
    let stats = analyze_contributors(&commits, 0, NOW);
    assert_eq!(stats.len(), 2);
    assert_eq!(stats[0].name, "Alice");
    assert_eq!(stats[0].email, "a@x.com");
    assert_eq!(stats[0].commits, 3);
    assert_eq!(stats[0].additions, 30);
    assert_eq!(stats[0].deletions, 0);
    assert_eq!(stats[0].files_changed, 3);
    assert_eq!(stats[1].name, "Bob");
    assert_eq!(stats[1].email, "b@x.com");
    assert_eq!(stats[1].commits, 1);
    assert_eq!(stats[1].additions, 5);
    assert_eq!(stats[1].deletions, 2);
    assert_eq!(stats[1].files_changed, 2);
}

#[test]
fn contributors_identity_grouping() {
    let same = vec![
        commit("Alice", "a@x.com", NOW - 10, 1, 0, 1, &[]),
        commit("Alice", "a@x.com", NOW - 20, 2, 0, 1, &[]),
    ];
    let stats = analyze_contributors(&same, 0, NOW);
    assert_eq!(stats.len(), 1);
    assert_eq!(stats[0].commits, 2);

    let different = vec![
        commit("Alice", "a@x.com", NOW - 10, 1, 0, 1, &[]),
        commit("Alice", "a@y.com", NOW - 20, 2, 0, 1, &[]),
    ];
    let stats = analyze_contributors(&different, 0, NOW);
    assert_eq!(stats.len(), 2);
}

#[test]
fn contributors_key_is_exact_concatenation() {
    // The identity key is the exact string `name|email`, so these two
    // commits share the key "a|b|c" and collapse into one record.
    let commits = vec![
        commit("a|b", "c", NOW - 10, 1, 0, 1, &[]),
        commit("a", "b|c", NOW - 20, 1, 0, 1, &[]),
    ];
    let stats = analyze_contributors(&commits, 0, NOW);
    assert_eq!(stats.len(), 1);
    assert_eq!(stats[0].commits, 2);
    // The record carries the name and email of the first counted commit.
    assert_eq!(stats[0].name, "a|b");
    assert_eq!(stats[0].email, "c");
}

#[test]
fn contributors_zero_diff_commit_still_counts() {
    let commits = vec![commit("Alice", "a@x.com", NOW - 10, 0, 0, 0, &[])];
    let stats = analyze_contributors(&commits, 0, NOW);
    assert_eq!(stats.len(), 1);
    assert_eq!(stats[0].commits, 1);
    assert_eq!(stats[0].additions, 0);
    assert_eq!(stats[0].deletions, 0);
    assert_eq!(stats[0].files_changed, 0);
}

#[test]
fn contributors_order_of_commits_does_not_change_totals() {
    let a = commit("Alice", "a@x.com", NOW - 100, 10, 1, 1, &[]);
    let b = commit("Bob", "b@x.com", NOW - 200, 5, 2, 2, &[]);
    let c = commit("Alice", "a@x.com", NOW - 300, 7, 3, 4, &[]);
    let one = vec![a.clone(), b.clone(), c.clone()];
    let other = vec![c, b, a];
    let s1 = analyze_contributors(&one, 0, NOW);
    let s2 = analyze_contributors(&other, 0, NOW);
    assert_eq!(s1.len(), s2.len());
    // Distinct commit counts make the ranking deterministic here.
    for (r1, r2) in s1.iter().zip(s2.iter()) {
        assert_eq!(r1.email, r2.email);
        assert_eq!(r1.commits, r2.commits);
        assert_eq!(r1.additions, r2.additions);
        assert_eq!(r1.deletions, r2.deletions);
        assert_eq!(r1.files_changed, r2.files_changed);
    }
}

#[test]
fn contributors_window_filters_old_commits() {
    let commits = vec![
        commit("Old", "old@x.com", NOW - 8 * 86400, 10, 0, 1, &[]),
        commit("New", "new@x.com", NOW - 6 * 86400, 5, 0, 1, &[]),
    ];
    let stats = analyze_contributors(&commits, 7, NOW);
    assert_eq!(stats.len(), 1);
    assert_eq!(stats[0].name, "New");
    assert_eq!(stats[0].commits, 1);
}

#[test]
fn files_scenario_readme_first_seen_order() {
    let commits = vec![
        commit("Alice", "a@x.com", NOW - 100, 3, 0, 1, &["README.md"]),
        commit("Bob", "b@x.com", NOW - 200, 2, 1, 2, &["README.md", "src/lib.rs"]),
        commit("Carol", "c@x.com", NOW - 300, 1, 0, 1, &["src/lib.rs"]),
    ];
    let files = analyze_file_changes(&commits, 0, NOW);
    assert_eq!(files.len(), 2);
    // Both paths were changed twice; find README.md explicitly.
    let readme = files.iter().find(|f| f.path == "README.md").unwrap();
    assert_eq!(readme.changes, 2);
    assert_eq!(readme.contributors, vec!["Alice".to_string(), "Bob".to_string()]);
    let lib = files.iter().find(|f| f.path == "src/lib.rs").unwrap();
    assert_eq!(lib.changes, 2);
    assert_eq!(lib.contributors, vec!["Bob".to_string(), "Carol".to_string()]);
}

#[test]
fn files_ranked_by_change_count() {
    let commits = vec![
        commit("Alice", "a@x.com", NOW - 100, 1, 0, 1, &["hot.rs"]),
        commit("Alice", "a@x.com", NOW - 200, 1, 0, 1, &["hot.rs"]),
        commit("Alice", "a@x.com", NOW - 300, 1, 0, 1, &["hot.rs", "cold.rs"]),
    ];
    let files = analyze_file_changes(&commits, 0, NOW);
    assert_eq!(files.len(), 2);
    assert_eq!(files[0].path, "hot.rs");
    assert_eq!(files[0].changes, 3);
    assert_eq!(files[1].path, "cold.rs");
    assert_eq!(files[1].changes, 1);
}

#[test]
fn files_duplicate_author_not_repeated() {
    let commits = vec![
        commit("Alice", "a@x.com", NOW - 100, 1, 0, 1, &["a.rs"]),
        commit("Alice", "a@x.com", NOW - 200, 1, 0, 1, &["a.rs"]),
    ];
    let files = analyze_file_changes(&commits, 0, NOW);
    assert_eq!(files.len(), 1);
    assert_eq!(files[0].changes, 2);
    assert_eq!(files[0].contributors, vec!["Alice".to_string()]);
}

#[test]
fn files_window_filters_old_commits() {
    let commits = vec![
        commit("Old", "old@x.com", NOW - 8 * 86400, 1, 0, 1, &["old.rs"]),
        commit("New", "new@x.com", NOW - 6 * 86400, 1, 0, 1, &["new.rs"]),
    ];
    let files = analyze_file_changes(&commits, 7, NOW);
    assert_eq!(files.len(), 1);
    assert_eq!(files[0].path, "new.rs");
}

#[test]
fn diff_base_for_root_and_merge() {
    assert_eq!(select_diff_base(0), DiffBase::EmptyTree);
    assert_eq!(select_diff_base(1), DiffBase::FirstParent);
    assert_eq!(select_diff_base(2), DiffBase::FirstParent);
    assert_eq!(select_diff_base(5), DiffBase::FirstParent);
}

#[test]
fn empty_history_gives_empty_aggregates() {
    let commits: Vec<CommitData> = Vec::new();
    assert!(analyze_contributors(&commits, 0, NOW).is_empty());
    assert!(analyze_file_changes(&commits, 0, NOW).is_empty());
}
