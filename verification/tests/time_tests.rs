use git_team_stats::commit::CommitData;
use git_team_stats::timedist::{analyze_time_distribution, bucket_times, TimeEntry};

const NOW: i64 = 1_700_000_000;

#[test]
fn buckets_single_hour_and_day() {
    let entries = vec![
        TimeEntry { hour: 14, day: 2 },
        TimeEntry { hour: 14, day: 2 },
        TimeEntry { hour: 14, day: 2 },
    ];
    let stats = bucket_times(&entries);
    assert_eq!(stats.hour_distribution.len(), 1);
    assert_eq!(stats.day_distribution.len(), 1);
    assert_eq!(stats.hour_distribution.get(&14), Some(&3));
    assert_eq!(stats.day_distribution.get(&2), Some(&3));
    assert_eq!(stats.hour_distribution.get(&13), None);
    assert_eq!(stats.day_distribution.get(&0), None);
}

#[test]
fn buckets_mixed_entries() {
    let entries = vec![
        TimeEntry { hour: 9, day: 0 },
        TimeEntry { hour: 9, day: 1 },
        TimeEntry { hour: 17, day: 0 },
    ];
    let stats = bucket_times(&entries);
    assert_eq!(stats.hour_distribution.get(&9), Some(&2));
    assert_eq!(stats.hour_distribution.get(&17), Some(&1));
    assert_eq!(stats.day_distribution.get(&0), Some(&2));
    assert_eq!(stats.day_distribution.get(&1), Some(&1));
}

#[test]
fn buckets_order_does_not_matter() {
    let one = vec![
        TimeEntry { hour: 9, day: 0 },
        TimeEntry { hour: 17, day: 4 },
        TimeEntry { hour: 9, day: 4 },
    ];
    let other = vec![
        TimeEntry { hour: 9, day: 4 },
        TimeEntry { hour: 9, day: 0 },
        TimeEntry { hour: 17, day: 4 },
    ];
    let s1 = bucket_times(&one);
    let s2 = bucket_times(&other);
    assert_eq!(s1.hour_distribution, s2.hour_distribution);
    assert_eq!(s1.day_distribution, s2.day_distribution);
}

#[test]
fn empty_entries_give_empty_buckets() {
    let stats = bucket_times(&Vec::new());
    assert!(stats.hour_distribution.is_empty());
    assert!(stats.day_distribution.is_empty());
}

#[test]
fn time_distribution_counts_in_window_commits() {
    let commits = vec![
        CommitData {
            name: "Alice".to_string(),
            email: "a@x.com".to_string(),
            time: NOW - 6 * 86400,
            insertions: 1,
            deletions: 0,
            files_changed: 1,
            paths: Vec::new(),
        },
        CommitData {
            name: "Bob".to_string(),
            email: "b@x.com".to_string(),
            time: NOW - 8 * 86400,
            insertions: 1,
            deletions: 0,
            files_changed: 1,
            paths: Vec::new(),
        },
    ];
    // Only the six-day-old commit is inside a seven-day window; whatever
    // local hour it lands in, exactly one commit is counted.
    let stats = analyze_time_distribution(&commits, 7, NOW);
    let hour_total: usize = stats.hour_distribution.values().sum();
    let day_total: usize = stats.day_distribution.values().sum();
    assert_eq!(hour_total, 1);
    assert_eq!(day_total, 1);
    for h in stats.hour_distribution.keys() {
        assert!(*h < 24);
    }
    for d in stats.day_distribution.keys() {
        assert!(*d < 7);
    }
}
