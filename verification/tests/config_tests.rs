use git_team_stats::config::Config;

#[test]
fn test_default_config() {
    let config = Config::default();
    assert!(config.repository.is_none());
    assert!(config.teams.is_empty());
    assert!(config.default_days.is_none());
}

#[test]
fn test_get_repo_path_default() {
    let config = Config::default();
    let path = config.get_repo_path(".");
    assert_eq!(path, ".".to_string());
}

#[test]
fn test_filter_by_teams_empty() {
    let config = Config::default();
    let items = vec!["alice@example.com", "bob@example.com"];
    let filtered = config.filter_by_teams(items.clone(), |s: &&str| s.to_string());
    assert_eq!(filtered, items);
}

#[test]
fn test_filter_by_teams() {
    let config = Config {
        repository: None,
        teams: vec!["example.com".to_string()],
        default_days: None,
    };
    let items = vec!["alice@example.com", "bob@other.com"];
    let filtered = config.filter_by_teams(items, |s: &&str| s.to_string());
    assert_eq!(filtered, vec!["alice@example.com"]);
}

#[test]
fn test_get_repo_path_cli_wins() {
    let config = Config {
        repository: Some("/srv/repo".to_string()),
        teams: Vec::new(),
        default_days: None,
    };
    assert_eq!(config.get_repo_path("/tmp/other"), "/tmp/other".to_string());
    assert_eq!(config.get_repo_path("."), "/srv/repo".to_string());
}

#[test]
fn test_get_days_explicit_cli_wins() {
    let config = Config {
        repository: None,
        teams: Vec::new(),
        default_days: Some(90),
    };
    assert_eq!(config.get_days(14), 14);
    assert_eq!(config.get_days(0), 90);
    assert_eq!(config.get_days(30), 90);
}

#[test]
fn test_get_days_without_default() {
    let config = Config::default();
    assert_eq!(config.get_days(0), 0);
    assert_eq!(config.get_days(30), 30);
    assert_eq!(config.get_days(7), 7);
}

#[test]
fn test_contains_str_edges() {
    assert!(git_team_stats::config::contains_str("alice@example.com", "example.com"));
    assert!(git_team_stats::config::contains_str("anything", ""));
    assert!(!git_team_stats::config::contains_str("short", "much longer needle"));
    assert!(!git_team_stats::config::contains_str("alice@other.org", "example.com"));
    assert!(git_team_stats::config::contains_str("aaab", "aab"));
}
