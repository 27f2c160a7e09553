use std::path::PathBuf;
use web_app_hub::launch::{cmdline_owns_profile, parse_args, parse_lock_pid};

#[test]
fn parses_profile_and_browser_command() {
    let args = vec![
        "--profile".to_string(),
        "/tmp/p".to_string(),
        "--".to_string(),
        "brave-browser".to_string(),
        "--app=https://example.com".to_string(),
    ];
    let (profile, cmd) = parse_args(args);
    assert_eq!(profile.map(PathBuf::from), Some(PathBuf::from("/tmp/p")));
    assert_eq!(cmd, ["brave-browser", "--app=https://example.com"]);
}

#[test]
fn parses_pid_from_lock_target_with_plain_hostname() {
    assert_eq!(parse_lock_pid("fedora-9149"), Some(9149));
}

#[test]
fn parses_pid_from_lock_target_with_hyphenated_hostname() {
    assert_eq!(parse_lock_pid("DESKTOP-2F5HJ6B-7664"), Some(7664));
}

#[test]
fn rejects_lock_target_without_pid() {
    assert_eq!(parse_lock_pid("not-a-pid-here-abc"), None);
    assert_eq!(parse_lock_pid("nohyphen"), None);
}

#[test]
fn lock_pid_follows_u32_parsing() {
    assert_eq!(parse_lock_pid("host-+42"), Some(42));
    assert_eq!(parse_lock_pid("host-007"), Some(7));
    assert_eq!(parse_lock_pid("host-4294967295"), Some(u32::MAX));
    assert_eq!(parse_lock_pid("host-4294967296"), None);
    assert_eq!(parse_lock_pid("host-"), None);
    assert_eq!(parse_lock_pid("host-+"), None);
    assert_eq!(parse_lock_pid("host--5"), Some(5));
    assert_eq!(parse_lock_pid("host-5-"), None);
    assert_eq!(parse_lock_pid("-12"), Some(12));
}

#[test]
fn profile_flag_without_value_clears_profile() {
    let args = vec!["--profile".to_string(), "/a".to_string(), "--profile".to_string()];
    let (profile, cmd) = parse_args(args);
    assert_eq!(profile, None);
    assert!(cmd.is_empty());
}

#[test]
fn later_profile_wins_and_unknown_flags_are_ignored() {
    let args: Vec<String> = ["--verbose", "--profile", "/a", "--profile", "/b", "--", "x", "--", "--profile"]
        .iter()
        .map(|s| s.to_string())
        .collect();
    let (profile, cmd) = parse_args(args);
    assert_eq!(profile.as_deref(), Some("/b"));
    assert_eq!(cmd, ["x", "--", "--profile"]);
}

#[test]
fn profile_value_may_be_the_separator() {
    let args: Vec<String> = ["--profile", "--", "b"].iter().map(|s| s.to_string()).collect();
    let (profile, cmd) = parse_args(args);
    assert_eq!(profile.as_deref(), Some("--"));
    assert!(cmd.is_empty());
}

#[test]
fn no_separator_means_no_browser_command() {
    let args: Vec<String> = ["brave", "--app=x"].iter().map(|s| s.to_string()).collect();
    let (profile, cmd) = parse_args(args);
    assert_eq!(profile, None);
    assert!(cmd.is_empty());
}

#[test]
fn cmdline_with_user_data_dir_owns_profile() {
    let cmdline = "/usr/lib/chromium\0--user-data-dir=/home/u/profile\0--app=x\0";
    assert!(cmdline_owns_profile(cmdline, "/home/u/profile"));
    assert!(cmdline_owns_profile(cmdline, "/home/u/profile/"));
    assert!(!cmdline_owns_profile(cmdline, "/home/u/other"));
}

#[test]
fn cmdline_without_user_data_dir_does_not_own_profile() {
    assert!(!cmdline_owns_profile("", "/some/profile/path"));
    assert!(!cmdline_owns_profile("bash\0-c\0true\0", "/some/profile/path"));
    assert!(!cmdline_owns_profile("x --user-data-dir=/p\0", "/p"));
}
