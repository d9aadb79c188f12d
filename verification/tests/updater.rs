use lje_launcher::updater::{commits_url, download_url, get_current_version, latest_version, update_status};

#[test]
fn current_version_reports() {
    assert_eq!(get_current_version(false, Some("1.0".to_string())), "not installed");
    assert_eq!(get_current_version(false, None), "not installed");
    assert_eq!(get_current_version(true, Some("1.2.3".to_string())), "1.2.3");
    assert_eq!(get_current_version(true, Some(String::new())), "unknown");
    assert_eq!(get_current_version(true, None), "unknown");
}

#[test]
fn status_compares_versions() {
    let s = update_status("abc1234".to_string(), "abc1234".to_string());
    assert!(!s.out_of_date);
    assert_eq!(s.current, "abc1234");
    let s = update_status("unknown".to_string(), "abc1234".to_string());
    assert!(s.out_of_date);
    assert_eq!(s.latest, "abc1234");
}

#[test]
fn urls_for_branch() {
    assert_eq!(
        commits_url("expansion"),
        "https://api.github.com/repos/lj-expand/lj-expand/commits/expansion"
    );
    assert_eq!(
        download_url("expansion"),
        "https://github.com/lj-expand/lj-expand/releases/download/expansion-latest/lje-w64.dll"
    );
}

#[test]
fn latest_version_is_sha_prefix() {
    assert_eq!(latest_version(Some("0123456789abcdef")), Ok("0123456".to_string()));
    assert_eq!(latest_version(Some("0123456")), Ok("0123456".to_string()));
}

#[test]
fn latest_version_errors() {
    assert_eq!(
        latest_version(None),
        Err("update check failed: response missing sha".to_string())
    );
    assert_eq!(latest_version(Some("abc")), Err("update check failed: unexpected sha".to_string()));
    // Byte 7 falls inside the fourth two-byte character.
    assert_eq!(
        latest_version(Some("ééééé")),
        Err("update check failed: unexpected sha".to_string())
    );
    // Seven bytes: two-byte, two-byte, three ASCII.
    assert_eq!(latest_version(Some("ééabcd")), Ok("ééabc".to_string()));
}
