use lje_launcher::scripts::{script_info, sort_scripts, ScriptInfo};

fn named(name: Option<&str>, path: &str) -> ScriptInfo {
    script_info(name.map(|n| n.to_string()), None, None, None, None, true, path.to_string())
}

#[test]
fn script_info_defaults_dependencies() {
    let s = script_info(
        Some("gilbhax".to_string()),
        Some("yogwoggf".to_string()),
        Some("1.0.0".to_string()),
        Some("https://github.com".to_string()),
        None,
        false,
        "/s/gilbhax".to_string(),
    );
    assert_eq!(s.name.as_deref(), Some("gilbhax"));
    assert_eq!(s.author.as_deref(), Some("yogwoggf"));
    assert!(s.dependencies.is_empty());
    assert!(!s.enabled);
    assert_eq!(s.path, "/s/gilbhax");

    let s = script_info(None, None, None, None, Some(vec!["Eyoko1.ljeutil".to_string()]), true, "/s/x".to_string());
    assert_eq!(s.dependencies, vec!["Eyoko1.ljeutil".to_string()]);
}

#[test]
fn scripts_sort_by_name_unnamed_first() {
    let sorted = sort_scripts(vec![
        named(Some("zeta"), "/s/1"),
        named(None, "/s/2"),
        named(Some("alpha"), "/s/3"),
        named(Some("zeta"), "/s/4"),
        named(None, "/s/5"),
    ]);
    let paths: Vec<&str> = sorted.iter().map(|s| s.path.as_str()).collect();
    assert_eq!(paths, vec!["/s/2", "/s/5", "/s/3", "/s/1", "/s/4"]);
}

#[test]
fn names_compare_by_code_point() {
    let sorted = sort_scripts(vec![named(Some("b"), "/1"), named(Some("B"), "/2"), named(Some("ab"), "/3"), named(Some("a"), "/4")]);
    let names: Vec<&str> = sorted.iter().map(|s| s.name.as_deref().unwrap()).collect();
    assert_eq!(names, vec!["B", "a", "ab", "b"]);
}
