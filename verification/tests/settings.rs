use lje_launcher::settings::{default_release_branch, Settings};

#[test]
fn defaults() {
    let s = Settings::default();
    assert_eq!(s.launch_args, "");
    assert_eq!(s.release_branch, "expansion");
    assert_eq!(default_release_branch(), "expansion");
}
