use lje_launcher::registry::{
    find_entry, install, Awaiting, InstallEvent, InstallResult, InstallStep, Installer, RegistryScript,
};

fn entry(name: &str, repo: &str) -> RegistryScript {
    RegistryScript {
        name: name.to_string(),
        version: "1.0.0".to_string(),
        authors: vec![],
        dependencies: vec![],
        binaries: vec![],
        repo: repo.to_string(),
        url: format!("https://github.com/{repo}"),
        pushed_at: "2026-07-30T06:42:04Z".to_string(),
        description: String::new(),
    }
}

fn strings(v: &[&str]) -> Vec<String> {
    v.iter().map(|s| s.to_string()).collect()
}

fn expect_check(step: InstallStep, name: &str) {
    match step {
        InstallStep::CheckInstalled(n) => assert_eq!(n, name),
        other => panic!("expected CheckInstalled({name}), got {other:?}"),
    }
}

fn done(step: InstallStep) -> Result<InstallResult, String> {
    match step {
        InstallStep::Done(r) => r,
        other => panic!("expected Done, got {other:?}"),
    }
}

/// Clones `name` and reads `deps` from it; returns the step after that.
fn fetch(inst: &mut Installer, name: &str, deps: &[&str]) -> InstallStep {
    match inst.resume(InstallEvent::Exists(false)) {
        InstallStep::CloneRepo { name: n, .. } => assert_eq!(n, name),
        other => panic!("expected CloneRepo, got {other:?}"),
    }
    match inst.resume(InstallEvent::Cloned(Ok(()))) {
        InstallStep::CheckInfo(n) => assert_eq!(n, name),
        other => panic!("expected CheckInfo, got {other:?}"),
    }
    match inst.resume(InstallEvent::HasInfo(true)) {
        InstallStep::ReadDependencies(n) => assert_eq!(n, name),
        other => panic!("expected ReadDependencies, got {other:?}"),
    }
    inst.resume(InstallEvent::Dependencies(strings(deps)))
}

#[test]
fn find_entry_ignores_ascii_case() {
    let entries = vec![entry("antifreeze", "Xandertron/antifreeze"), entry("lje-http", "a/lje-http")];
    assert_eq!(find_entry(&entries, "LJE-HTTP").unwrap().repo, "a/lje-http");
    assert_eq!(find_entry(&entries, "antifreeze").unwrap().name, "antifreeze");
    assert!(find_entry(&entries, "lje-http2").is_none());
    assert!(find_entry(&Vec::new(), "x").is_none());
}

#[test]
fn find_entry_takes_first_match() {
    let entries = vec![entry("Dup", "first/dup"), entry("dup", "second/dup")];
    assert_eq!(find_entry(&entries, "DUP").unwrap().repo, "first/dup");
}

#[test]
fn unknown_script_is_refused() {
    let (inst, step) = install(vec![entry("a", "o/a")], "nope");
    assert_eq!(done(step).unwrap_err(), "'nope' not found in registry");
    assert_eq!(inst.awaiting(), Awaiting::Finished);
}

#[test]
fn clone_step_names_repository() {
    let (mut inst, step) = install(vec![entry("lje-http", "someone/lje-http")], "LJE-HTTP");
    expect_check(step, "lje-http");
    assert_eq!(inst.awaiting(), Awaiting::Folder);
    match inst.resume(InstallEvent::Exists(false)) {
        InstallStep::CloneRepo { name, args } => {
            assert_eq!(name, "lje-http");
            assert_eq!(
                args,
                strings(&[
                    "clone",
                    "--depth",
                    "1",
                    "--recurse-submodules",
                    "https://github.com/someone/lje-http.git",
                    "lje-http",
                ])
            );
        },
        other => panic!("expected CloneRepo, got {other:?}"),
    }
    assert_eq!(inst.awaiting(), Awaiting::Cloning);
}

#[test]
fn installs_dependencies_first() {
    let entries = vec![entry("app", "o/app"), entry("base", "o/base"), entry("util", "o/util")];
    let (mut inst, step) = install(entries, "app");
    expect_check(step, "app");
    // app needs " Base " (by another case, padded), an external one, a blank line and util.
    let step = fetch(&mut inst, "app", &[" BASE ", "Eyoko1.ljeutil", "  ", "util"]);
    expect_check(step, "base");
    let step = fetch(&mut inst, "base", &[]);
    expect_check(step, "util");
    // util is already on disk.
    let result = done(inst.resume(InstallEvent::Exists(true))).unwrap();
    assert_eq!(result.installed, strings(&["base", "util", "app"]));
    assert_eq!(result.external, strings(&["Eyoko1.ljeutil"]));
    assert_eq!(inst.awaiting(), Awaiting::Finished);
}

#[test]
fn shared_dependency_installed_once() {
    let entries = vec![entry("a", "o/a"), entry("b", "o/b"), entry("c", "o/c")];
    let (mut inst, step) = install(entries, "a");
    expect_check(step, "a");
    let step = fetch(&mut inst, "a", &["b", "c", "ext", "EXT"]);
    expect_check(step, "b");
    let step = fetch(&mut inst, "b", &["c", "ext"]);
    expect_check(step, "c");
    let step = fetch(&mut inst, "c", &[]);
    let result = done(step).unwrap();
    assert_eq!(result.installed, strings(&["c", "b", "a"]));
    // External names are compared exactly.
    assert_eq!(result.external, strings(&["ext", "EXT"]));
}

#[test]
fn already_installed_target() {
    let (mut inst, step) = install(vec![entry("a", "o/a")], "A");
    expect_check(step, "a");
    let result = done(inst.resume(InstallEvent::Exists(true))).unwrap();
    assert_eq!(result.installed, strings(&["a"]));
    assert!(result.external.is_empty());
}

#[test]
fn circular_dependency_is_refused() {
    let entries = vec![entry("a", "o/a"), entry("b", "o/b")];
    let (mut inst, step) = install(entries, "a");
    expect_check(step, "a");
    let step = fetch(&mut inst, "a", &["b"]);
    expect_check(step, "b");
    let step = fetch(&mut inst, "b", &["A"]);
    assert_eq!(done(step).unwrap_err(), "circular dependency detected at 'a'");
    assert_eq!(inst.awaiting(), Awaiting::Finished);
}

#[test]
fn self_dependency_is_refused() {
    let (mut inst, step) = install(vec![entry("a", "o/a")], "a");
    expect_check(step, "a");
    let step = fetch(&mut inst, "a", &["a"]);
    assert_eq!(done(step).unwrap_err(), "circular dependency detected at 'a'");
}

#[test]
fn clone_failure_is_reported() {
    let (mut inst, step) = install(vec![entry("a", "o/a")], "a");
    expect_check(step, "a");
    assert!(matches!(inst.resume(InstallEvent::Exists(false)), InstallStep::CloneRepo { .. }));
    let step = inst.resume(InstallEvent::Cloned(Err("Failed to execute git: not found".to_string())));
    assert_eq!(done(step).unwrap_err(), "failed to clone 'a': Failed to execute git: not found");
}

#[test]
fn folder_without_info_is_abandoned() {
    let (mut inst, step) = install(vec![entry("a", "o/a")], "a");
    expect_check(step, "a");
    inst.resume(InstallEvent::Exists(false));
    inst.resume(InstallEvent::Cloned(Ok(())));
    match inst.resume(InstallEvent::HasInfo(false)) {
        InstallStep::Abandon { name, error } => {
            assert_eq!(name, "a");
            assert_eq!(error, "'a' has no info.toml - not a valid LJE script");
        },
        other => panic!("expected Abandon, got {other:?}"),
    }
    assert_eq!(inst.awaiting(), Awaiting::Finished);
}

#[test]
fn expects_only_awaited_outcome() {
    let (mut inst, _) = install(vec![entry("a", "o/a")], "a");
    assert!(inst.expects(&InstallEvent::Exists(true)));
    assert!(!inst.expects(&InstallEvent::HasInfo(true)));
    inst.resume(InstallEvent::Exists(false));
    assert!(inst.expects(&InstallEvent::Cloned(Ok(()))));
    assert!(!inst.expects(&InstallEvent::Exists(false)));
}
