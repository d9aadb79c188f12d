use lje_launcher::git::{git_or, status, GitOutput};

fn out(stdout: &str, stderr: &str, code: i32) -> GitOutput {
    GitOutput { stdout: stdout.to_string(), stderr: stderr.to_string(), code }
}

#[test]
fn git_or_passes_success() {
    let r = git_or(out("ok\n", "warning", 0), &["status"]).unwrap();
    assert_eq!(r.stdout, "ok\n");
    assert_eq!(r.stderr, "warning");
}

#[test]
fn git_or_prefers_error_output() {
    assert_eq!(
        git_or(out("stdout text", "  fatal: bad revision \n", 1), &["log"]).unwrap_err(),
        "fatal: bad revision"
    );
    assert_eq!(git_or(out(" only stdout \n", " \n", 1), &["log"]).unwrap_err(), "only stdout");
}

#[test]
fn git_or_names_silent_failure() {
    assert_eq!(
        git_or(out("", "", 128), &["fetch", "origin"]).unwrap_err(),
        "git fetch origin exited with 128"
    );
    assert_eq!(git_or(out(" ", "\t", -1), &["pull"]).unwrap_err(), "git pull exited with -1");
}

#[test]
fn status_reads_branch_counts_and_changes() {
    let s = status(
        Ok(out("abc1234\n", "", 0)),
        Ok(out("## main...origin/main [ahead 2, behind 1]\n M src/lib.rs\n", "", 0)),
    )
    .unwrap();
    assert_eq!(s.commit.as_deref(), Some("abc1234"));
    assert_eq!(s.branch.as_deref(), Some("main"));
    assert_eq!(s.ahead, 2);
    assert_eq!(s.behind, 1);
    assert!(s.dirty);
}

#[test]
fn status_of_clean_branch_without_upstream() {
    let s = status(Err("Failed to execute git: x".to_string()), Ok(out("## main\n", "", 0))).unwrap();
    assert_eq!(s.commit, None);
    assert_eq!(s.branch.as_deref(), Some("main"));
    assert_eq!((s.ahead, s.behind, s.dirty), (0, 0, false));
}

#[test]
fn status_of_fresh_repository() {
    let s = status(
        Ok(out("", "fatal: ambiguous argument 'HEAD'", 128)),
        Ok(out("## No commits yet on main\n?? new.txt\n", "", 0)),
    )
    .unwrap();
    assert_eq!(s.commit, None);
    assert_eq!(s.branch.as_deref(), Some("No commits yet on main"));
    assert!(s.dirty);
}

#[test]
fn status_counts_that_do_not_parse_are_zero() {
    let s = status(Ok(out("abc\n", "", 0)), Ok(out("## dev...origin/dev [behind x, ahead +3]\r\n", "", 0))).unwrap();
    assert_eq!(s.ahead, 3);
    assert_eq!(s.behind, 0);
    assert!(!s.dirty);
    let s = status(Ok(out("abc\n", "", 0)), Ok(out("## dev...origin/dev [gone]\n", "", 0))).unwrap();
    assert_eq!((s.ahead, s.behind), (0, 0));
}

#[test]
fn status_reports_git_errors() {
    assert_eq!(
        status(Ok(out("abc", "", 0)), Err("Failed to execute git: missing".to_string())).unwrap_err(),
        "Failed to execute git: missing"
    );
    assert_eq!(
        status(Ok(out("abc", "", 0)), Ok(out("", "fatal: not a git repository\n", 128))).unwrap_err(),
        "fatal: not a git repository"
    );
    assert_eq!(
        status(Ok(out("abc", "", 0)), Ok(out("", "", 2))).unwrap_err(),
        "git status --porcelain=v1 --branch exited with 2"
    );
}
