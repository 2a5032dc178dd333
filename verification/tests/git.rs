//! What git is asked, and what its replies mean.

use treex::git::{answer, available, ignored, question, worth_asking, Reply};

fn names(list: &[&str]) -> Vec<Vec<u8>> {
    list.iter().map(|n| n.as_bytes().to_vec()).collect()
}

/// What `git check-ignore -z --stdin` prints for these names.
fn reply(list: &[&str]) -> Reply {
    let mut out = Vec::new();
    for name in list {
        out.extend_from_slice(name.as_bytes());
        out.push(0);
    }
    Reply { code: Some(if list.is_empty() { 1 } else { 0 }), out }
}

fn has(set: &[Vec<u8>], name: &str) -> bool {
    set.iter().any(|n| n.as_slice() == name.as_bytes())
}

#[test]
fn git_answers_for_the_directory_it_is_asked_about() {
    let top = ignored(
        true,
        &names(&["build", "keep.rs", "junk.tmp", "src", ".gitignore"]),
        Some(reply(&["build", "junk.tmp"])),
    );
    assert!(has(&top, "build"), "an ignored directory");
    assert!(has(&top, "junk.tmp"), "a pattern match");
    assert!(!has(&top, "keep.rs"));
    assert!(!has(&top, "src"));
    assert!(!has(&top, ".gitignore"));

    // The nested rule, and the negation that loses to the rule after it.
    let nested = ignored(
        true,
        &names(&["noisy.log", "spared.log", "main.rs"]),
        Some(reply(&["noisy.log", "spared.log"])),
    );
    assert!(has(&nested, "noisy.log"));
    assert!(has(&nested, "spared.log"), "a later rule overrides an earlier negation");
    assert!(!has(&nested, "main.rs"));
}

#[test]
fn a_tracked_file_is_not_ignored_however_it_is_spelled() {
    // git leaves what it tracks out of its answer.
    let set = ignored(true, &names(&["tracked.tmp", "junk.tmp"]), Some(reply(&["junk.tmp"])));
    assert!(has(&set, "junk.tmp"));
    assert!(!has(&set, "tracked.tmp"));
}

#[test]
fn awkward_names_survive_the_round_trip() {
    let awkward = ["a b.tmp", "hash#name.tmp", "中文檔名.tmp"];
    let asked = question(&names(&awkward));
    let set = answer(&Reply { code: Some(0), out: asked }).unwrap();
    assert_eq!(set, names(&awkward));
}

#[test]
fn a_directory_in_no_repository_ignores_nothing() {
    // git exits with 128 there.
    let silent = Reply { code: Some(128), out: b"a.tmp\0".to_vec() };
    assert!(answer(&silent).is_none());
    assert!(ignored(true, &names(&["a.tmp"]), Some(silent)).is_empty());
    assert!(ignored(true, &names(&["a.tmp"]), Some(reply(&[]))).is_empty());
}

#[test]
fn asking_about_nothing_costs_nothing() {
    assert!(!worth_asking(true, &Vec::new()));
    assert!(ignored(true, &Vec::new(), None).is_empty());
}

#[test]
fn a_machine_without_git_ignores_nothing() {
    assert!(available(true, b"git version 2.43.0\n"));
    assert!(!available(false, b"git version 2.43.0\n"));
    assert!(!available(true, b"gitx 1.0\n"));
    assert!(!worth_asking(false, &names(&["a"])));
    assert!(ignored(false, &names(&["a"]), Some(reply(&["a"]))).is_empty());
}
