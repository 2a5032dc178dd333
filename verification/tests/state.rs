//! The shared session.

use treex::path::TreePath;
use treex::scan::{read_dir, Entry, Found, Target};
use treex::state::Job;
use treex::tree::Resolved;
use treex::{Command, ScanOptions, Session, Tree};

fn at(path: &str) -> TreePath {
    TreePath::parse(path.as_bytes())
}

fn entry(name: &str, dir: bool) -> Found {
    Found {
        name: name.as_bytes().to_vec(),
        link: Some(false),
        target: Some(Target {
            dir,
            socket: false,
            fifo: false,
            char_device: false,
            block_device: false,
            size: 0,
        }),
    }
}

fn listing(names: Vec<Found>) -> Vec<Entry> {
    read_dir(Some(names), &ScanOptions::default())
}

fn session(names: Vec<Found>) -> Session {
    let found = Resolved::Found { path: at("/root"), is_dir: true, size: 0 };
    let tree = Tree::new(b"/root", found, ScanOptions::default(), listing(names)).unwrap();
    Session::new(tree)
}

/// Applies a command, answering every directory it asks for with nothing.
fn apply(session: &mut Session, cmd: Command) {
    session.apply(cmd);
    while session.reading().is_some() {
        session.feed(Vec::new());
    }
    assert!(matches!(session.job, Job::Idle));
}

#[test]
fn views_observe_each_others_commands() {
    let mut session = session(vec![entry("sub", true)]);
    let before = session.cursor().revision;
    let sub = at("/root/sub");
    apply(&mut session, Command::Toggle { path: sub.clone() });

    assert_ne!(session.cursor().revision, before, "a toggle should notify subscribers");
    let snap = session.snapshot();
    let row = snap.rows.iter().find(|r| r.path.same(&sub)).unwrap();
    assert!(row.expanded);
    assert_eq!(snap.selected, Some(1));
}

#[test]
fn a_no_op_command_does_not_notify() {
    let mut session = session(Vec::new());
    let before = session.cursor();
    apply(&mut session, Command::Toggle { path: at("/nonexistent/path") });
    assert_eq!(session.cursor(), before);
}

#[test]
fn moving_the_cursor_is_not_a_reshape() {
    let mut session = session(vec![entry("a.txt", false), entry("b.txt", false)]);
    let before = session.cursor();
    apply(&mut session, Command::MoveSelection { delta: 1 });
    let after = session.cursor();
    assert_eq!(after.shape, before.shape);
    assert_ne!(after.revision, before.revision);
    assert_eq!(after.selected, Some(1));
    assert_eq!(after.viewing, Some(1), "selecting a file shows it");

    // Past either end is the end.
    apply(&mut session, Command::MoveSelection { delta: 1000 });
    assert_eq!(session.cursor().selected, Some(2));
    apply(&mut session, Command::MoveSelection { delta: i64::MIN });
    assert_eq!(session.cursor().selected, Some(0));
    apply(&mut session, Command::SelectRow { row: 2 });
    assert_eq!(session.cursor().selected, Some(2));
}

#[test]
fn a_command_that_reads_says_which_directory() {
    let mut session = session(vec![entry("sub", true)]);
    assert_eq!(session.reading(), None);
    session.apply(Command::Expand { path: at("/root/sub") });
    let id = session.reading().expect("expanding reads the directory");
    assert!(session.tree.node(id).path.same(&at("/root/sub")));
    session.feed(listing(vec![entry("inside.txt", false)]));
    assert_eq!(session.reading(), None);
    assert_eq!(session.snapshot().rows.len(), 3);
}

#[test]
fn only_files_of_the_tree_are_served() {
    let session = session(vec![entry("a.txt", false), entry("sub", true)]);
    assert!(session.visible_file(&at("/root/a.txt")).is_some());
    assert!(session.visible_file(&at("/root/sub")).is_none(), "a directory");
    assert!(session.visible_file(&at("/root/other.txt")).is_none());
    assert!(session.visible_file(&at("/etc/passwd")).is_none());
}

#[test]
fn a_file_is_served_only_while_it_has_a_row() {
    let mut session = session(vec![entry("sub", true)]);
    let inside = at("/root/sub/inside.txt");
    assert!(session.visible_file(&inside).is_none());
    session.apply(Command::Expand { path: at("/root/sub") });
    session.feed(listing(vec![entry("inside.txt", false)]));
    assert!(session.visible_file(&inside).unwrap().same(&inside));
    apply(&mut session, Command::Collapse { path: at("/root/sub") });
    assert!(session.visible_file(&inside).is_none());
    assert!(session.tree.id_for_path(&inside).is_some(), "though the tree still knows it");
}

#[test]
fn commands_that_change_nothing_are_not_announced() {
    let mut session = session(vec![entry("sub", true)]);
    let before = session.cursor();
    apply(&mut session, Command::Collapse { path: at("/root/sub") });
    apply(&mut session, Command::CollapseAll);
    session.apply(Command::Refresh);
    while session.reading().is_some() {
        session.feed(listing(vec![entry("sub", true)]));
    }
    assert_eq!(session.cursor(), before);
}

#[test]
fn the_dotfile_switch_redraws_even_where_there_are_none() {
    let mut session = session(vec![entry("a.txt", false)]);
    let before = session.cursor();
    session.apply(Command::SetHidden { show: false });
    while session.reading().is_some() {
        session.feed(listing(vec![entry("a.txt", false)]));
    }
    assert!(!session.snapshot().show_hidden);
    assert_eq!(session.cursor().shape, before.shape + 1, "a view shows the switch too");
    apply(&mut session, Command::SetHidden { show: false });
    assert_eq!(session.cursor().shape, before.shape + 1);
}

#[test]
fn toggling_open_puts_away_a_file_that_went_meanwhile() {
    let mut session = session(vec![entry("sub", true)]);
    let sub = at("/root/sub");
    session.apply(Command::Toggle { path: sub.clone() });
    session.feed(listing(vec![entry("inside.txt", false)]));
    apply(&mut session, Command::View { path: Some(at("/root/sub/inside.txt")) });
    apply(&mut session, Command::Toggle { path: sub.clone() });
    assert_eq!(session.cursor().viewing, None, "it has no row");
    assert!(session.tree.viewing.is_some(), "but is still up");
    session.apply(Command::Toggle { path: sub });
    session.feed(Vec::new());
    assert!(session.tree.viewing.is_none());
    assert_eq!(session.cursor().view_line, 0);
}

#[test]
fn hiding_dotfiles_reads_everything_again() {
    let mut session = session(vec![entry(".env", false), entry("a.txt", false)]);
    assert!(session.snapshot().show_hidden);
    session.apply(Command::SetHidden { show: false });
    let mut read = 0;
    while session.reading().is_some() {
        let opts = session.tree.opts;
        session.feed(read_dir(Some(vec![entry(".env", false), entry("a.txt", false)]), &opts));
        read += 1;
    }
    assert_eq!(read, 1);
    let snap = session.snapshot();
    assert!(!snap.show_hidden);
    assert_eq!(snap.rows.len(), 2);
    assert_eq!(snap.rows[1].name, "a.txt");
}

#[test]
fn scrolling_and_closing_a_file() {
    let mut session = session(vec![entry("a.txt", false)]);
    apply(&mut session, Command::View { path: Some(at("/root/a.txt")) });
    apply(&mut session, Command::ScrollView { line: 40 });
    assert_eq!(session.snapshot().view_line, 40);
    assert_eq!(session.snapshot().selected, Some(1), "showing one selects it too");
    // A late command about something that is gone changes nothing.
    let before = session.cursor();
    apply(&mut session, Command::View { path: Some(at("/root/gone.txt")) });
    assert_eq!(session.cursor(), before);
    apply(&mut session, Command::View { path: None });
    assert_eq!(session.snapshot().viewing, None);
}

#[test]
fn collapsing_and_refreshing() {
    let mut session = session(vec![entry("sub", true)]);
    session.apply(Command::ExpandDepth { depth: 2 });
    while session.reading().is_some() {
        session.feed(listing(vec![entry("x.txt", false)]));
    }
    assert_eq!(session.snapshot().rows.len(), 3);
    apply(&mut session, Command::Collapse { path: at("/root/sub") });
    assert_eq!(session.snapshot().rows.len(), 2);
    apply(&mut session, Command::CollapseAll);
    session.apply(Command::RefreshPath { path: at("/root/new.txt"), is_dir: false });
    session.feed(listing(vec![entry("sub", true), entry("new.txt", false)]));
    assert_eq!(session.snapshot().rows.len(), 3);
    session.apply(Command::RefreshSubtree { path: at("/root") });
    while let Some(id) = session.reading() {
        let top = id == session.tree.root();
        session.feed(if top { listing(vec![entry("sub", true)]) } else { Vec::new() });
    }
    assert_eq!(session.snapshot().rows.len(), 2);
    session.apply(Command::Refresh);
    while session.reading().is_some() {
        session.feed(Vec::new());
    }
    assert_eq!(session.snapshot().rows.len(), 1);
}

#[test]
fn what_may_block_is_what_reads() {
    assert!(Command::Refresh.may_block());
    assert!(Command::SetHidden { show: true }.may_block());
    assert!(Command::Toggle { path: at("/") }.may_block());
    assert!(!Command::MoveSelection { delta: 1 }.may_block());
    assert!(!Command::CollapseAll.may_block());
    assert!(!Command::View { path: None }.may_block());
}
