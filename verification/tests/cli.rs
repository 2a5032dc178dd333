//! The command line.

use treex::cli::{exposure_note, mode, parse_addr, port_note, print_tree, Listen, Mode};
use treex::path::TreePath;
use treex::shown::Row;
use treex::tree::Kind;
use treex::Snapshot;

/// What an address would be resolved as, written out.
fn written(s: &str) -> String {
    match parse_addr(s) {
        Ok(Listen::Loopback(port)) => format!("127.0.0.1:{port}"),
        Ok(Listen::Named(name)) => name,
        Err(reason) => panic!("{reason}"),
    }
}

#[test]
fn a_bare_port_means_loopback() {
    assert_eq!(written("11711"), "127.0.0.1:11711");
    assert_eq!(written(":11711"), "127.0.0.1:11711");
}

#[test]
fn a_host_and_port_is_taken_as_written() {
    assert_eq!(written("0.0.0.0:8080"), "0.0.0.0:8080");
    assert_eq!(written("127.0.0.1:9"), "127.0.0.1:9");
    assert_eq!(written("[::1]:80"), "[::1]:80");
}

#[test]
fn a_hostname_is_resolved() {
    match parse_addr("localhost:11711") {
        Ok(Listen::Named(name)) => assert_eq!(
            name.rsplit_once(':').unwrap().1,
            "11711",
            "localhost must resolve"
        ),
        other => panic!("{other:?}"),
    }
}

#[test]
fn nonsense_is_reported_rather_than_guessed() {
    for bad in ["", "not a port", "1.2.3.4", "99999", "host:notaport"] {
        assert!(parse_addr(bad).is_err(), "{bad:?} was accepted");
    }
    assert_eq!(parse_addr(":x").unwrap_err(), "cannot resolve 127.0.0.1:x");
}

fn row(depth: usize, name: &str, kind: Kind, last: bool, omitted: usize) -> Row {
    Row {
        id: 0,
        depth,
        name: name.to_string(),
        path: TreePath::parse(name.as_bytes()),
        kind,
        symlink: false,
        expanded: true,
        ignored: false,
        size: 0,
        last,
        omitted,
    }
}

#[test]
fn a_printed_tree_shows_where_more_follow() {
    let snapshot = Snapshot {
        revision: 0,
        shape: 0,
        root: TreePath::parse(b"/root"),
        rows: vec![
            row(0, "root", Kind::Dir, true, 12),
            row(1, "a", Kind::Dir, false, 0),
            row(2, "b", Kind::Dir, true, 0),
            row(3, "deep.txt", Kind::File, true, 0),
            row(1, "z", Kind::Dir, true, 7),
            row(2, "pipe", Kind::Fifo, true, 0),
        ],
        selected: None,
        viewing: None,
        view_line: 0,
        show_hidden: true,
    };
    assert_eq!(
        print_tree(&snapshot),
        vec![
            "/root  … 12 more not listed",
            "├── a/",
            "│   └── b/",
            "│       └── deep.txt",
            "└── z/  … 7 more not listed",
            "    └── pipe|",
        ]
    );
}

#[test]
fn which_way_to_run() {
    // print, no_tui, web, terminal
    assert_eq!(mode(true, false, true, true), Mode::Print);
    assert_eq!(mode(false, false, false, false), Mode::Print, "a pipe gets the tree");
    assert_eq!(mode(false, false, true, false), Mode::Headless);
    assert_eq!(mode(false, true, true, true), Mode::Headless);
    assert_eq!(mode(false, true, false, true), Mode::NothingToDo);
    assert_eq!(mode(false, false, false, true), Mode::Interactive);
    assert_eq!(mode(false, false, true, true), Mode::Interactive);
}

#[test]
fn what_a_server_that_came_up_says() {
    assert_eq!(port_note(80, 80), None);
    assert_eq!(port_note(80, 81).unwrap(), "treex: port 80 was taken, using 81");
    assert_eq!(exposure_note("127.0.0.1", true), None);
    assert!(exposure_note("0.0.0.0", false).unwrap().contains("0.0.0.0 is reachable"));
}
