//! The model: opening, reading, refreshing, selecting.

use std::collections::{BTreeMap, BTreeSet};

use treex::git::{consulted, Reply};
use treex::path::TreePath;
use treex::scan::{mark_ignored, names_to_ask, read_dir, Entry, Found, Target};
use treex::tree::{Kind, Refresh, Resolved};
use treex::{Error, NodeId, Row, ScanOptions, Tree};

/// A disk that is only a list of paths, with what git would say about them.
struct Disk {
    /// Whether each path is a directory.
    paths: BTreeMap<String, bool>,
    /// What has been written to the files that are not empty.
    contents: BTreeMap<String, String>,
    /// Which paths are reached through a link.
    links: BTreeSet<String>,
    /// What git calls ignored, by name, and nothing where there is no git.
    rules: Option<Vec<String>>,
}

impl Disk {
    fn new() -> Disk {
        Disk { paths: BTreeMap::new(), contents: BTreeMap::new(), links: BTreeSet::new(), rules: None }
    }

    fn dir(&mut self, path: &str) {
        self.paths.insert(path.to_string(), true);
    }

    fn file(&mut self, path: &str) {
        self.paths.insert(path.to_string(), false);
    }

    fn write(&mut self, path: &str, contents: &str) {
        self.file(path);
        self.contents.insert(path.to_string(), contents.to_string());
    }

    fn remove(&mut self, path: &str) {
        let below = format!("{path}/");
        self.paths.retain(|p, _| p != path && !p.starts_with(&below));
    }

    fn is_dir(&self, path: &str) -> bool {
        self.paths.get(path) == Some(&true)
    }

    fn found(&self, dir: &str) -> Option<Vec<Found>> {
        if !self.is_dir(dir) {
            return None;
        }
        let below = format!("{dir}/");
        let mut found = Vec::new();
        for (path, is_dir) in &self.paths {
            if let Some(name) = path.strip_prefix(&below) {
                if !name.contains('/') {
                    found.push(Found {
                        name: name.as_bytes().to_vec(),
                        link: Some(self.links.contains(path)),
                        target: Some(Target {
                            dir: *is_dir,
                            socket: false,
                            fifo: false,
                            char_device: false,
                            block_device: false,
                            size: self.contents.get(path).map_or(0, |c| c.len() as u64),
                        }),
                    });
                }
            }
        }
        Some(found)
    }

    /// What reading a directory gives, with git asked about it.
    fn list(&self, dir: &str, opts: &ScanOptions, parent_ignored: bool) -> Vec<Entry> {
        let mut entries = read_dir(self.found(dir), opts);
        let names = names_to_ask(&entries, opts, parent_ignored);
        let reply = self.rules.as_ref().map(|rules| {
            let mut out = Vec::new();
            for name in &names {
                if rules.iter().any(|r| r.as_bytes() == name.as_slice()) {
                    out.extend_from_slice(name);
                    out.push(0);
                }
            }
            Reply { code: Some(if out.is_empty() { 1 } else { 0 }), out }
        });
        let answer = consulted(self.rules.is_some(), &names, reply);
        mark_ignored(&mut entries, opts, parent_ignored, &answer);
        entries
    }

    /// What reading the directory of a node gives.
    fn read(&self, tree: &Tree, id: NodeId) -> Vec<Entry> {
        let node = tree.node(id);
        if !node.is_dir() {
            return Vec::new();
        }
        self.list(&text(&node.path), &tree.opts, node.ignored)
    }

    fn open(&self, path: &str, opts: ScanOptions) -> Result<Tree, Error> {
        let found = match self.paths.get(path) {
            None => Resolved::Missing("no such file or directory".to_string()),
            Some(is_dir) => Resolved::Found { path: at(path), is_dir: *is_dir, size: 1 },
        };
        let listing = self.list(path, &opts, false);
        Tree::new(path.as_bytes(), found, opts, listing)
    }

    fn expand(&self, tree: &mut Tree, id: NodeId) {
        let listing = self.read(tree, id);
        tree.expand(id, listing);
    }

    fn refresh_path(&self, tree: &mut Tree, path: &str) {
        let is_dir = self.is_dir(path);
        let listing = match tree.refresh_target(&at(path), is_dir) {
            Some(id) => self.read(tree, id),
            None => Vec::new(),
        };
        tree.refresh_path(&at(path), is_dir, listing);
    }

    fn finish(&self, tree: &mut Tree, mut job: Refresh) {
        while let Some(id) = tree.refresh_next(&mut job) {
            let listing = self.read(tree, id);
            tree.refresh_step(&mut job, listing);
        }
        tree.refresh_done(&job);
    }

    fn open_to(&self, tree: &mut Tree, id: NodeId) {
        while let Some(first) = tree.reveal_node(id) {
            self.expand(tree, first);
        }
    }
}

fn at(path: &str) -> TreePath {
    TreePath::parse(path.as_bytes())
}

fn text(path: &TreePath) -> String {
    String::from_utf8(path.text()).unwrap()
}

fn id(tree: &Tree, path: &str) -> NodeId {
    tree.id_for_path(&at(path)).unwrap()
}

fn names(tree: &Tree) -> Vec<String> {
    tree.rows().iter().map(|r| r.name.clone()).collect()
}

fn has(tree: &Tree, name: &str) -> bool {
    names(tree).contains(&name.to_string())
}

fn viewing(tree: &Tree) -> Option<String> {
    tree.viewing.as_ref().map(text)
}

fn live(tree: &Tree) -> Vec<String> {
    tree.live_dirs().iter().map(text).collect()
}

fn named(tree: &Tree, name: &str) -> Row {
    tree.rows()
        .into_iter()
        .find(|r| r.name == name)
        .unwrap_or_else(|| panic!("no row {name}"))
}

fn fixture() -> (Disk, Tree) {
    let mut disk = Disk::new();
    disk.dir("/root");
    disk.dir("/root/a");
    disk.dir("/root/a/b");
    disk.file("/root/a/b/deep.txt");
    disk.file("/root/a/one.txt");
    disk.file("/root/top.txt");
    let tree = disk.open("/root", ScanOptions::default()).unwrap();
    (disk, tree)
}

#[test]
fn a_root_reached_through_a_symlink_still_answers_by_its_own_paths() {
    let mut disk = Disk::new();
    disk.dir("/tmp/real");
    disk.file("/tmp/real/inside.txt");

    // What `/tmp/link` resolves to.
    let opts = ScanOptions::default();
    let found = Resolved::Found { path: at("/tmp/real"), is_dir: true, size: 1 };
    let listing = disk.list("/tmp/real", &opts, false);
    let tree = Tree::new(b"/tmp/link", found, opts, listing).unwrap();
    let root = text(tree.root_path());

    assert!(root.ends_with("real"), "the root resolves to its target: {root:?}");
    assert!(
        tree.id_for_path(&tree.root_path().join(b"inside.txt".to_vec())).is_some(),
        "a child is addressable by the path the tree reports"
    );
    assert!(
        tree.id_for_path(&at("/tmp/link/inside.txt")).is_none(),
        "and not by the path it was opened with"
    );
}

#[test]
fn a_path_joined_the_way_the_browser_joins_it_finds_its_node() {
    let (disk, mut tree) = fixture();
    let a = id(&tree, "/root/a");
    disk.expand(&mut tree, a);

    let rebuilt = format!("{}/a/one.txt", text(tree.root_path()));
    assert!(
        tree.id_for_path(&at(&rebuilt)).is_some(),
        "the browser's own path did not resolve: {rebuilt}"
    );
}

#[test]
fn a_file_is_not_something_to_browse() {
    let mut disk = Disk::new();
    disk.file("/root/a.txt");
    match disk.open("/root/a.txt", ScanOptions::default()).err() {
        Some(Error::NotADirectory(p)) => assert!(text(&p).ends_with("a.txt")),
        other => panic!("expected NotADirectory, got {other:?}"),
    }
}

#[test]
fn a_missing_path_says_which_one() {
    let err = Disk::new()
        .open("/no/such/place", ScanOptions::default())
        .err()
        .expect("a missing path must not open");
    assert!(err.message().contains("/no/such/place"), "{err:?}");
}

#[test]
fn every_error_says_what_went_wrong() {
    let open = Error::Open { path: b"/a".to_vec(), source: "denied".to_string() };
    assert_eq!(open.message(), "cannot open /a");
    assert_eq!(Error::NotADirectory(at("/a/b")).message(), "/a/b is not a directory");
    assert_eq!(Error::Io("broken pipe".to_string()).message(), "broken pipe");

    // One that resolves and still cannot be looked at is named as it resolved.
    let found = Resolved::Unreadable(at("/real"), "denied".to_string());
    let err = Tree::new(b"/link", found, ScanOptions::default(), Vec::new()).err().unwrap();
    assert_eq!(err.message(), "cannot open /real");
}

#[test]
fn root_starts_expanded_children_do_not() {
    let (_d, tree) = fixture();
    let rows = tree.rows();
    // root + a + top.txt
    assert_eq!(rows.len(), 3);
    assert_eq!(rows[1].name, "a");
    assert!(!rows[1].expanded);
}

#[test]
fn dirs_sort_before_files() {
    let (_d, tree) = fixture();
    let rows = tree.rows();
    assert!(rows[1].is_dir());
    assert!(!rows[2].is_dir());
}

#[test]
fn expanding_reveals_children_lazily() {
    let (disk, mut tree) = fixture();
    let a = id(&tree, "/root/a");
    assert!(!tree.node(a).loaded);
    disk.expand(&mut tree, a);
    assert!(tree.node(a).loaded);
    assert!(has(&tree, "b"));
    assert!(has(&tree, "one.txt"));
    // b itself is still collapsed, so deep.txt stays hidden
    assert!(!has(&tree, "deep.txt"));
}

#[test]
fn refresh_preserves_expansion_state() {
    let (mut disk, mut tree) = fixture();
    let a = id(&tree, "/root/a");
    disk.expand(&mut tree, a);
    let b = id(&tree, "/root/a/b");
    disk.expand(&mut tree, b);

    disk.file("/root/a/two.txt");
    disk.refresh_path(&mut tree, "/root/a/two.txt");

    assert!(has(&tree, "two.txt"));
    // deep.txt is only visible if b stayed expanded across the reconcile
    assert!(has(&tree, "deep.txt"));
    assert_eq!(id(&tree, "/root/a/b"), b, "and it is the same node");
}

#[test]
fn deleted_entries_disappear_and_free_their_subtree() {
    let (mut disk, mut tree) = fixture();
    let a = id(&tree, "/root/a");
    disk.expand(&mut tree, a);
    let b = id(&tree, "/root/a/b");
    disk.expand(&mut tree, b);

    disk.remove("/root/a/b");
    disk.refresh_path(&mut tree, "/root/a/b");

    assert!(tree.id_for_path(&at("/root/a/b")).is_none());
    assert!(tree.id_for_path(&at("/root/a/b/deep.txt")).is_none());
    assert!(tree.get(b).is_none());
}

#[test]
fn writes_outside_the_tree_do_not_bump_the_revision() {
    let (mut disk, mut tree) = fixture();
    // `a` exists but was never expanded, so nothing inside it is visible.
    disk.dir("/root/a/b/deeper");
    let before = tree.revision;

    disk.file("/root/a/b/deeper/noise.txt");
    disk.refresh_path(&mut tree, "/root/a/b/deeper/noise.txt");
    disk.refresh_path(&mut tree, "/root/a/b/deeper");

    assert_eq!(
        tree.revision, before,
        "a write under an unlisted directory redrew every view"
    );
}

#[test]
fn touching_a_visible_file_without_changing_the_listing_is_not_a_change() {
    let (mut disk, mut tree) = fixture();
    let before = tree.revision;
    disk.write("/root/top.txt", "different contents");
    disk.refresh_path(&mut tree, "/root/top.txt");
    assert_eq!(tree.revision, before);
    assert_eq!(named(&tree, "top.txt").size, 18, "the reading was taken in all the same");
}

#[test]
fn becoming_a_link_is_a_change() {
    let (mut disk, mut tree) = fixture();
    let (revision, shape) = (tree.revision, tree.shape);
    disk.links.insert("/root/top.txt".to_string());
    let root = tree.root();
    let listing = disk.read(&tree, root);
    assert!(tree.load_children(root, listing));
    assert!(named(&tree, "top.txt").symlink);

    // And back again, by way of a refresh.
    disk.links.clear();
    disk.refresh_path(&mut tree, "/root/top.txt");
    assert!(!named(&tree, "top.txt").symlink);
    assert_eq!((tree.revision, tree.shape), (revision + 1, shape + 1));
}

#[test]
fn opening_a_directory_puts_away_a_file_that_went_meanwhile() {
    let (mut disk, mut tree) = fixture();
    let a = id(&tree, "/root/a");
    disk.expand(&mut tree, a);
    let one = id(&tree, "/root/a/one.txt");
    tree.select(one);
    tree.scroll_view(5);
    tree.collapse(a);
    assert_eq!(viewing(&tree).as_deref(), Some("/root/a/one.txt"), "shutting it leaves the file up");

    disk.remove("/root/a/one.txt");
    disk.expand(&mut tree, a);
    assert_eq!(viewing(&tree), None);
    assert_eq!(tree.view_line, 0);
}

#[test]
fn shutting_what_is_shut_is_no_change() {
    let (disk, mut tree) = fixture();
    let a = id(&tree, "/root/a");
    let before = (tree.revision, tree.shape);
    tree.collapse(a);
    let top = id(&tree, "/root/top.txt");
    tree.collapse(top);
    tree.collapse_all();
    assert_eq!((tree.revision, tree.shape), before, "only the root was open");

    disk.expand(&mut tree, a);
    disk.expand(&mut tree, a);
    assert_eq!((tree.revision, tree.shape), (before.0 + 1, before.1 + 1), "opening it twice is opening it");
    tree.collapse_all();
    assert_eq!((tree.revision, tree.shape), (before.0 + 2, before.1 + 2));

    // A root that was shut opens again.
    let root = tree.root();
    tree.collapse(root);
    assert_eq!(tree.rows().len(), 1);
    tree.collapse_all();
    assert_eq!(tree.rows().len(), 3);
    assert_eq!((tree.revision, tree.shape), (before.0 + 4, before.1 + 4));
}

#[test]
fn a_change_out_of_sight_is_not_a_reshape() {
    let (mut disk, mut tree) = fixture();
    let a = id(&tree, "/root/a");
    disk.expand(&mut tree, a);
    let b = id(&tree, "/root/a/b");
    disk.expand(&mut tree, b);
    tree.collapse(a);
    let (revision, shape) = (tree.revision, tree.shape);
    let rows = tree.rows().len();

    // `b` has no row while `a` is shut.
    assert!(!tree.on_screen(b));
    tree.collapse(b);
    disk.expand(&mut tree, b);
    disk.file("/root/a/b/new.txt");
    disk.refresh_path(&mut tree, "/root/a/b/new.txt");
    assert_eq!(tree.revision, revision + 3, "each was a change");
    assert_eq!(tree.shape, shape, "and none was drawn");
    assert_eq!(tree.rows().len(), rows);

    // Nor does reading everything again redraw what it finds as it was.
    let job = tree.refresh_all();
    disk.finish(&mut tree, job);
    assert_eq!((tree.revision, tree.shape), (revision + 3, shape));

    disk.expand(&mut tree, a);
    assert_eq!(tree.shape, shape + 1);
    assert!(has(&tree, "new.txt"));
}

#[test]
fn shutting_and_opening_again_gives_the_rows_back() {
    let (disk, mut tree) = fixture();
    let a = id(&tree, "/root/a");
    disk.expand(&mut tree, a);
    let b = id(&tree, "/root/a/b");
    disk.expand(&mut tree, b);
    let before: Vec<(NodeId, String, usize, bool)> =
        tree.rows().into_iter().map(|r| (r.id, r.name, r.depth, r.expanded)).collect();
    assert_eq!(before.len(), 6);

    tree.collapse(a);
    assert_eq!(tree.rows().len(), 3);
    disk.expand(&mut tree, a);
    let after: Vec<(NodeId, String, usize, bool)> =
        tree.rows().into_iter().map(|r| (r.id, r.name, r.depth, r.expanded)).collect();
    assert_eq!(after, before);
}

#[test]
fn a_new_entry_in_a_visible_directory_still_registers() {
    let (mut disk, mut tree) = fixture();
    let before = tree.revision;
    disk.dir("/root/fresh");
    disk.refresh_path(&mut tree, "/root/fresh");

    assert_ne!(tree.revision, before);
    assert!(has(&tree, "fresh"));
}

#[test]
fn a_huge_directory_is_truncated_and_says_so() {
    let mut disk = Disk::new();
    disk.dir("/root");
    for i in 0..50 {
        disk.file(&format!("/root/f{i:03}"));
    }
    let opts = ScanOptions { max_entries: 10, ..ScanOptions::default() };
    let tree = disk.open("/root", opts).unwrap();
    let rows = tree.rows();

    assert_eq!(rows.len(), 11, "root plus ten entries");
    assert_eq!(rows[0].omitted, 40);
    assert!(rows[1..].iter().all(|r| r.omitted == 0));
}

#[test]
fn visible_index_agrees_with_the_flattened_rows() {
    let (disk, mut tree) = fixture();
    let a = id(&tree, "/root/a");
    disk.expand(&mut tree, a);
    let b = id(&tree, "/root/a/b");
    disk.expand(&mut tree, b);

    // The cheap walk must land exactly where building the rows would.
    let rows = tree.rows();
    for (i, row) in rows.iter().enumerate() {
        assert_eq!(tree.visible_index(row.id), Some(i), "{}", row.name);
    }

    tree.collapse(a);
    let hidden = id(&tree, "/root/a/b");
    assert_eq!(tree.visible_index(hidden), None, "a collapsed row has no index");
}

#[test]
fn live_dirs_covers_exactly_what_is_drawn() {
    let (disk, mut tree) = fixture();
    assert_eq!(live(&tree), vec!["/root".to_string()]);

    let a = id(&tree, "/root/a");
    disk.expand(&mut tree, a);
    let dirs = live(&tree);
    assert_eq!(dirs.len(), 2, "{dirs:?}");
    assert!(dirs.contains(&"/root/a".to_string()));
    // `a/b` is listed but collapsed, so its own contents are not drawn.
    assert!(!dirs.contains(&"/root/a/b".to_string()));

    tree.collapse(a);
    assert_eq!(live(&tree), vec!["/root".to_string()]);
}

#[test]
fn a_directory_open_inside_a_shut_one_is_not_live() {
    let (disk, mut tree) = fixture();
    let a = id(&tree, "/root/a");
    disk.expand(&mut tree, a);
    let b = id(&tree, "/root/a/b");
    disk.expand(&mut tree, b);
    assert_eq!(live(&tree).len(), 3);
    tree.collapse(a);
    assert!(tree.node(b).expanded);
    assert_eq!(live(&tree), vec!["/root".to_string()]);
    disk.expand(&mut tree, a);
    assert_eq!(live(&tree).len(), 3);

    let root = tree.root();
    tree.collapse(root);
    assert!(live(&tree).is_empty(), "nothing is listed on screen");
}

#[test]
fn reopening_a_collapsed_directory_picks_up_what_changed_meanwhile() {
    let (mut disk, mut tree) = fixture();
    let a = id(&tree, "/root/a");
    disk.expand(&mut tree, a);
    tree.collapse(a);

    // Nothing is watching `a` while it is shut.
    disk.file("/root/a/while-closed.txt");
    disk.expand(&mut tree, a);
    assert!(has(&tree, "while-closed.txt"), "{:?}", names(&tree));
}

#[test]
fn the_cursor_shows_files_and_a_directory_leaves_the_last_one_up() {
    let (_disk, mut tree) = fixture();
    let top = id(&tree, "/root/top.txt");

    // A file is shown by being selected; there is no second step.
    tree.select(top);
    assert_eq!(viewing(&tree).as_deref(), Some("/root/top.txt"));

    // A directory has nothing of its own to show, so what is on screen
    // stays on screen.
    let a = id(&tree, "/root/a");
    tree.select(a);
    assert_eq!(
        viewing(&tree).as_deref(),
        Some("/root/top.txt"),
        "a directory blanked the pane instead of leaving it alone"
    );

    // ...and working that pane puts the cursor back on the file it shows.
    tree.select_viewed();
    assert_eq!(tree.selected, top);
}

#[test]
fn selecting_the_row_already_under_the_cursor_keeps_reading() {
    let (_disk, mut tree) = fixture();
    let top = id(&tree, "/root/top.txt");
    tree.select(top);
    tree.view(Some(at("/root/top.txt")));

    tree.select(top);
    assert_eq!(viewing(&tree).as_deref(), Some("/root/top.txt"));
}

#[test]
fn the_scroll_line_belongs_to_the_file_and_starts_at_its_top() {
    let (_disk, mut tree) = fixture();

    // Nothing is open, so there is nothing to scroll.
    tree.scroll_view(12);
    assert_eq!(tree.view_line, 0);
    let quiet = tree.revision;

    tree.view(Some(at("/root/top.txt")));
    let shape = tree.shape;
    tree.scroll_view(12);
    assert_eq!(tree.view_line, 12);
    assert!(tree.revision > quiet, "a scroll is a change every view sees");
    assert_eq!(tree.shape, shape, "but it is not a reshape: the rows are the same");

    // The same line again is not news.
    let settled = tree.revision;
    tree.scroll_view(12);
    assert_eq!(tree.revision, settled);

    // Another file opens at its own top, not where the last one was left.
    tree.view(Some(at("/root/a")));
    assert_eq!(tree.view_line, 0);
}

#[test]
fn a_scroll_line_belongs_to_the_file_that_is_up() {
    let (disk, mut tree) = fixture();
    let top = id(&tree, "/root/top.txt");
    tree.select(top);
    tree.scroll_view(30);

    // Onto a directory: the file stays up, and so does where it was left.
    let dir = id(&tree, "/root/a");
    tree.select(dir);
    assert_eq!(tree.view_line, 30);

    // Onto another file: a different file starts at its own top.
    disk.expand(&mut tree, dir);
    let other = id(&tree, "/root/a/one.txt");
    tree.select(other);
    assert_eq!(viewing(&tree).as_deref(), Some("/root/a/one.txt"));
    assert_eq!(tree.view_line, 0);
}

#[test]
fn what_git_ignores_is_dimmed_all_the_way_down() {
    let mut disk = Disk::new();
    disk.rules = Some(vec!["build".to_string()]);
    disk.dir("/root");
    disk.dir("/root/.git");
    disk.file("/root/.gitignore");
    disk.dir("/root/build");
    disk.dir("/root/build/deep");
    disk.file("/root/build/deep/thing.txt");
    disk.file("/root/kept.txt");

    let mut tree = disk.open("/root", ScanOptions::default()).unwrap();
    assert!(named(&tree, "build").ignored);
    assert!(named(&tree, ".git").ignored, "the repository's own directory");
    assert!(!named(&tree, "kept.txt").ignored);
    assert!(!named(&tree, ".gitignore").ignored);

    // Down two levels, without git being asked again.
    disk.rules = None;
    let build = id(&tree, "/root/build");
    disk.expand(&mut tree, build);
    let deep = id(&tree, "/root/build/deep");
    disk.expand(&mut tree, deep);
    assert!(named(&tree, "deep").ignored);
    assert!(named(&tree, "thing.txt").ignored);
}

#[test]
fn a_changed_rule_file_redraws_the_subtree_it_governs() {
    let mut disk = Disk::new();
    disk.rules = Some(Vec::new());
    disk.dir("/root");
    disk.file("/root/.gitignore");
    disk.file("/root/notes.log");

    let mut tree = disk.open("/root", ScanOptions::default()).unwrap();
    assert!(!named(&tree, "notes.log").ignored);

    // The listing is identical afterwards, which is exactly why the ordinary
    // refresh cannot be what notices this.
    disk.rules = Some(vec!["notes.log".to_string()]);
    let job = tree.refresh_subtree(&at("/root"));
    disk.finish(&mut tree, job);
    assert!(
        named(&tree, "notes.log").ignored,
        "a rewritten rule file left the tree stale"
    );

    // Rewritten to the same effect, it redraws nothing.
    let settled = tree.revision;
    let job = tree.refresh_subtree(&at("/root"));
    disk.finish(&mut tree, job);
    assert_eq!(tree.revision, settled);
}

#[test]
fn nothing_is_dimmed_where_git_has_no_answer() {
    let mut disk = Disk::new();
    disk.dir("/root");
    disk.dir("/root/.git");
    disk.file("/root/notes.log");
    // No git on the machine.
    let tree = disk.open("/root", ScanOptions::default()).unwrap();
    assert!(tree.rows().iter().all(|r| !r.ignored));

    // No repository there, whatever a directory is called.
    let names = vec![b".git".to_vec(), b"notes.log".to_vec()];
    let silent = Reply { code: Some(128), out: Vec::new() };
    assert!(consulted(true, &names, Some(silent)).is_none());
    // An empty answer is an answer.
    disk.rules = Some(Vec::new());
    let tree = disk.open("/root", ScanOptions::default()).unwrap();
    assert!(named(&tree, ".git").ignored);
    assert!(!named(&tree, "notes.log").ignored);
}

#[test]
fn dimming_can_be_switched_off() {
    let mut disk = Disk::new();
    disk.rules = Some(vec!["notes.log".to_string()]);
    disk.dir("/root");
    disk.dir("/root/.git");
    disk.file("/root/notes.log");

    let opts = ScanOptions { git_ignore: false, ..ScanOptions::default() };
    let tree = disk.open("/root", opts).unwrap();
    assert!(tree.rows().iter().all(|r| !r.ignored), "nothing should be dimmed");
}

#[test]
fn a_deleted_file_stops_being_the_one_on_screen() {
    let (mut disk, mut tree) = fixture();
    tree.view(Some(at("/root/top.txt")));

    disk.remove("/root/top.txt");
    disk.refresh_path(&mut tree, "/root/top.txt");
    assert!(tree.viewing.is_none(), "left showing a file that is gone");
}

#[test]
fn reveal_expands_ancestors() {
    let (disk, mut tree) = fixture();
    let a = id(&tree, "/root/a");
    disk.expand(&mut tree, a);
    let b = id(&tree, "/root/a/b");
    disk.expand(&mut tree, b);
    let deep = id(&tree, "/root/a/b/deep.txt");
    tree.collapse_all();
    assert_eq!(tree.rows().len(), 3, "only the root stays open");
    disk.open_to(&mut tree, deep);
    assert_eq!(tree.selected, deep);
    assert_eq!(tree.selected_row(&tree.rows()), Some(3));
}

#[test]
fn toggling_twice_leaves_a_directory_as_it_was() {
    let (disk, mut tree) = fixture();
    let a = id(&tree, "/root/a");
    let listing = disk.read(&tree, a);
    tree.toggle(a, listing);
    assert!(tree.node(a).expanded);
    tree.toggle(a, Vec::new());
    assert!(!tree.node(a).expanded);
    assert_eq!(tree.rows().len(), 3);
    // A file has nothing to toggle.
    let top = id(&tree, "/root/top.txt");
    let before = tree.revision;
    tree.toggle(top, Vec::new());
    assert_eq!(tree.revision, before);
}

#[test]
fn a_refresh_of_everything_keeps_what_is_still_there() {
    let (mut disk, mut tree) = fixture();
    let a = id(&tree, "/root/a");
    disk.expand(&mut tree, a);
    let one = id(&tree, "/root/a/one.txt");
    tree.select(one);

    disk.remove("/root/a/one.txt");
    disk.file("/root/new.txt");
    let job = tree.refresh_all();
    disk.finish(&mut tree, job);

    assert!(tree.node(a).expanded);
    assert!(has(&tree, "new.txt"));
    assert!(!has(&tree, "one.txt"));
    assert_eq!(tree.selected, tree.root(), "the cursor's node went away");
    assert!(tree.viewing.is_none());
}

#[test]
fn a_refresh_reads_only_directories_that_were_read_before() {
    for kind in ["file", "directory"] {
        let mut disk = Disk::new();
        disk.dir("/root");
        disk.dir("/root/p");
        disk.dir("/root/q");
        let mut tree = disk.open("/root", ScanOptions::default()).unwrap();
        let (p, q) = (id(&tree, "/root/p"), id(&tree, "/root/q"));
        disk.expand(&mut tree, p);
        disk.expand(&mut tree, q);

        // Reading the root frees `q`, and reading `p` puts something in its place
        // before its turn would have come.
        disk.remove("/root/q");
        if kind == "file" {
            disk.file("/root/p/new");
        } else {
            disk.dir("/root/p/new");
        }
        let mut job = tree.refresh_all();
        let mut read = Vec::new();
        while let Some(id) = tree.refresh_next(&mut job) {
            read.push(text(&tree.node(id).path));
            let listing = disk.read(&tree, id);
            tree.refresh_step(&mut job, listing);
        }
        tree.refresh_done(&job);
        assert_eq!(read, vec!["/root", "/root/p"], "{kind}");
        let new = id(&tree, "/root/p/new");
        assert_eq!(new, q, "it took the slot over");
        assert!(!tree.node(new).loaded, "{kind}");
    }
}

#[test]
fn every_directory_down_to_a_level_is_opened() {
    let (disk, mut tree) = fixture();
    let root = tree.root();
    assert_eq!(tree.expand_due(root, 1), None, "the root is open already");
    let mut next = tree.expand_due(root, 3);
    while let Some(due) = next {
        let listing = disk.read(&tree, due);
        next = tree.expand_to_depth(root, 3, listing);
    }
    assert_eq!(
        names(&tree),
        vec!["root", "a", "b", "deep.txt", "one.txt", "top.txt"]
    );
    let last: Vec<bool> = tree.rows().iter().map(|r| r.last).collect();
    assert_eq!(last, vec![true, false, false, true, true, true]);
    let depth: Vec<usize> = tree.rows().iter().map(|r| r.depth).collect();
    assert_eq!(depth, vec![0, 1, 2, 3, 2, 1]);
}

#[test]
fn a_row_packs_its_kind_and_flags() {
    let (disk, mut tree) = fixture();
    let a = id(&tree, "/root/a");
    disk.expand(&mut tree, a);
    let row = |kind, ignored, symlink, expanded| {
        let mut row = named(&tree, "a");
        row.kind = kind;
        row.ignored = ignored;
        row.symlink = symlink;
        row.expanded = expanded;
        row.packed()
    };
    assert_eq!(row(Kind::Dir, false, false, true) & 1, 1);
    assert_eq!(row(Kind::Dir, false, true, false) & 2, 2);
    assert_eq!(row(Kind::Dir, true, false, false) & 4, 4);
    assert_eq!(row(Kind::File, true, true, true) >> 3, Kind::File.code());
    assert_eq!(row(Kind::Broken, false, false, false), Kind::Broken.code() << 3);
}

#[test]
fn a_link_is_shown_as_what_it_points_at() {
    let target = |dir| Target {
        dir,
        socket: false,
        fifo: false,
        char_device: false,
        block_device: false,
        size: 7,
    };
    let found = vec![
        Found { name: b"to-dir".to_vec(), link: Some(true), target: Some(target(true)) },
        Found { name: b"to-nothing".to_vec(), link: Some(true), target: None },
        Found { name: b"gone".to_vec(), link: None, target: None },
        Found { name: b"Zed".to_vec(), link: Some(false), target: Some(target(false)) },
        Found { name: b"alpha".to_vec(), link: Some(false), target: Some(target(false)) },
        Found { name: b".hidden".to_vec(), link: Some(false), target: Some(target(false)) },
    ];
    let entries = read_dir(Some(found), &ScanOptions::default());
    let names: Vec<&[u8]> = entries.iter().map(|e| e.name.as_slice()).collect();
    // Directories first, then by name whatever its case.
    assert_eq!(
        names,
        vec![&b"to-dir"[..], &b".hidden"[..], &b"alpha"[..], &b"to-nothing"[..], &b"Zed"[..]]
    );
    assert!(entries[0].symlink && entries[0].kind == Kind::Dir);
    assert!(entries[3].symlink && entries[3].kind == Kind::Broken);

    let shown = ScanOptions { show_hidden: false, ..ScanOptions::default() };
    let found = vec![
        Found { name: b".env".to_vec(), link: Some(false), target: Some(target(false)) },
        Found { name: b"env".to_vec(), link: Some(false), target: Some(target(false)) },
    ];
    let entries = read_dir(Some(found), &shown);
    assert_eq!(entries.len(), 1);
    assert_eq!(entries[0].name, b"env".to_vec());

    assert!(read_dir(None, &shown).is_empty(), "an unreadable directory is empty");
}

#[test]
fn a_path_reads_back_as_it_was_written() {
    for spelled in ["/", "/a", "/a/b c/d", "a/b", ".", "./a", ".."] {
        assert_eq!(text(&at(spelled)), spelled);
    }
    assert_eq!(text(&at("/a//b/./c/")), "/a/b/c");
    assert_eq!(at("/").title(), "/");
    assert_eq!(at("/a/b").title(), "b");
    assert_eq!(at("a/..").title(), "a/..");
    assert_eq!(TreePath::parse(b"/a/\xff").title(), "\u{fffd}");
    assert!(at("/a/b").starts_with(&at("/a")));
    assert!(!at("/ab").starts_with(&at("/a")));
    assert!(at("/a/b").parent().unwrap().same(&at("/a")));
    assert!(at("/").parent().is_none());
}
