//! The promise that matters: the terminal, every browser tab, and the
//! filesystem watcher all see one tree.

use std::collections::{BTreeMap, BTreeSet};

use treex::path::TreePath;
use treex::preview::{needs_reading, read, Looked, Stamp};
use treex::scan::{read_dir, Entry, Found, Target};
use treex::state::Cursor;
use treex::tree::{Resolved, Row};
use treex::watch::{affected, difference, Touched};
use treex::web::http::{head_step, read_request, Body, HeadStep, Request, Response};
use treex::web::{
    content_type, file_response, frame, json_response, raw_file, route, rpc, FileStep, Frame, Outbox, Owed, Route, Rpc,
    RpcStep,
};
use treex::{Command, Preview, PreviewOptions, ScanOptions, Session, Snapshot, Tree};

fn at(path: &str) -> TreePath {
    TreePath::parse(path.as_bytes())
}

fn text(path: &TreePath) -> String {
    String::from_utf8(path.text()).unwrap()
}

/// What is on disk, by absolute path.
struct Disk {
    dirs: BTreeSet<String>,
    files: BTreeMap<String, Vec<u8>>,
}

impl Disk {
    fn new() -> Self {
        Disk { dirs: BTreeSet::from(["/root".to_string()]), files: BTreeMap::new() }
    }

    fn dir(mut self, path: &str) -> Self {
        self.dirs.insert(format!("/root/{path}"));
        self
    }

    fn file(mut self, path: &str, content: &str) -> Self {
        self.write(path, content);
        self
    }

    fn write(&mut self, path: &str, content: &str) {
        self.files.insert(format!("/root/{path}"), content.as_bytes().to_vec());
    }

    fn remove(&mut self, path: &str) {
        self.files.remove(&format!("/root/{path}"));
    }

    fn list(&self, dir: &str, opts: &ScanOptions) -> Vec<Entry> {
        let below = |path: &String| {
            path.strip_prefix(dir)
                .and_then(|rest| rest.strip_prefix('/'))
                .filter(|name| !name.contains('/'))
                .map(|name| name.as_bytes().to_vec())
        };
        let found = |name: Vec<u8>, dir: bool, size: u64| Found {
            name,
            link: Some(false),
            target: Some(Target { dir, socket: false, fifo: false, char_device: false, block_device: false, size }),
        };
        let mut all: Vec<Found> = Vec::new();
        for path in &self.dirs {
            if let Some(name) = below(path) {
                all.push(found(name, true, 0));
            }
        }
        for (path, content) in &self.files {
            if let Some(name) = below(path) {
                all.push(found(name, false, content.len() as u64));
            }
        }
        read_dir(Some(all), opts)
    }

    fn session(&self) -> Session {
        let opts = ScanOptions::default();
        let listing = self.list("/root", &opts);
        let found = Resolved::Found { path: at("/root"), is_dir: true, size: 0 };
        Session::new(Tree::new(b"/root", found, opts, listing).unwrap())
    }

    /// Applies a command, reading what it asks for.
    fn apply(&self, session: &mut Session, cmd: Command) {
        session.apply(cmd);
        while let Some(id) = session.reading() {
            let dir = text(&session.tree.node(id).path);
            let listing = self.list(&dir, &session.tree.opts);
            session.feed(listing);
        }
    }

    /// What the watcher makes of something happening to a file.
    fn touched(&self, session: &mut Session, path: &str) {
        let path = format!("/root/{path}");
        let batch = vec![Touched { is_dir: self.dirs.contains(&path), path: at(&path), read: false }];
        let what = affected(&batch);
        for dir in what.listings {
            let is_dir = self.dirs.contains(&text(&dir));
            // Only what is drawn is watched at all.
            if session.tree.live_dirs().iter().any(|d| d.same(&dir)) {
                self.apply(session, Command::RefreshPath { path: dir, is_dir });
            }
        }
    }
}

/// What one browser tab knows: rows arrive in snapshots, the cursor arrives in
/// either kind of message.
struct Tab {
    outbox: Outbox,
    rows: Vec<Row>,
    selected: Option<usize>,
    viewing: Option<usize>,
    snapshots: usize,
    cursors: usize,
}

impl Tab {
    fn new() -> Self {
        Tab { outbox: Outbox::new(), rows: Vec::new(), selected: None, viewing: None, snapshots: 0, cursors: 0 }
    }

    fn catch_up(&mut self, session: &Session) {
        let cursor: Cursor = session.cursor();
        match self.outbox.next(&cursor) {
            Owed::Nothing => return,
            Owed::Cursor => self.cursors += 1,
            Owed::Snapshot => {
                self.rows = session.snapshot().rows;
                self.snapshots += 1;
            }
        }
        self.selected = cursor.selected;
        self.viewing = cursor.viewing;
        self.outbox.sent(&cursor);
    }

    fn named(&self, name: &str) -> Option<&Row> {
        self.rows.iter().find(|r| r.name == name)
    }

    fn at(&self, index: Option<usize>) -> Option<&Row> {
        index.and_then(|i| self.rows.get(i))
    }
}

// -- one server -----------------------------------------------------------

fn request(head: &str) -> Request {
    let buf = head.as_bytes().to_vec();
    match head_step(&buf) {
        HeadStep::Complete(end) => read_request(&buf, end).unwrap().request,
        other => panic!("{other:?}"),
    }
}

fn bytes(response: Response) -> (u16, String) {
    match response.body {
        Body::Bytes(body) => (response.status, String::from_utf8_lossy(&body).into_owned()),
        other => panic!("{other:?}"),
    }
}

/// A GET, answered.
fn get(disk: &Disk, session: &Session, preview: Option<PreviewOptions>, target: &str) -> (u16, String) {
    let request = request(&format!("GET {target} HTTP/1.1\r\nHost: localhost\r\n\r\n"));
    match route(&request) {
        Route::Page | Route::Favicon => (200, String::new()),
        Route::Reply(reply) => bytes(reply),
        Route::File => match raw_file(&request, preview, session) {
            FileStep::Reply(reply) => bytes(reply),
            FileStep::Open(path) => {
                let content = &disk.files[&text(&path)];
                let reply = file_response(&path, Some(content.len() as u64));
                (reply.status, String::from_utf8_lossy(content).into_owned())
            }
        },
        other => panic!("{other:?}"),
    }
}

/// A preview asked for over `/rpc`: the status, and the preview where there is
/// one.
fn preview_of(
    disk: &Disk,
    session: &Session,
    preview: Option<PreviewOptions>,
    path: &str,
) -> (u16, Option<Preview>) {
    match rpc(Some(Rpc::Preview { path: at(path), known: None }), preview, session) {
        RpcStep::Reply(reply) => (reply.status, None),
        RpcStep::Read { path, opts, known } => {
            let content = disk.files[&text(&path)].clone();
            let stamp = Stamp { size: content.len() as u64, mtime: 0 };
            let contents = if needs_reading(&Looked::File(stamp), &opts, known) { Ok(content) } else { Ok(Vec::new()) };
            (200, Some(read(Looked::File(stamp), &opts, known, contents)))
        }
        RpcStep::Snapshot => panic!("the tree was not asked for"),
    }
}

fn contents(preview: Option<Preview>) -> String {
    match preview {
        Some(Preview::Text { content, .. }) => content,
        other => panic!("{other:?}"),
    }
}

fn on() -> Option<PreviewOptions> {
    Some(PreviewOptions::default())
}

// -- one tree -------------------------------------------------------------

#[test]
fn a_command_from_one_browser_tab_reaches_another() {
    let disk = Disk::new().dir("sub").file("sub/inner.txt", "x");
    let mut session = disk.session();
    let (mut a, mut b) = (Tab::new(), Tab::new());
    a.catch_up(&session);
    b.catch_up(&session);

    disk.apply(&mut session, Command::Toggle { path: at("/root/sub") });

    b.catch_up(&session);
    assert!(b.named("inner.txt").is_some());
    assert!(b.named("sub").unwrap().expanded);
    a.catch_up(&session);
    assert!(a.named("inner.txt").is_some());
    assert_eq!(a.selected, b.selected);
}

#[test]
fn the_terminal_and_the_browser_share_one_selection() {
    let disk = Disk::new().file("a.txt", "x").file("b.txt", "x");
    let mut session = disk.session();
    let mut browser = Tab::new();
    browser.catch_up(&session);

    // Exactly what a key press in the terminal does.
    disk.apply(&mut session, Command::MoveSelection { delta: 2 });

    browser.catch_up(&session);
    assert_eq!(browser.selected, Some(2));
    assert_eq!(browser.at(browser.selected).unwrap().name, "b.txt");
}

#[test]
fn files_appearing_on_disk_reach_the_browser_unprompted() {
    let mut disk = Disk::new();
    let mut session = disk.session();
    let mut browser = Tab::new();
    browser.catch_up(&session);

    disk.write("appeared.txt", "x");
    disk.touched(&mut session, "appeared.txt");
    browser.catch_up(&session);
    assert!(browser.named("appeared.txt").is_some());

    disk.remove("appeared.txt");
    disk.touched(&mut session, "appeared.txt");
    browser.catch_up(&session);
    assert!(browser.named("appeared.txt").is_none());
}

/// The page reads rows positionally and rebuilds every path from depth-first
/// order. Both halves of that are load-bearing and neither fails loudly.
#[test]
fn rows_are_positional_and_carry_no_path() {
    let disk = Disk::new().dir("sub").dir("sub/deeper").file("sub/deeper/leaf.txt", "x");
    let mut session = disk.session();
    disk.apply(&mut session, Command::ExpandDepth { depth: 9 });
    let snapshot: Snapshot = session.snapshot();

    assert_eq!(snapshot.rows[0].depth, 0);
    // A directory is kind 0, with the expanded bit set.
    assert_eq!(snapshot.rows[0].packed(), 1);
    for row in &snapshot.rows {
        assert!(!row.name.contains('/'), "a path leaked onto the wire: {}", row.name);
    }

    // Rebuilt exactly as the page does it.
    let root = text(&snapshot.root);
    let mut ancestry: Vec<String> = Vec::new();
    let mut rebuilt = Vec::new();
    for row in &snapshot.rows {
        ancestry.truncate(row.depth);
        ancestry.push(row.name.clone());
        rebuilt.push(if row.depth == 0 {
            root.clone()
        } else {
            format!("{root}/{}", ancestry[1..=row.depth].join("/"))
        });
    }
    let leaf = snapshot.rows.iter().position(|r| r.name == "leaf.txt").unwrap();
    let kinds = ["d", "f", "s", "p", "c", "b", "!"];
    let packed = snapshot.rows[leaf].packed();
    assert_eq!(snapshot.rows[leaf].depth, 3);
    assert_eq!(kinds[(packed >> 3) as usize], "f");
    assert_eq!(packed & 2, 0, "not a symlink");
    assert_eq!(snapshot.rows[leaf].omitted, 0);
    assert_eq!(rebuilt[leaf], "/root/sub/deeper/leaf.txt", "rebuilt path does not match the real one");
}

/// Only drawn directories are watched, so the watch for a subdirectory has to
/// be registered at the moment it is expanded, not up front.
#[test]
fn expanding_a_directory_starts_watching_it() {
    let mut disk = Disk::new().dir("sub");
    let mut session = disk.session();
    let mut browser = Tab::new();
    browser.catch_up(&session);
    let watched = session.tree.live_dirs();

    // While `sub` is collapsed nothing inside it is drawn, so nothing watches it.
    disk.write("sub/before.txt", "x");
    disk.touched(&mut session, "sub/before.txt");
    browser.catch_up(&session);
    assert!(browser.named("before.txt").is_none());

    disk.apply(&mut session, Command::Expand { path: at("/root/sub") });

    // Expanding reads again, so the file written while it was shut is there...
    browser.catch_up(&session);
    assert!(browser.named("before.txt").is_some());

    // ...and the directory is now watched, with no further prompting.
    let fresh = difference(&session.tree.live_dirs(), &watched);
    assert_eq!(fresh.iter().map(text).collect::<Vec<_>>(), vec!["/root/sub"]);
    disk.write("sub/after.txt", "x");
    disk.touched(&mut session, "sub/after.txt");
    browser.catch_up(&session);
    assert!(browser.named("after.txt").is_some());
}

/// Contents are served, so authorization has to be airtight: the server may
/// well be bound to 0.0.0.0 with no other gate in front of it.
#[test]
fn file_contents_are_served_only_for_files_in_the_tree() {
    let disk = Disk::new().dir("shut").file("shut/hidden-away.txt", "secret").file("visible.txt", "hello");
    let mut session = disk.session();

    let (status, body) = preview_of(&disk, &session, on(), "/root/visible.txt");
    assert_eq!(status, 200);
    assert!(contents(body).contains("hello"));

    // Absolute path outside the root.
    assert_eq!(preview_of(&disk, &session, on(), "/etc/passwd").0, 404);
    // Traversal back out of the root.
    assert_eq!(preview_of(&disk, &session, on(), "/root/../../../etc/passwd").0, 404);
    // A directory is not a file.
    assert_eq!(preview_of(&disk, &session, on(), "/root/shut").0, 404);
    // Inside a directory nobody has expanded, so it is not in the tree at all.
    assert_eq!(preview_of(&disk, &session, on(), "/root/shut/hidden-away.txt").0, 404);

    // ...and it becomes readable exactly when it becomes visible.
    disk.apply(&mut session, Command::Expand { path: at("/root/shut") });
    let (status, body) = preview_of(&disk, &session, on(), "/root/shut/hidden-away.txt");
    assert_eq!(status, 200);
    assert!(contents(body).contains("secret"));

    // Shut again, it is out of sight and out of reach.
    disk.apply(&mut session, Command::Collapse { path: at("/root/shut") });
    assert_eq!(preview_of(&disk, &session, on(), "/root/shut/hidden-away.txt").0, 404);
}

#[test]
fn an_oversized_file_reports_the_limit_instead_of_its_contents() {
    let disk = Disk::new().file("big.txt", &"A".repeat(4096));
    let session = disk.session();
    let limit = Some(PreviewOptions { max_bytes: 1024 });
    match preview_of(&disk, &session, limit, "/root/big.txt") {
        (200, Some(Preview::TooLarge { size, limit })) => assert_eq!((size, limit), (4096, 1024)),
        other => panic!("{other:?}"),
    }
}

#[test]
fn previews_can_be_switched_off_entirely() {
    let disk = Disk::new().file("a.txt", "hello");
    let session = disk.session();
    let (status, body) = preview_of(&disk, &session, None, "/root/a.txt");
    assert_eq!(status, 403);
    assert!(body.is_none());
}

/// A click in the browser is one step, not two: it reads the file and takes the
/// cursor with it.
#[test]
fn opening_from_the_browser_also_moves_the_cursor() {
    let disk = Disk::new().dir("sub").file("a.txt", "x");
    let mut session = disk.session();
    disk.apply(&mut session, Command::View { path: Some(at("/root/a.txt")) });
    let snap = session.snapshot();
    assert!(snap.rows[snap.selected.unwrap()].path.same(&at("/root/a.txt")));
    assert!(snap.viewing.is_some());

    // A directory can never be the thing on show.
    disk.apply(&mut session, Command::View { path: Some(at("/root/sub")) });
    assert_eq!(session.snapshot().viewing, None);
}

/// A directory leaves the last file up; scrolling that file brings the cursor
/// back to it.
#[test]
fn working_the_pane_brings_the_cursor_back() {
    let disk = Disk::new().dir("sub").file("a.txt", "x");
    let mut session = disk.session();
    disk.apply(&mut session, Command::Select { path: at("/root/a.txt") });
    disk.apply(&mut session, Command::Select { path: at("/root/sub") });
    let cursor = session.cursor();
    assert_eq!((cursor.selected, cursor.viewing), (Some(1), Some(2)));

    disk.apply(&mut session, Command::ScrollView { line: 7 });
    let cursor = session.cursor();
    assert_eq!((cursor.selected, cursor.viewing, cursor.view_line), (Some(2), Some(2), 7));

    // The same again is not news.
    disk.apply(&mut session, Command::ScrollView { line: 7 });
    assert_eq!(session.cursor(), cursor);
}

/// Hiding dotfiles is shared state, not a per-view preference: `.` in the
/// terminal and the button in the browser are the same switch.
#[test]
fn either_side_can_hide_dotfiles_and_both_see_it() {
    let disk = Disk::new().file(".env", "x").file("visible.txt", "x");
    let mut session = disk.session();
    let mut browser = Tab::new();
    browser.catch_up(&session);
    assert!(browser.named(".env").is_some(), "dotfiles are shown by default");

    disk.apply(&mut session, Command::SetHidden { show: false });
    browser.catch_up(&session);
    assert!(browser.named(".env").is_none());
    assert!(browser.named("visible.txt").is_some());

    disk.apply(&mut session, Command::SetHidden { show: true });
    browser.catch_up(&session);
    assert!(browser.named(".env").is_some());
}

/// Files are also served under their own URL, so the browser can open one in a
/// tab. Same gate as the preview, and the same traversal story.
#[test]
fn files_are_served_under_their_own_path() {
    let mut disk = Disk::new()
        .dir("shut")
        .file("shut/inner.txt", "inner")
        .file("page.html", "<b>hi</b>")
        .file("pic.png", "PNG");
    let mut session = disk.session();

    let (status, body) = get(&disk, &session, on(), "/f/page.html");
    assert_eq!(status, 200);
    assert!(body.contains("<b>hi</b>"), "{body}");
    assert!(!get(&disk, &session, on(), "/f/pic.png").1.is_empty());

    // The prefix is what keeps awkwardly named files reachable.
    disk.write("ws", "a file called ws");
    disk.apply(&mut session, Command::Refresh);
    let (status, body) = get(&disk, &session, on(), "/f/ws");
    assert_eq!(status, 200);
    assert!(body.contains("a file called ws"), "{body}");

    assert_eq!(get(&disk, &session, on(), "/").0, 200);
    assert_eq!(get(&disk, &session, on(), "/favicon.svg").0, 200);
    assert!(matches!(rpc(Some(Rpc::Tree), on(), &session), RpcStep::Snapshot));

    // Everything the preview refuses, this refuses too. A literal `..` never
    // reaches the tree lookup: it is rejected as a malformed path first, which
    // is why this is 400 rather than 404.
    assert_eq!(get(&disk, &session, on(), "/f/../../../etc/passwd").0, 400);
    // A client that normalized the path lands on the tree check instead.
    assert_eq!(get(&disk, &session, on(), "/f/etc/passwd").0, 404);
    assert_eq!(get(&disk, &session, on(), "/f/shut").0, 404);
    let (status, body) = get(&disk, &session, on(), "/f/shut/inner.txt");
    assert_eq!(status, 404, "a file in a collapsed directory was served");
    assert!(!body.contains("inner"));

    disk.apply(&mut session, Command::Expand { path: at("/root/shut") });
    let (status, body) = get(&disk, &session, on(), "/f/shut/inner.txt");
    assert_eq!(status, 200);
    assert!(body.contains("inner"), "{body}");
}

#[test]
fn no_preview_also_closes_the_static_route() {
    let disk = Disk::new().file("a.txt", "hello");
    let session = disk.session();
    let (status, body) = get(&disk, &session, None, "/f/a.txt");
    assert_eq!(status, 403);
    assert!(!body.contains("hello"), "{body}");
}

/// HTML and SVG execute scripts when opened as a top-level document. Served
/// from treex's own origin they could drive the tree and read every visible
/// file, so every raw response is sandboxed.
#[test]
fn raw_responses_cannot_script_against_treex() {
    for name in ["evil.html", "evil.svg"] {
        let reply = file_response(&at(&format!("/root/{name}")), Some(10));
        assert_eq!(reply.status, 200);
        let policy = reply.headers.iter().find(|h| h.0 == "content-security-policy").unwrap();
        assert!(policy.1.starts_with("sandbox"), "{name} was served without a sandbox");
    }
    assert_eq!(file_response(&at("/root/evil.html"), None).status, 404);
}

/// Extensions the browser can do something better than plain text with.
#[test]
fn structured_text_gets_its_own_content_type() {
    for (name, expected) in [
        ("a.json", "application/json"),
        ("a.yaml", "application/yaml"),
        ("a.yml", "application/yaml"),
        ("a.csv", "text/csv; charset=utf-8"),
        ("a.xml", "application/xml"),
        ("a.css", "text/css; charset=utf-8"),
        ("a.js", "text/javascript; charset=utf-8"),
        ("a.md", "text/markdown; charset=utf-8"),
        ("a.toml", "application/toml"),
        // No registered type exists for these, so plain text is the accurate
        // answer, not a cop-out.
        ("a.rs", "text/plain; charset=utf-8"),
        ("noext", "text/plain; charset=utf-8"),
        ("a.MD", "text/markdown; charset=utf-8"),
        (".json", "text/plain; charset=utf-8"),
        ("a.png", "image/png"),
        ("a.tar.gz", "application/gzip"),
    ] {
        assert_eq!(content_type(&at(name)), expected, "{name} was not served as {expected}");
    }
}

/// Moving the cursor must not cost a whole tree. On a large checkout the full
/// snapshot runs to hundreds of kilobytes, and a keypress that resends it is
/// unusable over a phone connection.
#[test]
fn a_cursor_move_does_not_resend_the_tree() {
    let mut disk = Disk::new().dir("deep");
    for i in 0..300 {
        disk.write(&format!("deep/file-{i:04}.txt"), "x");
    }
    let mut session = disk.session();
    disk.apply(&mut session, Command::ExpandDepth { depth: 2 });
    let mut browser = Tab::new();
    browser.catch_up(&session);
    assert!(browser.rows.len() > 300);
    assert_eq!((browser.snapshots, browser.cursors), (1, 0));

    disk.apply(&mut session, Command::MoveSelection { delta: 1 });
    browser.catch_up(&session);
    assert_eq!(browser.selected, Some(1));
    assert_eq!((browser.snapshots, browser.cursors), (1, 1), "the rows came along anyway");
    browser.catch_up(&session);
    assert_eq!((browser.snapshots, browser.cursors), (1, 1), "nothing happened");

    // Reshaping still sends everything, because the client has nothing else.
    disk.apply(&mut session, Command::CollapseAll);
    browser.catch_up(&session);
    assert_eq!(browser.snapshots, 2);
    assert_eq!(browser.rows.len(), 2, "root and `deep`");
}

/// Compression is done a layer above the socket: large messages go out deflated
/// in a binary frame, small ones as text.
#[test]
fn large_snapshots_are_compressed_and_small_ones_are_not() {
    match frame("x".repeat(4096)) {
        Frame::Text(json) => assert_eq!(json.len(), 4096),
        other => panic!("{other:?}"),
    }
    let json = "[2,\"file-0001.txt\",8],".repeat(400);
    match frame(json.clone()) {
        Frame::Binary(packed) => {
            assert!(packed.len() * 2 < json.len(), "compression bought nothing");
            let mut back = String::new();
            let mut unpack = flate2::read::DeflateDecoder::new(packed.as_slice());
            std::io::Read::read_to_string(&mut unpack, &mut back).unwrap();
            assert_eq!(back, json);
        }
        other => panic!("{other:?}"),
    }
}

/// Previews travel over HTTP, where gzip is the encoding browsers agree on.
#[test]
fn large_previews_are_gzipped_when_the_caller_accepts_it() {
    let asks = request("POST /rpc HTTP/1.1\r\naccept-encoding: gzip\r\n\r\n");
    let plain = request("POST /rpc HTTP/1.1\r\n\r\n");
    let encoded = |r: &Response| r.headers.iter().any(|h| h.0 == "content-encoding" && h.1 == "gzip");
    let body = "treex ".repeat(4000).into_bytes();

    assert!(!encoded(&json_response(Some(body.clone()), &plain)));
    let packed = json_response(Some(body.clone()), &asks);
    assert!(encoded(&packed), "a large preview was not compressed");
    match packed.body {
        Body::Bytes(bytes) => {
            let mut back = Vec::new();
            std::io::Read::read_to_end(&mut flate2::read::GzDecoder::new(bytes.as_slice()), &mut back).unwrap();
            assert_eq!(back, body);
        }
        other => panic!("{other:?}"),
    }

    // Below the threshold it is not worth the bytes it would add.
    assert!(!encoded(&json_response(Some(b"hello".to_vec()), &asks)));
    assert!(!encoded(&json_response(Some(vec![b'x'; 4096]), &asks)));
    assert_eq!(json_response(None, &asks).status, 500);
}

/// A directory that was never opened serves nothing, however deep.
#[test]
fn nothing_below_an_unopened_directory_can_be_read() {
    let disk = Disk::new().dir("shut").dir("shut/deeper").file("shut/deeper/leaf.txt", "x");
    let mut session = disk.session();
    assert_eq!(get(&disk, &session, on(), "/f/shut/deeper/leaf.txt").0, 404);
    disk.apply(&mut session, Command::Expand { path: at("/root/shut") });
    assert_eq!(get(&disk, &session, on(), "/f/shut/deeper/leaf.txt").0, 404);
    disk.apply(&mut session, Command::Expand { path: at("/root/shut/deeper") });
    assert_eq!(get(&disk, &session, on(), "/f/shut/deeper/leaf.txt").0, 200);
}

/// A refresh that finds the file on display gone puts it away.
#[test]
fn no_view_is_left_pointing_at_something_gone() {
    let mut disk = Disk::new().file("a.txt", "x").file("b.txt", "x");
    let mut session = disk.session();
    disk.apply(&mut session, Command::View { path: Some(at("/root/a.txt")) });
    assert_eq!(session.cursor().viewing, Some(1));
    disk.remove("a.txt");
    disk.touched(&mut session, "a.txt");
    assert_eq!(session.cursor().viewing, None);
    assert!(session.tree.viewing.is_none());
}
