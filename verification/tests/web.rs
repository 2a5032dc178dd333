//! The server's decisions.

use treex::path::TreePath;
use treex::preview::Stamp;
use treex::scan::{read_dir, Found, Target};
use treex::tree::Resolved;
use treex::watch::{affected, difference, Touched};
use treex::web::http::{
    decode_path, head_silence, head_step, read_request, response_head, upgrade_head, HeadStep, Move, Refusal,
    Request, Response, Silence, Transfer,
};
use treex::web::{
    after_wait, display_url, display_urls, file_response, port_to_try, ports_in_use, raw_file, route, rpc, FileStep,
    Host, Route, Rpc, RpcStep, Step, Waited, WebOptions, HEARTBEAT,
};
use treex::{PreviewOptions, ScanOptions, Session, Tree};

fn at(path: &str) -> TreePath {
    TreePath::parse(path.as_bytes())
}

fn found(name: &str, dir: bool) -> Found {
    Found {
        name: name.as_bytes().to_vec(),
        link: Some(false),
        target: Some(Target {
            dir,
            socket: false,
            fifo: false,
            char_device: false,
            block_device: false,
            size: 0,
        }),
    }
}

fn session() -> Session {
    let listing = read_dir(
        Some(vec![found("a b.txt", false), found("sub", true)]),
        &ScanOptions::default(),
    );
    let place = Resolved::Found { path: at("/root"), is_dir: true, size: 0 };
    Session::new(Tree::new(b"/root", place, ScanOptions::default(), listing).unwrap())
}

fn request(text: &str) -> Request {
    let buf = text.as_bytes().to_vec();
    let end = match head_step(&buf) {
        HeadStep::Complete(end) => end,
        other => panic!("{other:?}"),
    };
    read_request(&buf, end).unwrap().request
}

#[test]
fn percent_escapes_come_back() {
    assert_eq!(decode_path("/f/a%20b.txt"), "/f/a b.txt");
    assert_eq!(decode_path("/f/hash%23q%3F.txt"), "/f/hash#q?.txt");
    assert_eq!(decode_path("/f/%E4%B8%AD%E6%96%87.txt"), "/f/\u{4e2d}\u{6587}.txt");
    // A stray percent is data, not a parse error.
    assert_eq!(decode_path("/f/100%"), "/f/100%");
    assert_eq!(decode_path("/f/%zz"), "/f/%zz");
    // Neither is one in front of something that is not ASCII.
    assert_eq!(decode_path("/f/%中"), "/f/%中");
    assert_eq!(decode_path("/f/%a\u{e9}"), "/f/%a\u{e9}");
    // Nor one whose two places are not both hex digits: a sign is none.
    assert_eq!(decode_path("/f/%+1"), "/f/%+1");
    assert_eq!(decode_path("/f/%-1"), "/f/%-1");
    assert_eq!(decode_path("/f/%2"), "/f/%2");
}

#[test]
fn a_header_lists_whole_tokens() {
    let request = request(
        "GET /ws HTTP/1.1\r\nConnection: keep-alive, Upgrade\r\nUpgrade: WEBSOCKET\r\n\
         Accept-Encoding: x-gzipped, br;q=0.1 , GZIP;q=0.5\r\n\r\n",
    );
    assert!(request.header_has("connection", "upgrade"));
    assert!(request.header_has("connection", "UPGRADE"));
    assert!(request.header_has("connection", "keep-alive"));
    assert!(!request.header_has("connection", "keep"));
    assert!(request.header_has("upgrade", "websocket"));
    assert!(request.header_has("accept-encoding", "gzip"));
    assert!(request.header_has("accept-encoding", "br"));
    assert!(!request.header_has("accept-encoding", "x-gzip"));
    assert!(!request.header_has("cookie", "gzip"), "a header that is not there lists nothing");
}

#[test]
fn a_token_inside_another_does_not_count() {
    let request = request("GET / HTTP/1.1\r\nAccept-Encoding: x-gzipped\r\n\r\n");
    assert!(!request.header_has("accept-encoding", "gzip"));
}

#[test]
fn loopback_is_shown_as_localhost() {
    assert_eq!(
        display_urls(&Host::V4(127, 0, 0, 1), 11711, None),
        ["http://localhost:11711"]
    );
    assert_eq!(
        display_url(&Host::V4(192, 168, 1, 4), 11711, None),
        "http://192.168.1.4:11711"
    );
}

#[test]
fn binding_all_interfaces_leads_with_a_reachable_address() {
    let everywhere = Host::V4(0, 0, 0, 0);
    let urls = display_urls(&everywhere, 11711, None);
    assert!(urls.contains(&"http://localhost:11711".to_string()));

    // On a machine with a default route the LAN address must come first,
    // because that is the one another device can use.
    let urls = display_urls(&everywhere, 11711, Some(Host::V4(10, 0, 0, 7)));
    assert_eq!(urls[0], "http://10.0.0.7:11711");
    assert_eq!(urls.len(), 2);

    let v6 = Host::V6 { loopback: false, unspecified: false, text: "fe80::1".to_string() };
    assert_eq!(display_url(&v6, 80, None), "http://[fe80::1]:80");
}

/// The ports tried, with these in use.
fn bind(base: u16, attempts: u16, taken: &[u16]) -> Option<u16> {
    let mut step = 0;
    while let Some(port) = port_to_try(base, attempts, step) {
        if !taken.contains(&port) {
            return Some(port);
        }
        step += 1;
    }
    None
}

#[test]
fn a_taken_port_steps_past_what_is_in_use() {
    assert_eq!(bind(4000, 20, &[4000]), Some(4001));
    assert_eq!(bind(4000, 20, &[4000, 4001, 4002]), Some(4003));
    assert_eq!(bind(0, 20, &[]), Some(0));
    assert_eq!(port_to_try(0, 20, 1), None, "any free port is never stepped");
    assert_eq!(port_to_try(65535, 20, 1), None, "there is no port past the last");
}

#[test]
fn giving_up_reports_the_range_it_tried() {
    assert_eq!(bind(4000, 1, &[4000]), None);
    assert_eq!(ports_in_use(4000, 20), "ports 4000..=4019 are all in use");
    assert_eq!(ports_in_use(65530, 20), "ports 65530..=65535 are all in use");
    let opts = WebOptions::default();
    assert_eq!((opts.port, opts.port_attempts), (11711, 20));
}

#[test]
fn a_request_is_read_once_it_is_all_there() {
    let buf = b"POST /rpc?x=1#y HTTP/1.1\r\nHost: a\r\nContent-Length: 5\r\nAccept-Encoding:  GZIP, br \r\n\r\nhel".to_vec();
    assert_eq!(head_step(&buf[..40].to_vec()), HeadStep::More);
    let end = match head_step(&buf) {
        HeadStep::Complete(end) => end,
        other => panic!("{other:?}"),
    };
    let mut pending = read_request(&buf, end).unwrap();
    assert_eq!(pending.request.method, "POST");
    assert_eq!(pending.request.path, "/rpc");
    assert_eq!(pending.request.header("accept-encoding"), Some("GZIP, br"));
    assert!(pending.request.header_has("accept-encoding", "gzip"));
    assert_eq!(pending.wants(), 2);
    assert!(pending.got(b"lo").is_ok());
    assert_eq!(pending.wants(), 0);
    assert_eq!(pending.request.body, b"hello".to_vec());
    assert!(pending.request.keeps_alive());

    // More than was promised is left out.
    let buf = b"GET / HTTP/1.1\r\ncontent-length: 1\r\n\r\nabc".to_vec();
    assert_eq!(read_request(&buf, 37).unwrap().request.body, b"a".to_vec());
}

#[test]
fn every_request_that_is_refused_says_why() {
    assert_eq!(head_step(&vec![b'a'; 70000]), HeadStep::Refuse(Refusal::HeadTooLarge));
    assert_eq!(head_silence(&Vec::new(), Silence::Closed), None);
    assert_eq!(head_silence(&vec![b'G'], Silence::Closed), Some(Refusal::TruncatedHead));
    assert_eq!(head_silence(&Vec::new(), Silence::TimedOut), Some(Refusal::TimedOut));
    let garbage = b"\x01\x02\x03\r\n\r\n".to_vec();
    assert_eq!(read_request(&garbage, 7).err(), Some(Refusal::Malformed));
    let large = b"POST / HTTP/1.1\r\ncontent-length: 99999999\r\n\r\n".to_vec();
    assert_eq!(read_request(&large, large.len()).err(), Some(Refusal::BodyTooLarge));
    let buf = b"POST / HTTP/1.1\r\ncontent-length: 9\r\n\r\n".to_vec();
    assert_eq!(
        read_request(&buf, buf.len()).unwrap().got(b"").err(),
        Some(Refusal::TruncatedBody)
    );
    assert_eq!(Refusal::Malformed.message(), "malformed request");
    // Forty-nine headers are one too many.
    let mut many = "GET / HTTP/1.1\r\n".to_string();
    for i in 0..49 {
        many.push_str(&format!("x{i}: y\r\n"));
    }
    many.push_str("\r\n");
    let many = many.into_bytes();
    assert_eq!(read_request(&many, many.len()).err(), Some(Refusal::Malformed));
}

#[test]
fn a_request_goes_where_it_should() {
    let to = |text: &str| route(&request(text));
    assert!(matches!(to("GET / HTTP/1.1\r\n\r\n"), Route::Page));
    assert!(matches!(to("GET /favicon.svg HTTP/1.1\r\n\r\n"), Route::Favicon));
    assert!(matches!(to("POST /rpc HTTP/1.1\r\n\r\n"), Route::Rpc));
    assert!(matches!(to("GET /f/a%20b.txt HTTP/1.1\r\n\r\n"), Route::File));
    let status = |r| match r {
        Route::Reply(reply) => reply.status,
        other => panic!("{other:?}"),
    };
    assert_eq!(status(to("GET /nope HTTP/1.1\r\n\r\n")), 404);
    assert_eq!(status(to("PUT / HTTP/1.1\r\n\r\n")), 405);
    // The example in RFC 6455.
    let upgrade = "GET /ws HTTP/1.1\r\nConnection: keep-alive, Upgrade\r\nUpgrade: WebSocket\r\n\
                   Sec-WebSocket-Key: dGhlIHNhbXBsZSBub25jZQ==\r\n\r\n";
    match to(upgrade) {
        Route::Upgrade(accept) => {
            assert_eq!(accept, "s3pPLMBiTxaQ9kYGzzhZRbK+xOo=");
            assert!(upgrade_head(&accept).contains("sec-websocket-accept: s3pPLMBiTxaQ9kYGzzhZRbK+xOo=\r\n"));
        }
        other => panic!("{other:?}"),
    }
}

#[test]
fn an_address_or_a_question_comes_to_a_file_or_a_refusal() {
    let session = session();
    let preview = Some(PreviewOptions::default());
    let status = |step| match step {
        FileStep::Open(_) => 200,
        FileStep::Reply(reply) => reply.status,
    };
    let get = |path: &str| request(&format!("GET {path} HTTP/1.1\r\n\r\n"));
    match raw_file(&get("/f/a%20b.txt"), preview, &session) {
        FileStep::Open(path) => assert!(path.same(&at("/root/a b.txt"))),
        FileStep::Reply(reply) => panic!("{reply:?}"),
    }
    assert_eq!(status(raw_file(&get("/f/sub"), preview, &session)), 404);
    assert_eq!(status(raw_file(&get("/f/other.txt"), preview, &session)), 404);
    assert_eq!(status(raw_file(&get("/f/../etc/passwd"), preview, &session)), 400);
    assert_eq!(status(raw_file(&get("/f/a%20b.txt"), None, &session)), 403);

    let ask = |path: &str| Some(Rpc::Preview { path: at(path), known: None });
    assert!(matches!(rpc(Some(Rpc::Tree), preview, &session), RpcStep::Snapshot));
    assert!(matches!(rpc(ask("/root/a b.txt"), preview, &session), RpcStep::Read { .. }));
    let refused = |step| match step {
        RpcStep::Reply(reply) => reply.status,
        _ => panic!("it was answered"),
    };
    assert_eq!(refused(rpc(ask("/etc/passwd"), preview, &session)), 404);
    assert_eq!(refused(rpc(ask("/root/a b.txt"), None, &session)), 403);
    assert_eq!(refused(rpc(None, preview, &session)), 400);
    let known = Some(Stamp { size: 1, mtime: 2 });
    match rpc(Some(Rpc::Preview { path: at("/root/a b.txt"), known }), preview, &session) {
        RpcStep::Read { known: k, .. } => assert_eq!(k, known),
        _ => panic!("it was not read"),
    }
}

#[test]
fn a_file_is_served_with_its_type_and_a_sandbox() {
    let reply = file_response(&at("/root/page.html"), Some(10));
    assert_eq!(reply.status, 200);
    let header = |name: &str| {
        reply.headers.iter().find(|h| h.0 == name).map(|h| h.1.clone()).unwrap()
    };
    assert_eq!(header("content-type"), "text/html; charset=utf-8");
    assert!(header("content-security-policy").starts_with("sandbox;"));
    assert_eq!(file_response(&at("/root/page.html"), None).status, 404);
}

#[test]
fn a_file_that_shrinks_underneath_is_made_up_to_its_length() {
    let mut transfer = Transfer::new(100_000);
    assert_eq!(transfer.next(), Move::Read(65536));
    transfer.got(65536);
    assert_eq!(transfer.next(), Move::Read(34464));
    transfer.got(4464);
    transfer.got(0);
    assert_eq!(transfer.next(), Move::Pad(30000));
    transfer.padded(30000);
    assert_eq!(transfer.next(), Move::Done);
    assert_eq!(Transfer::new(0).next(), Move::Done);
}

#[test]
fn a_response_says_how_long_it_is() {
    let head = response_head(&Response::text(404, "no such route"), true);
    assert!(head.starts_with("HTTP/1.1 404 Not Found\r\n"), "{head}");
    assert!(head.contains("content-length: 13\r\n"), "{head}");
    assert!(head.ends_with("\r\n\r\n"));
    let shut = response_head(&Response::text(200, "x"), false);
    assert!(shut.contains("connection: close\r\n"), "{shut}");
}

#[test]
fn a_batch_of_events_comes_to_one_refresh_per_directory() {
    let touched = |path: &str, is_dir, read| Touched { path: at(path), is_dir, read };
    let batch = vec![
        touched("/root/a/x.txt", false, false),
        touched("/root/a/y.txt", false, false),
        touched("/root/sub", true, false),
        touched("/root/a/.gitignore", false, false),
        touched("/root/b/.gitignore", false, true),
    ];
    let what = affected(&batch);
    let names = |list: &Vec<TreePath>| -> Vec<String> {
        list.iter().map(|p| String::from_utf8(p.text()).unwrap()).collect()
    };
    assert_eq!(names(&what.listings), vec!["/root/a", "/root/sub", "/root/b"]);
    assert_eq!(names(&what.rules), vec!["/root/a"], "reading a rule file changes nothing");

    let wanted = vec![at("/root"), at("/root/a")];
    let watched = vec![at("/root"), at("/root/b")];
    assert_eq!(names(&difference(&wanted, &watched)), vec!["/root/a"]);
    assert_eq!(names(&difference(&watched, &wanted)), vec!["/root/b"]);
}

#[test]
fn a_quiet_socket_still_has_to_talk() {
    assert_eq!(HEARTBEAT, 10);
    assert_eq!(after_wait(Waited::TimedOut), Step::Alive);
    assert_eq!(after_wait(Waited::Changed), Step::Look);
    assert_eq!(after_wait(Waited::Lagged), Step::Look, "what was missed is in the next look");
    assert_eq!(after_wait(Waited::Closed), Step::Stop);
}
