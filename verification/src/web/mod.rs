//! The browser view. Same tree, same selection, same live updates, reachable
//! from a phone or tablet that has no terminal worth using.

use vstd::prelude::*;
use vstd::string::*;
use vstd::utf8::*;

use crate::node::at;
use crate::path::{PathView, TreePath, DOT, SLASH};
use crate::preview::{PreviewOptions, Stamp};
use crate::state::{shows_file, Cursor, Session};
use crate::text::{
    chars_of, decimal, decimal_of, lemma_split_append, lemma_split_single, lower_ascii, lowered, same_str,
    split_bytes, split_on, string_of, utf8_text, views,
};
use http::{header_in, header_views, is_response, is_text_response, lists, Body, Request, Response};

pub mod http;

verus! {

/// Chosen to be memorable and well clear of anything else that squats on a
/// developer machine.
pub const DEFAULT_PORT: u16 = 11711;

/// Below this a message is not worth compressing: deflate has a floor of a few
/// bytes and the cursor messages are under a hundred to begin with.
pub const COMPRESS_ABOVE: usize = 4096;

// -- addresses ------------------------------------------------------------

/// Where a listener listens.
#[derive(Debug)]
pub enum Host {
    V4(u8, u8, u8, u8),
    /// An IPv6 address, as it is written out.
    V6 { loopback: bool, unspecified: bool, text: String },
}

impl Host {
    pub open spec fn is_unspecified(&self) -> bool {
        match self {
            Host::V4(a, b, c, d) => a == 0 && b == 0 && c == 0 && d == 0,
            Host::V6 { loopback, unspecified, text } => *unspecified,
        }
    }

    pub open spec fn is_loopback(&self) -> bool {
        match self {
            Host::V4(a, b, c, d) => *a == 127,
            Host::V6 { loopback, unspecified, text } => *loopback,
        }
    }

    /// The address written out.
    pub open spec fn text(&self) -> Seq<char> {
        match self {
            Host::V4(a, b, c, d) => decimal(*a as nat) + "."@ + decimal(*b as nat) + "."@ + decimal(*c as nat) + "."@
                + decimal(*d as nat),
            Host::V6 { loopback, unspecified, text } => text@,
        }
    }

    /// The address written out as it stands in front of a port.
    pub open spec fn url_text(&self) -> Seq<char> {
        match self {
            Host::V4(a, b, c, d) => self.text(),
            Host::V6 { loopback, unspecified, text } => "["@ + text@ + "]"@,
        }
    }

    pub fn unspecified(&self) -> (r: bool)
        ensures
            r == self.is_unspecified(),
    {
        match self {
            Host::V4(a, b, c, d) => *a == 0 && *b == 0 && *c == 0 && *d == 0,
            Host::V6 { loopback: _, unspecified, text: _ } => *unspecified,
        }
    }

    pub fn loopback(&self) -> (r: bool)
        ensures
            r == self.is_loopback(),
    {
        match self {
            Host::V4(a, _, _, _) => *a == 127,
            Host::V6 { loopback, unspecified: _, text: _ } => *loopback,
        }
    }

    pub fn written(&self) -> (s: String)
        ensures
            s@ == self.text(),
    {
        match self {
            Host::V4(a, b, c, d) => {
                let mut s: String = decimal_of(*a as u64);
                s.append(".");
                s.append(decimal_of(*b as u64).as_str());
                s.append(".");
                s.append(decimal_of(*c as u64).as_str());
                s.append(".");
                s.append(decimal_of(*d as u64).as_str());
                s
            }
            Host::V6 { loopback: _, unspecified: _, text } => text.clone(),
        }
    }
}

#[derive(Debug)]
pub struct WebOptions {
    pub host: Host,
    pub port: u16,
    /// Consecutive ports to try when the first one is taken. A second treex
    /// should just come up next door rather than refuse to start.
    pub port_attempts: u16,
    /// `None` refuses to serve file contents at all.
    pub preview: Option<PreviewOptions>,
}

impl Default for WebOptions {
    fn default() -> (o: WebOptions)
        ensures
            o.host == Host::V4(127, 0, 0, 1),
            o.port == DEFAULT_PORT,
            o.port_attempts == 20,
            o.preview matches Some(p) && p.max_bytes == crate::preview::DEFAULT_MAX_BYTES,
    {
        WebOptions {
            host: Host::V4(127, 0, 0, 1),
            port: DEFAULT_PORT,
            port_attempts: 20,
            preview: Some(PreviewOptions::default()),
        }
    }
}

/// How many ports are tried. Port 0 already means "any free port", so it is
/// never stepped.
pub open spec fn tries(base: u16, attempts: u16) -> int {
    if base == 0 || attempts == 0 {
        1
    } else {
        attempts as int
    }
}

/// The port to try after `step` others turned out to be taken, or `None` where
/// it is time to give up.
pub fn port_to_try(base: u16, attempts: u16, step: u16) -> (p: Option<u16>)
    ensures
        p == (if step < tries(base, attempts) && base + step <= u16::MAX {
            Some((base + step) as u16)
        } else {
            None
        }),
{
    let n: u16 = if base == 0 || attempts == 0 {
        1
    } else {
        attempts
    };
    if step >= n {
        return None;
    }
    base.checked_add(step)
}

/// The last port of those tried.
pub open spec fn last_port(base: u16, attempts: u16) -> int {
    if base + tries(base, attempts) - 1 > u16::MAX {
        u16::MAX as int
    } else {
        base + tries(base, attempts) - 1
    }
}

/// What to say when no port could be had and nothing else said why.
pub fn ports_in_use(base: u16, attempts: u16) -> (s: String)
    ensures
        s@ == "ports "@ + decimal(base as nat) + "..="@ + decimal(last_port(base, attempts) as nat)
            + " are all in use"@,
{
    let n: u16 = if base == 0 || attempts == 0 {
        1
    } else {
        attempts
    };
    let sum: u32 = base as u32 + n as u32 - 1;
    let last: u32 = if sum > u16::MAX as u32 {
        u16::MAX as u32
    } else {
        sum
    };
    let mut s: String = "ports ".to_owned();
    s.append(decimal_of(base as u64).as_str());
    s.append("..=");
    s.append(decimal_of(last as u64).as_str());
    s.append(" are all in use");
    s
}

/// `http://localhost` at a port.
pub open spec fn local_url(port: u16) -> Seq<char> {
    "http://localhost:"@ + decimal(port as nat)
}

/// Every URL a listener can be reached on, most useful first. `outbound` is the
/// address the default route would leave from, which is the one a phone on the
/// same network or VPN can actually reach.
pub open spec fn urls_of(host: Host, port: u16, outbound: Option<Host>) -> Seq<Seq<char>> {
    if host.is_unspecified() {
        match outbound {
            Some(ip) if !ip.is_loopback() && !ip.is_unspecified() => seq![
                "http://"@ + ip.text() + ":"@ + decimal(port as nat),
                local_url(port),
            ],
            _ => seq![local_url(port)],
        }
    } else if host.is_loopback() {
        seq![local_url(port)]
    } else {
        seq!["http://"@ + host.url_text() + ":"@ + decimal(port as nat)]
    }
}

/// Some texts as plain values.
pub open spec fn text_views(texts: Seq<String>) -> Seq<Seq<char>> {
    texts.map_values(|s: String| s@)
}

/// Every URL a listener can be reached on, most useful first.
///
/// Binding `0.0.0.0` is something people do precisely because they want to
/// reach treex from another device, so printing `localhost` and nothing else
/// would answer the wrong question.
pub fn display_urls(host: &Host, port: u16, outbound: Option<Host>) -> (urls: Vec<String>)
    ensures
        text_views(urls@) == urls_of(*host, port, outbound),
        urls@.len() > 0,
{
    let mut urls: Vec<String> = Vec::new();
    let number: String = decimal_of(port as u64);
    if host.unspecified() {
        if let Some(ip) = &outbound {
            if !ip.loopback() && !ip.unspecified() {
                let mut s: String = "http://".to_owned();
                s.append(ip.written().as_str());
                s.append(":");
                s.append(number.as_str());
                urls.push(s);
            }
        }
    } else if !host.loopback() {
        let mut s: String = "http://".to_owned();
        match host {
            Host::V4(_, _, _, _) => {
                s.append(host.written().as_str());
            }
            Host::V6 { loopback: _, unspecified: _, text } => {
                s.append("[");
                s.append(text.as_str());
                s.append("]");
                assert(s@ =~= "http://"@ + host.url_text());
            }
        }
        s.append(":");
        s.append(number.as_str());
        urls.push(s);
        assert(text_views(urls@) =~= urls_of(*host, port, outbound));
        return urls;
    }
    let mut local: String = "http://localhost:".to_owned();
    local.append(number.as_str());
    urls.push(local);
    assert(text_views(urls@) =~= urls_of(*host, port, outbound));
    urls
}

/// The single URL worth putting in a status bar.
pub fn display_url(host: &Host, port: u16, outbound: Option<Host>) -> (url: String)
    ensures
        url@ == urls_of(*host, port, outbound)[0],
{
    let mut urls: Vec<String> = display_urls(host, port, outbound);
    assert(text_views(urls@)[0] == urls@[0]@);
    urls.swap_remove(0)
}

// -- routes ---------------------------------------------------------------

/// What `derive_accept_key` makes of a WebSocket key.
pub uninterp spec fn accept_key(key: Seq<u8>) -> Seq<char>;

/// `tungstenite::handshake::derive_accept_key`: the accept key that goes with a
/// request key. It is a digest, and only named here.
#[verifier::external_body]
fn derive_accept(key: &[u8]) -> (accept: String)
    ensures
        accept@ == accept_key(key@),
{
    tokio_tungstenite::tungstenite::handshake::derive_accept_key(key)
}

/// Where a request goes.
#[derive(Debug)]
pub enum Route {
    /// Take the connection over as a WebSocket, with this accept key.
    Upgrade(String),
    Page,
    Favicon,
    Rpc,
    File,
    Reply(Response),
}

/// Whether a request gets the route it should.
pub open spec fn is_route(request: Request, r: Route) -> bool {
    let get = request.method@ == "GET"@;
    let post = request.method@ == "POST"@;
    if request.path@ == "/ws"@ && request.upgrades() {
        r matches Route::Upgrade(accept) && accept@ == accept_key(
            encode_utf8(header_in(request.header_list(), "sec-websocket-key"@)->0),
        )
    } else if get && request.path@ == "/"@ {
        r is Page
    } else if get && request.path@ == "/favicon.svg"@ {
        r is Favicon
    } else if post && request.path@ == "/rpc"@ {
        r is Rpc
    } else if get && "/f/"@.is_prefix_of(request.path@) {
        r is File
    } else if get || post {
        r matches Route::Reply(reply) && is_text_response(reply, 404, "no such route"@)
    } else {
        r matches Route::Reply(reply) && is_text_response(reply, 405, "method not allowed"@)
    }
}

/// Whether a text begins with another.
fn begins_with(s: &Vec<char>, prefix: &Vec<char>) -> (r: bool)
    ensures
        r == prefix@.is_prefix_of(s@),
{
    if s.len() < prefix.len() {
        return false;
    }
    let mut i: usize = 0;
    while i < prefix.len()
        invariant
            i <= prefix@.len() <= s@.len(),
            forall|k: int| #![trigger prefix@[k]] 0 <= k < i ==> prefix@[k] == s@[k],
        decreases prefix.len() - i,
    {
        if s[i] != prefix[i] {
            assert(s@.take(prefix@.len() as int)[i as int] == s@[i as int]);
            return false;
        }
        i += 1;
    }
    assert(prefix@ =~= s@.take(prefix@.len() as int));
    true
}

/// Decides where a request goes.
pub fn route(request: &Request) -> (r: Route)
    ensures
        is_route(*request, r),
{
    let path: &str = request.path.as_str();
    if same_str(path, "/ws") && request.is_websocket_upgrade() {
        let key: &str = match request.header("sec-websocket-key") {
            Some(key) => key,
            None => "",
        };
        return Route::Upgrade(derive_accept(key.as_bytes()));
    }
    let get: bool = same_str(request.method.as_str(), "GET");
    let post: bool = same_str(request.method.as_str(), "POST");
    if get && same_str(path, "/") {
        Route::Page
    } else if get && same_str(path, "/favicon.svg") {
        Route::Favicon
    } else if post && same_str(path, "/rpc") {
        Route::Rpc
    } else if get && begins_with(&chars_of(path), &chars_of("/f/")) {
        Route::File
    } else if get || post {
        Route::Reply(Response::text(404, "no such route"))
    } else {
        Route::Reply(Response::text(405, "method not allowed"))
    }
}

/// The one HTTP entry point for asking treex something.
///
/// Commands already travel over the WebSocket, so there is no reason for the
/// request side to grow a second vocabulary of paths and verbs. Everything that
/// is a question rather than a file is a method here.
pub enum Rpc {
    /// The current tree, for a client that has not opened a socket.
    Tree,
    /// A file's contents, subject to the preview limit. `known` is the stamp
    /// the caller already holds; matching it gets `unchanged` back instead of
    /// the file all over again.
    Preview { path: TreePath, known: Option<Stamp> },
}

/// What a question comes to.
pub enum RpcStep {
    Reply(Response),
    Snapshot,
    /// Read this file and send what it comes to.
    Read { path: TreePath, opts: PreviewOptions, known: Option<Stamp> },
}

/// Answers a question, as far as it goes without reading a file. Only a file
/// with a row is read. `call` is `None` where it could not be made out.
pub fn rpc(call: Option<Rpc>, preview: Option<PreviewOptions>, session: &Session) -> (r: RpcStep)
    requires
        session.wf(),
    ensures
        match call {
            None => r matches RpcStep::Reply(reply) && is_text_response(reply, 400, "unknown method"@),
            Some(Rpc::Tree) => r is Snapshot,
            Some(Rpc::Preview { path, known }) => match preview {
                None => r matches RpcStep::Reply(reply) && is_text_response(reply, 403, "file preview is disabled"@),
                Some(opts) => if shows_file(session.tree.slots(), session.tree.top(), path@) {
                    r matches RpcStep::Read { path: p, opts: o, known: k } && p@ == path@ && o == opts && k == known
                } else {
                    r matches RpcStep::Reply(reply) && is_text_response(reply, 404, "no such file in this tree"@)
                },
            },
        },
{
    match call {
        None => RpcStep::Reply(Response::text(400, "unknown method")),
        Some(Rpc::Tree) => RpcStep::Snapshot,
        Some(Rpc::Preview { path, known }) => match preview {
            None => RpcStep::Reply(Response::text(403, "file preview is disabled")),
            Some(opts) => match session.visible_file(&path) {
                Some(path) => RpcStep::Read { path, opts, known },
                None => RpcStep::Reply(Response::text(404, "no such file in this tree")),
            },
        },
    }
}

// -- compression ----------------------------------------------------------

/// What gzip makes of some bytes at flate2's default level.
pub uninterp spec fn gzipped(bytes: Seq<u8>) -> Option<Seq<u8>>;

/// `flate2::write::GzEncoder` over a vector, at the default level: the bytes
/// gzipped, or `None` where writing them failed. The packed bytes are only
/// named here.
#[verifier::external_body]
fn gzip(bytes: &[u8]) -> (r: Option<Vec<u8>>)
    ensures
        match r {
            Some(packed) => gzipped(bytes@) == Some(packed@),
            None => gzipped(bytes@) is None,
        },
{
    let mut encoder = flate2::write::GzEncoder::new(Vec::new(), flate2::Compression::default());
    std::io::Write::write_all(&mut encoder, bytes).ok()?;
    encoder.finish().ok()
}

/// What raw deflate makes of some bytes at flate2's default level.
pub uninterp spec fn deflated(bytes: Seq<u8>) -> Option<Seq<u8>>;

/// `flate2::write::DeflateEncoder` over a vector, at the default level: the
/// bytes deflated, or `None` where writing them failed. The packed bytes are
/// only named here.
#[verifier::external_body]
fn deflate_raw(bytes: &[u8]) -> (r: Option<Vec<u8>>)
    ensures
        match r {
            Some(packed) => deflated(bytes@) == Some(packed@),
            None => deflated(bytes@) is None,
        },
{
    let mut encoder = flate2::write::DeflateEncoder::new(Vec::new(), flate2::Compression::default());
    std::io::Write::write_all(&mut encoder, bytes).ok()?;
    encoder.finish().ok()
}

/// The type JSON is sent as.
pub open spec fn json_type() -> Seq<char> {
    "application/json; charset=utf-8"@
}

/// Whether a body is worth compressing for whoever asked.
pub open spec fn worth_gzip(body: Seq<u8>, headers: Seq<(Seq<char>, Seq<char>)>) -> bool {
    body.len() > COMPRESS_ABOVE && lists(headers, "accept-encoding"@, "gzip"@)
}

/// What JSON is sent as, given what gzip makes of it where it is worth it.
pub open spec fn is_json_response(r: Response, body: Option<Seq<u8>>, packed: Option<Seq<u8>>) -> bool {
    match body {
        None => is_text_response(r, 500, "cannot serialize"@),
        Some(body) => match packed {
            Some(packed) => {
                &&& r.status == 200
                &&& header_views(r.headers@) == seq![("content-type"@, json_type()), ("content-encoding"@, "gzip"@)]
                &&& r.body matches Body::Bytes(b) && b@ == packed
            },
            None => is_response(r, 200, json_type(), body),
        },
    }
}

/// Sends JSON, packed where that came to something.
pub fn json_reply(body: Option<Vec<u8>>, packed: Option<Vec<u8>>) -> (r: Response)
    ensures
        is_json_response(
            r,
            match body {
                Some(b) => Some(b@),
                None => None,
            },
            match packed {
                Some(p) => Some(p@),
                None => None,
            },
        ),
{
    match body {
        None => Response::text(500, "cannot serialize"),
        Some(body) => match packed {
            Some(packed) => {
                let r: Response = Response::new(200, "application/json; charset=utf-8", packed).with("content-encoding", "gzip");
                assert(header_views(r.headers@) =~= seq![
                    ("content-type"@, json_type()),
                    ("content-encoding"@, "gzip"@),
                ]);
                r
            }
            None => Response::new(200, "application/json; charset=utf-8", body),
        },
    }
}

/// Serves JSON, gzipped when it is worth it and the caller said it could. `body`
/// is `None` where the value could not be written as JSON.
pub fn json_response(body: Option<Vec<u8>>, request: &Request) -> (r: Response)
    ensures
        is_json_response(
            r,
            match body {
                Some(b) => Some(b@),
                None => None,
            },
            match body {
                Some(b) if worth_gzip(b@, request.header_list()) => gzipped(b@),
                _ => None,
            },
        ),
{
    let packed: Option<Vec<u8>> = match &body {
        Some(b) => if b.len() > COMPRESS_ABOVE && request.header_has("accept-encoding", "gzip") {
            gzip(b.as_slice())
        } else {
            None
        },
        None => None,
    };
    json_reply(body, packed)
}

/// A message as it goes over the socket. The client tells the two apart by
/// frame type, so nothing has to be negotiated.
#[derive(Debug)]
pub enum Frame {
    Text(String),
    Binary(Vec<u8>),
}

/// A message with what deflate made of it, where it was tried.
pub fn frame_of(json: String, packed: Option<Vec<u8>>) -> (f: Frame)
    ensures
        match packed {
            Some(p) => f == Frame::Binary(p),
            None => f == Frame::Text(json),
        },
{
    match packed {
        Some(packed) => Frame::Binary(packed),
        None => Frame::Text(json),
    }
}

/// Text below the threshold, deflate above it.
pub fn frame(json: String) -> (f: Frame)
    ensures
        ({
            let bytes = encode_utf8(json@);
            match deflated(bytes) {
                Some(packed) if bytes.len() > COMPRESS_ABOVE => f matches Frame::Binary(b) && b@ == packed,
                _ => f == Frame::Text(json),
            }
        }),
{
    let packed: Option<Vec<u8>> = {
        let bytes: &[u8] = json.as_str().as_bytes();
        if bytes.len() > COMPRESS_ABOVE {
            deflate_raw(bytes)
        } else {
            None
        }
    };
    frame_of(json, packed)
}

// -- one client -----------------------------------------------------------

/// What a browser was last sent.
#[derive(Debug, Clone, Copy, PartialEq, Eq, Structural)]
pub struct Outbox {
    pub revision: u64,
    pub shape: u64,
}

/// What a browser is to be sent.
#[derive(Debug, Clone, Copy, PartialEq, Eq, Structural)]
pub enum Owed {
    Nothing,
    /// The tree is unchanged; only the cursor moved. Sent instead of a whole
    /// snapshot because a keypress must not cost a megabyte.
    Cursor,
    Snapshot,
}

impl Outbox {
    /// Nothing has been sent yet.
    pub fn new() -> (o: Outbox)
        ensures
            o.revision == u64::MAX,
            o.shape == u64::MAX,
    {
        Outbox { revision: u64::MAX, shape: u64::MAX }
    }

    pub open spec fn due(&self, cursor: Cursor) -> Owed {
        if cursor.revision == self.revision {
            Owed::Nothing
        } else if cursor.shape == self.shape {
            Owed::Cursor
        } else {
            Owed::Snapshot
        }
    }

    /// What to send for the state things are in.
    pub fn next(&self, cursor: &Cursor) -> (s: Owed)
        ensures
            s == self.due(*cursor),
    {
        if cursor.revision == self.revision {
            Owed::Nothing
        } else if cursor.shape == self.shape {
            Owed::Cursor
        } else {
            Owed::Snapshot
        }
    }

    /// Takes note of what was sent.
    pub fn sent(&mut self, cursor: &Cursor)
        ensures
            *final(self) == (Outbox { revision: cursor.revision, shape: cursor.shape }),
    {
        self.revision = cursor.revision;
        self.shape = cursor.shape;
    }
}

/// Once a browser has been sent a state it is sent nothing more for it, and as
/// long as the tree keeps its shape it is never sent the whole of it again.
pub proof fn lemma_outbox_is_frugal(before: Outbox, after: Outbox, now: Cursor, later: Cursor)
    requires
        after == (Outbox { revision: now.revision, shape: now.shape }),
    ensures
        after.due(now) == Owed::Nothing,
        later.shape == now.shape ==> after.due(later) != Owed::Snapshot,
        later.shape != now.shape && later.revision != now.revision ==> after.due(later) == Owed::Snapshot,
{
}

/// How many seconds the server stays silent before reassuring the page it is
/// there.
pub const HEARTBEAT: u64 = 10;

/// What waiting for a change came to.
#[derive(Debug, Clone, Copy, PartialEq, Eq, Structural)]
pub enum Waited {
    Changed,
    /// Changes came faster than they were taken, and some were missed.
    Lagged,
    /// Nothing happened for as long as the server stays silent.
    TimedOut,
    /// There is nothing left to wait for.
    Closed,
}

/// What to do after waiting.
#[derive(Debug, Clone, Copy, PartialEq, Eq, Structural)]
pub enum Step {
    /// See what the browser is owed now.
    Look,
    /// Say that the connection is still real, and wait on.
    Alive,
    Stop,
}

/// What a wait leads to.
///
/// Lagging only means intermediate revisions were missed; the next snapshot is
/// current either way, so it is not an error. A quiet tree is indistinguishable
/// from a wedged socket (a slept laptop or a dropped tunnel leaves one open with
/// no close event), so something is said on the way past.
pub fn after_wait(waited: Waited) -> (step: Step)
    ensures
        step == (match waited {
            Waited::Changed => Step::Look,
            Waited::Lagged => Step::Look,
            Waited::TimedOut => Step::Alive,
            Waited::Closed => Step::Stop,
        }),
{
    match waited {
        Waited::Changed | Waited::Lagged => Step::Look,
        Waited::TimedOut => Step::Alive,
        Waited::Closed => Step::Stop,
    }
}

// -- files ----------------------------------------------------------------

/// The type that goes with an extension. Structured text gets its registered
/// type and the browser decides what to do with it; reading it as plain text is
/// what the preview pane is for. Source code, logs and extensionless files have
/// no registered type of their own, so plain text is the accurate answer rather
/// than a fallback, and it is the one that renders in a tab.
pub open spec fn type_for(ext: Seq<char>) -> Seq<char> {
    if ext == "json"@ || ext == "map"@ {
        "application/json"@
    } else if ext == "jsonl"@ || ext == "ndjson"@ {
        "application/x-ndjson"@
    } else if ext == "md"@ || ext == "markdown"@ {
        "text/markdown; charset=utf-8"@
    } else if ext == "toml"@ {
        "application/toml"@
    } else if ext == "yaml"@ || ext == "yml"@ {
        "application/yaml"@
    } else if ext == "csv"@ {
        "text/csv; charset=utf-8"@
    } else if ext == "tsv"@ {
        "text/tab-separated-values; charset=utf-8"@
    } else if ext == "xml"@ {
        "application/xml"@
    } else if ext == "css"@ {
        "text/css; charset=utf-8"@
    } else if ext == "js"@ || ext == "mjs"@ || ext == "cjs"@ {
        "text/javascript; charset=utf-8"@
    } else if ext == "html"@ || ext == "htm"@ {
        "text/html; charset=utf-8"@
    } else if ext == "svg"@ {
        "image/svg+xml"@
    } else if ext == "png"@ {
        "image/png"@
    } else if ext == "jpg"@ || ext == "jpeg"@ {
        "image/jpeg"@
    } else if ext == "gif"@ {
        "image/gif"@
    } else if ext == "webp"@ {
        "image/webp"@
    } else if ext == "avif"@ {
        "image/avif"@
    } else if ext == "ico"@ {
        "image/x-icon"@
    } else if ext == "bmp"@ {
        "image/bmp"@
    } else if ext == "pdf"@ {
        "application/pdf"@
    } else if ext == "mp4"@ {
        "video/mp4"@
    } else if ext == "webm"@ {
        "video/webm"@
    } else if ext == "mp3"@ {
        "audio/mpeg"@
    } else if ext == "wav"@ {
        "audio/wav"@
    } else if ext == "flac"@ {
        "audio/flac"@
    } else if ext == "ogg"@ || ext == "opus"@ {
        "audio/ogg"@
    } else if ext == "woff"@ {
        "font/woff"@
    } else if ext == "woff2"@ {
        "font/woff2"@
    } else if ext == "ttf"@ {
        "font/ttf"@
    } else if ext == "otf"@ {
        "font/otf"@
    } else if ext == "wasm"@ {
        "application/wasm"@
    } else if ext == "zip"@ {
        "application/zip"@
    } else if ext == "gz"@ || ext == "tgz"@ {
        "application/gzip"@
    } else if ext == "bz2"@ {
        "application/x-bzip2"@
    } else if ext == "xz"@ {
        "application/x-xz"@
    } else if ext == "tar"@ {
        "application/x-tar"@
    } else if ext == "bin"@ || ext == "exe"@ || ext == "so"@ || ext == "dylib"@ || ext == "o"@ || ext == "a"@ {
        "application/octet-stream"@
    } else {
        "text/plain; charset=utf-8"@
    }
}

/// The type that goes with an extension in lower case.
fn type_of(ext: &str) -> (t: &'static str)
    ensures
        t@ == type_for(ext@),
{
    if same_str(ext, "json") || same_str(ext, "map") {
        "application/json"
    } else if same_str(ext, "jsonl") || same_str(ext, "ndjson") {
        "application/x-ndjson"
    } else if same_str(ext, "md") || same_str(ext, "markdown") {
        "text/markdown; charset=utf-8"
    } else if same_str(ext, "toml") {
        "application/toml"
    } else if same_str(ext, "yaml") || same_str(ext, "yml") {
        "application/yaml"
    } else if same_str(ext, "csv") {
        "text/csv; charset=utf-8"
    } else if same_str(ext, "tsv") {
        "text/tab-separated-values; charset=utf-8"
    } else if same_str(ext, "xml") {
        "application/xml"
    } else if same_str(ext, "css") {
        "text/css; charset=utf-8"
    } else if same_str(ext, "js") || same_str(ext, "mjs") || same_str(ext, "cjs") {
        "text/javascript; charset=utf-8"
    } else if same_str(ext, "html") || same_str(ext, "htm") {
        "text/html; charset=utf-8"
    } else if same_str(ext, "svg") {
        "image/svg+xml"
    } else if same_str(ext, "png") {
        "image/png"
    } else if same_str(ext, "jpg") || same_str(ext, "jpeg") {
        "image/jpeg"
    } else if same_str(ext, "gif") {
        "image/gif"
    } else if same_str(ext, "webp") {
        "image/webp"
    } else if same_str(ext, "avif") {
        "image/avif"
    } else if same_str(ext, "ico") {
        "image/x-icon"
    } else if same_str(ext, "bmp") {
        "image/bmp"
    } else if same_str(ext, "pdf") {
        "application/pdf"
    } else if same_str(ext, "mp4") {
        "video/mp4"
    } else if same_str(ext, "webm") {
        "video/webm"
    } else if same_str(ext, "mp3") {
        "audio/mpeg"
    } else if same_str(ext, "wav") {
        "audio/wav"
    } else if same_str(ext, "flac") {
        "audio/flac"
    } else if same_str(ext, "ogg") || same_str(ext, "opus") {
        "audio/ogg"
    } else if same_str(ext, "woff") {
        "font/woff"
    } else if same_str(ext, "woff2") {
        "font/woff2"
    } else if same_str(ext, "ttf") {
        "font/ttf"
    } else if same_str(ext, "otf") {
        "font/otf"
    } else if same_str(ext, "wasm") {
        "application/wasm"
    } else if same_str(ext, "zip") {
        "application/zip"
    } else if same_str(ext, "gz") || same_str(ext, "tgz") {
        "application/gzip"
    } else if same_str(ext, "bz2") {
        "application/x-bzip2"
    } else if same_str(ext, "xz") {
        "application/x-xz"
    } else if same_str(ext, "tar") {
        "application/x-tar"
    } else if same_str(ext, "bin") || same_str(ext, "exe") || same_str(ext, "so") || same_str(ext, "dylib") || same_str(ext, "o") || same_str(ext, "a") {
        "application/octet-stream"
    } else {
        "text/plain; charset=utf-8"
    }
}

/// Where the last dot of a name is.
pub open spec fn last_dot(name: Seq<u8>) -> Option<int>
    decreases name.len(),
{
    if name.len() == 0 {
        None
    } else if name.last() == DOT {
        Some(name.len() - 1)
    } else {
        last_dot(name.drop_last())
    }
}

/// What comes after the last dot of a name, unless that is what it begins with.
pub open spec fn extension_of(name: Seq<u8>) -> Seq<u8> {
    match last_dot(name) {
        Some(d) if d > 0 => name.skip(d + 1),
        _ => Seq::empty(),
    }
}

/// The extension of a path as text in lower case, or nothing where there is
/// none that is text.
pub open spec fn extension_text(path: PathView) -> Seq<char> {
    match path.file_name() {
        Some(name) if valid_utf8(extension_of(name)) => lowered(decode_utf8(extension_of(name))),
        _ => Seq::empty(),
    }
}

/// The bytes after the last dot of a name, unless that is what it begins with.
fn extension(name: &Vec<u8>) -> (ext: Vec<u8>)
    ensures
        ext@ == extension_of(name@),
{
    let mut i: usize = name.len();
    assert(name@.take(name@.len() as int) =~= name@);
    while i > 0
        invariant
            i <= name@.len(),
            last_dot(name@) == last_dot(name@.take(i as int)),
        decreases i,
    {
        proof {
            assert(name@.take(i as int).drop_last() =~= name@.take(i - 1));
            assert(name@.take(i as int).last() == name@[i - 1]);
        }
        if name[i - 1] == DOT {
            if i == 1 {
                return Vec::new();
            }
            let rest: &[u8] = vstd::slice::slice_subrange(name.as_slice(), i, name.len());
            let mut ext: Vec<u8> = Vec::new();
            ext.extend_from_slice(rest);
            assert(ext@ =~= name@.skip(i as int));
            return ext;
        }
        i -= 1;
    }
    Vec::new()
}

/// Guessed from the extension, defaulting to plain text so source files render
/// in the tab instead of prompting a download.
pub fn content_type(path: &TreePath) -> (t: &'static str)
    ensures
        t@ == type_for(extension_text(path@)),
{
    let mut ext: Vec<char> = Vec::new();
    if let Some(name) = path.last_name() {
        let dot: bool = name.len() == 1 && name[0] == DOT;
        let dots: bool = name.len() == 2 && name[0] == DOT && name[1] == DOT;
        assert(dot == (name@ =~= seq![DOT]));
        assert(dots == (name@ =~= seq![DOT, DOT]));
        if !dot && !dots {
            if let Ok(text) = utf8_text(extension(name)) {
                ext = chars_of(text.as_str());
            }
        }
    }
    lower_ascii(&mut ext);
    assert(ext@ =~= extension_text(path@));
    let text: String = string_of(&ext);
    type_of(text.as_str())
}

/// A path without the `/f/`s it begins with.
pub open spec fn without_prefix(path: Seq<u8>) -> Seq<u8>
    decreases path.len(),
{
    if path.len() >= 3 && path[0] == SLASH && path[1] == 102 && path[2] == SLASH {
        without_prefix(path.skip(3))
    } else {
        path
    }
}

/// The names a file's address spells below the root, or `None` where one of
/// them does not name anything there: `..` anywhere, or `.` at the start.
pub open spec fn named_below(parts: Seq<Seq<u8>>) -> Option<Seq<Seq<u8>>>
    decreases parts.len(),
{
    if parts.len() == 0 {
        Some(Seq::empty())
    } else {
        let last = parts.last();
        match named_below(parts.drop_last()) {
            None => None,
            Some(names) => if last.len() == 0 {
                Some(names)
            } else if last == seq![DOT, DOT] {
                None
            } else if last == seq![DOT] {
                if all_empty(parts.drop_last()) {
                    None
                } else {
                    Some(names)
                }
            } else {
                Some(names.push(last))
            },
        }
    }
}

/// Whether nothing but separators came so far.
pub open spec fn all_empty(parts: Seq<Seq<u8>>) -> bool {
    forall|k: int| #![trigger parts[k]] 0 <= k < parts.len() ==> parts[k].len() == 0
}

/// The file an address asks for.
pub open spec fn asked_file(root: PathView, address: Seq<u8>) -> Option<PathView> {
    match named_below(split_on(without_prefix(address), SLASH)) {
        Some(names) => Some(PathView { absolute: root.absolute, names: root.names + names }),
        None => None,
    }
}

/// What an address under `/f/` comes to.
pub enum FileStep {
    Reply(Response),
    /// Open this file and send it.
    Open(TreePath),
}

/// Reads the file out of an address.
fn file_at(root: &TreePath, address: &[u8]) -> (r: Option<TreePath>)
    ensures
        match r {
            Some(p) => asked_file(root@, address@) == Some(p@),
            None => asked_file(root@, address@) is None,
        },
{
    let mut from: usize = 0;
    assert(address@.skip(0) =~= address@);
    while from < address.len() && address.len() - from >= 3 && address[from] == SLASH && address[from + 1] == 102 && address[from
        + 2] == SLASH
        invariant
            from <= address@.len(),
            without_prefix(address@) == without_prefix(address@.skip(from as int)),
        decreases address.len() - from,
    {
        assert(address@.skip(from as int).skip(3) =~= address@.skip(from + 3));
        from += 3;
    }
    let rest: &[u8] = vstd::slice::slice_subrange(address, from, address.len());
    assert(rest@ =~= address@.skip(from as int));
    assert(rest@ == without_prefix(address@)) by {
        let t = address@.skip(from as int);
        if t.len() >= 3 {
            assert(t[0] == address@[from as int]);
            assert(t[1] == address@[from + 1]);
            assert(t[2] == address@[from + 2]);
        }
    }
    let parts: Vec<Vec<u8>> = split_bytes(rest, SLASH);
    let ghost all = views(parts@);
    let mut p: TreePath = root.clone();
    let ghost mut names: Seq<Seq<u8>> = Seq::empty();
    let mut begun: bool = false;
    let mut i: usize = 0;
    assert(all.take(0) =~= Seq::<Seq<u8>>::empty());
    assert(root@.names + names =~= root@.names);
    while i < parts.len()
        invariant
            i <= parts@.len(),
            all == views(parts@),
            named_below(all.take(i as int)) == Some(names),
            p@ == (PathView { absolute: root@.absolute, names: root@.names + names }),
            begun == !all_empty(all.take(i as int)),
            rest@ == without_prefix(address@),
            all == split_on(rest@, SLASH),
        decreases parts.len() - i,
    {
        let part: &Vec<u8> = &parts[i];
        let dot: bool = part.len() == 1 && part[0] == DOT;
        let dots: bool = part.len() == 2 && part[0] == DOT && part[1] == DOT;
        proof {
            assert(all.take(i + 1).drop_last() =~= all.take(i as int));
            assert(all.take(i + 1).last() == part@);
            assert(dot == (part@ =~= seq![DOT]));
            assert(dots == (part@ =~= seq![DOT, DOT]));
        }
        if dots || (dot && !begun) {
            proof {
                lemma_named_below_prefix(all, i + 1);
                assert(all.take(all.len() as int) =~= all);
            }
            return None;
        }
        if part.len() > 0 && !dot {
            let mut name: Vec<u8> = Vec::new();
            name.extend_from_slice(part.as_slice());
            assert(name@ =~= part@);
            p = p.join(name);
            proof {
                assert((root@.names + names).push(part@) =~= root@.names + names.push(part@));
                names = names.push(part@);
            }
        }
        proof {
            if part.len() > 0 {
                assert(all.take(i + 1)[i as int].len() > 0);
            } else {
                assert forall|k: int| 0 <= k < i + 1 implies #[trigger] all.take(i + 1)[k].len() == (if k < i {
                    all.take(i as int)[k].len()
                } else {
                    0
                }) by {}
                if begun {
                    let k = choose|k: int| 0 <= k < i && #[trigger] all.take(i as int)[k].len() != 0;
                    assert(all.take(i + 1)[k].len() != 0);
                }
            }
        }
        if part.len() > 0 {
            begun = true;
        }
        i += 1;
    }
    assert(all.take(all.len() as int) =~= all);
    Some(p)
}

proof fn lemma_named_below_prefix(parts: Seq<Seq<u8>>, n: int)
    requires
        0 <= n <= parts.len(),
        named_below(parts.take(n)) is None,
    ensures
        named_below(parts) is None,
    decreases parts.len() - n,
{
    if n < parts.len() {
        assert(parts.take(n + 1).drop_last() =~= parts.take(n));
        lemma_named_below_prefix(parts, n + 1);
    } else {
        assert(parts.take(n) =~= parts);
    }
}

/// Finds the file under `/f/<path>`, so the browser can open it in a tab.
///
/// Same gate as the preview: it has to be a file the tree is showing. Unlike the
/// preview there is no size limit: the browser streams it, and refusing to open
/// a large file behind a plain link would be surprising.
pub fn raw_file(request: &Request, preview: Option<PreviewOptions>, session: &Session) -> (r: FileStep)
    requires
        session.wf(),
    ensures
        ({
            let root = at(session.tree.slots(), session.tree.top()).path@;
            match preview {
                None => r matches FileStep::Reply(reply) && is_text_response(reply, 403, "file contents are disabled"@),
                Some(_) => match asked_file(root, encode_utf8(request.path@)) {
                    None => r matches FileStep::Reply(reply) && is_text_response(reply, 400, "bad path"@),
                    Some(path) => if shows_file(session.tree.slots(), session.tree.top(), path) {
                        r matches FileStep::Open(p) && p@ == path && p@.under(root)
                    } else {
                        r matches FileStep::Reply(reply) && is_text_response(reply, 404, "no such file in this tree"@)
                    },
                },
            }
        }),
{
    if preview.is_none() {
        return FileStep::Reply(Response::text(403, "file contents are disabled"));
    }
    let root: TreePath = session.root();
    let path: TreePath = match file_at(&root, request.path.as_str().as_bytes()) {
        Some(path) => path,
        None => {
            return FileStep::Reply(Response::text(400, "bad path"));
        }
    };
    match session.visible_file(&path) {
        Some(path) => FileStep::Open(path),
        None => FileStep::Reply(Response::text(404, "no such file in this tree")),
    }
}

/// What keeps HTML and SVG from scripting against treex's own origin: both run
/// scripts when opened as a top-level document, and would be able to drive the
/// tree and read every file in it. `sandbox` drops them into an opaque origin
/// with scripting off, which keeps the rendering without the reach.
pub open spec fn sandbox_policy() -> Seq<char> {
    "sandbox; default-src 'none'; img-src 'self' data:; style-src 'unsafe-inline'"@
}

/// The reply for a file that was opened, or could not be.
pub fn file_response(path: &TreePath, len: Option<u64>) -> (r: Response)
    ensures
        match len {
            Some(len) => {
                &&& r.status == 200
                &&& r.body == Body::File(len)
                &&& header_views(r.headers@) == seq![
                    ("content-type"@, type_for(extension_text(path@))),
                    ("content-disposition"@, "inline"@),
                    ("content-security-policy"@, sandbox_policy()),
                ]
            },
            None => is_text_response(r, 404, "cannot open it"@),
        },
{
    match len {
        Some(len) => {
            let mut headers: Vec<(String, String)> = Vec::new();
            headers.push(("content-type".to_owned(), content_type(path).to_owned()));
            headers.push(("content-disposition".to_owned(), "inline".to_owned()));
            headers.push(
                (
                    "content-security-policy".to_owned(),
                    "sandbox; default-src 'none'; img-src 'self' data:; style-src 'unsafe-inline'".to_owned(),
                ),
            );
            assert(header_views(headers@) =~= seq![
                ("content-type"@, type_for(extension_text(path@))),
                ("content-disposition"@, "inline"@),
                ("content-security-policy"@, sandbox_policy()),
            ]);
            Response { status: 200, headers, body: Body::File(len) }
        }
        None => Response::text(404, "cannot open it"),
    }
}

/// Nothing above the root can be asked for: an address either names something
/// at or below it or names nothing.
pub proof fn lemma_addresses_stay_below_root(root: PathView, address: Seq<u8>)
    ensures
        asked_file(root, address) matches Some(p) ==> p.under(root),
{
    if let Some(p) = asked_file(root, address) {
        assert(root.names.is_prefix_of(p.names)) by {
            assert(root.names =~= p.names.take(root.names.len() as int));
        }
    }
}

/// Names that can each come out of a directory listing.
pub open spec fn listable(names: Seq<Seq<u8>>) -> bool {
    forall|k: int|
        #![trigger names[k]]
        0 <= k < names.len() ==> names[k].len() > 0 && !names[k].contains(SLASH) && names[k] != seq![DOT]
            && names[k] != seq![DOT, DOT]
}

/// Names joined by slashes.
pub open spec fn joined(names: Seq<Seq<u8>>) -> Seq<u8> {
    PathView { absolute: false, names }.text()
}

/// Every file below the root has an address: `/f/` and its names joined by
/// slashes, whatever they are called. A file called `ws` or `api` is no
/// different from any other.
pub proof fn lemma_every_file_has_an_address(root: PathView, names: Seq<Seq<u8>>)
    requires
        names.len() > 0,
        listable(names),
    ensures
        asked_file(root, seq![SLASH, 102u8, SLASH] + joined(names)) == Some(
            PathView { absolute: root.absolute, names: root.names + names },
        ),
{
    let rest = joined(names);
    let address = seq![SLASH, 102u8, SLASH] + rest;
    assert(address.skip(3) =~= rest);
    lemma_joined_starts(names);
    assert(without_prefix(rest) == rest);
    assert(without_prefix(address) == rest);
    lemma_joined_splits(names);
    lemma_listable_named(names);
}

/// An address may say `/f/` more than once and still asks for the same file.
pub proof fn lemma_the_prefix_may_be_repeated(root: PathView, address: Seq<u8>)
    ensures
        asked_file(root, seq![SLASH, 102u8, SLASH] + address) == asked_file(root, address),
{
    let twice = seq![SLASH, 102u8, SLASH] + address;
    assert(twice.skip(3) =~= address);
}

proof fn lemma_joined_starts(names: Seq<Seq<u8>>)
    requires
        names.len() > 0,
        listable(names),
    ensures
        joined(names).len() > 0,
        joined(names)[0] != SLASH,
    decreases names.len(),
{
    reveal_with_fuel(PathView::text, 2);
    let p = PathView { absolute: false, names };
    assert(names[0].len() > 0);
    if names.len() == 1 {
        assert(p.text() =~= names[0]);
        assert(names[0][0] != SLASH) by {
            if names[0][0] == SLASH {
                assert(names[0].contains(SLASH));
            }
        }
    } else {
        let front = names.drop_last();
        assert forall|k: int| #![trigger front[k]] 0 <= k < front.len() implies front[k].len() > 0 && !front[k].contains(SLASH)
            && front[k] != seq![DOT] && front[k] != seq![DOT, DOT] by {
            assert(front[k] == names[k]);
        }
        lemma_joined_starts(front);
        assert(p.up() == (PathView { absolute: false, names: front }));
        assert(p.text()[0] == joined(front)[0]);
    }
}

proof fn lemma_joined_splits(names: Seq<Seq<u8>>)
    requires
        names.len() > 0,
        listable(names),
    ensures
        split_on(joined(names), SLASH) == names,
    decreases names.len(),
{
    reveal_with_fuel(PathView::text, 2);
    let p = PathView { absolute: false, names };
    assert(names.last() == names[names.len() - 1]);
    if names.len() == 1 {
        assert(p.text() =~= names[0]);
        lemma_split_single(names[0], SLASH);
        assert(seq![names[0]] =~= names);
    } else {
        let front = names.drop_last();
        assert forall|k: int| #![trigger front[k]] 0 <= k < front.len() implies front[k].len() > 0 && !front[k].contains(SLASH)
            && front[k] != seq![DOT] && front[k] != seq![DOT, DOT] by {
            assert(front[k] == names[k]);
        }
        lemma_joined_splits(front);
        assert(p.up() == (PathView { absolute: false, names: front }));
        lemma_split_append(joined(front), SLASH, names.last());
        assert(front.push(names.last()) =~= names);
    }
}

proof fn lemma_listable_named(names: Seq<Seq<u8>>)
    requires
        listable(names),
    ensures
        named_below(names) == Some(names),
    decreases names.len(),
{
    if names.len() == 0 {
        assert(names =~= Seq::<Seq<u8>>::empty());
    } else {
        let front = names.drop_last();
        assert forall|k: int| #![trigger front[k]] 0 <= k < front.len() implies front[k].len() > 0 && !front[k].contains(SLASH)
            && front[k] != seq![DOT] && front[k] != seq![DOT, DOT] by {
            assert(front[k] == names[k]);
        }
        lemma_listable_named(front);
        assert(names.last() == names[names.len() - 1]);
        assert(front.push(names.last()) =~= names);
    }
}

// -- laws -----------------------------------------------------------------

/// The extensions there is a type for, letter by letter.
proof fn lemma_extension_letters()
    ensures
        "json"@.len() == 4 && "json"@[0] == 'j' && "json"@[1] == 's' && "json"@[2] == 'o' && "json"@[3] == 'n',
        "map"@.len() == 3 && "map"@[0] == 'm' && "map"@[1] == 'a' && "map"@[2] == 'p',
        "jsonl"@.len() == 5 && "jsonl"@[0] == 'j' && "jsonl"@[1] == 's' && "jsonl"@[2] == 'o' && "jsonl"@[3] == 'n' && "jsonl"@[4] == 'l',
        "ndjson"@.len() == 6 && "ndjson"@[0] == 'n' && "ndjson"@[1] == 'd' && "ndjson"@[2] == 'j' && "ndjson"@[3] == 's' && "ndjson"@[4] == 'o' && "ndjson"@[5] == 'n',
        "md"@.len() == 2 && "md"@[0] == 'm' && "md"@[1] == 'd',
        "markdown"@.len() == 8 && "markdown"@[0] == 'm' && "markdown"@[1] == 'a' && "markdown"@[2] == 'r' && "markdown"@[3] == 'k' && "markdown"@[4] == 'd' && "markdown"@[5] == 'o' && "markdown"@[6] == 'w' && "markdown"@[7] == 'n',
        "toml"@.len() == 4 && "toml"@[0] == 't' && "toml"@[1] == 'o' && "toml"@[2] == 'm' && "toml"@[3] == 'l',
        "yaml"@.len() == 4 && "yaml"@[0] == 'y' && "yaml"@[1] == 'a' && "yaml"@[2] == 'm' && "yaml"@[3] == 'l',
        "yml"@.len() == 3 && "yml"@[0] == 'y' && "yml"@[1] == 'm' && "yml"@[2] == 'l',
        "csv"@.len() == 3 && "csv"@[0] == 'c' && "csv"@[1] == 's' && "csv"@[2] == 'v',
        "tsv"@.len() == 3 && "tsv"@[0] == 't' && "tsv"@[1] == 's' && "tsv"@[2] == 'v',
        "xml"@.len() == 3 && "xml"@[0] == 'x' && "xml"@[1] == 'm' && "xml"@[2] == 'l',
        "css"@.len() == 3 && "css"@[0] == 'c' && "css"@[1] == 's' && "css"@[2] == 's',
        "js"@.len() == 2 && "js"@[0] == 'j' && "js"@[1] == 's',
        "mjs"@.len() == 3 && "mjs"@[0] == 'm' && "mjs"@[1] == 'j' && "mjs"@[2] == 's',
        "cjs"@.len() == 3 && "cjs"@[0] == 'c' && "cjs"@[1] == 'j' && "cjs"@[2] == 's',
        "html"@.len() == 4 && "html"@[0] == 'h' && "html"@[1] == 't' && "html"@[2] == 'm' && "html"@[3] == 'l',
        "htm"@.len() == 3 && "htm"@[0] == 'h' && "htm"@[1] == 't' && "htm"@[2] == 'm',
        "svg"@.len() == 3 && "svg"@[0] == 's' && "svg"@[1] == 'v' && "svg"@[2] == 'g',
        "png"@.len() == 3 && "png"@[0] == 'p' && "png"@[1] == 'n' && "png"@[2] == 'g',
        "jpg"@.len() == 3 && "jpg"@[0] == 'j' && "jpg"@[1] == 'p' && "jpg"@[2] == 'g',
        "jpeg"@.len() == 4 && "jpeg"@[0] == 'j' && "jpeg"@[1] == 'p' && "jpeg"@[2] == 'e' && "jpeg"@[3] == 'g',
        "gif"@.len() == 3 && "gif"@[0] == 'g' && "gif"@[1] == 'i' && "gif"@[2] == 'f',
        "webp"@.len() == 4 && "webp"@[0] == 'w' && "webp"@[1] == 'e' && "webp"@[2] == 'b' && "webp"@[3] == 'p',
        "avif"@.len() == 4 && "avif"@[0] == 'a' && "avif"@[1] == 'v' && "avif"@[2] == 'i' && "avif"@[3] == 'f',
        "ico"@.len() == 3 && "ico"@[0] == 'i' && "ico"@[1] == 'c' && "ico"@[2] == 'o',
        "bmp"@.len() == 3 && "bmp"@[0] == 'b' && "bmp"@[1] == 'm' && "bmp"@[2] == 'p',
        "pdf"@.len() == 3 && "pdf"@[0] == 'p' && "pdf"@[1] == 'd' && "pdf"@[2] == 'f',
        "mp4"@.len() == 3 && "mp4"@[0] == 'm' && "mp4"@[1] == 'p' && "mp4"@[2] == '4',
        "webm"@.len() == 4 && "webm"@[0] == 'w' && "webm"@[1] == 'e' && "webm"@[2] == 'b' && "webm"@[3] == 'm',
        "mp3"@.len() == 3 && "mp3"@[0] == 'm' && "mp3"@[1] == 'p' && "mp3"@[2] == '3',
        "wav"@.len() == 3 && "wav"@[0] == 'w' && "wav"@[1] == 'a' && "wav"@[2] == 'v',
        "flac"@.len() == 4 && "flac"@[0] == 'f' && "flac"@[1] == 'l' && "flac"@[2] == 'a' && "flac"@[3] == 'c',
        "ogg"@.len() == 3 && "ogg"@[0] == 'o' && "ogg"@[1] == 'g' && "ogg"@[2] == 'g',
        "opus"@.len() == 4 && "opus"@[0] == 'o' && "opus"@[1] == 'p' && "opus"@[2] == 'u' && "opus"@[3] == 's',
        "woff"@.len() == 4 && "woff"@[0] == 'w' && "woff"@[1] == 'o' && "woff"@[2] == 'f' && "woff"@[3] == 'f',
        "woff2"@.len() == 5 && "woff2"@[0] == 'w' && "woff2"@[1] == 'o' && "woff2"@[2] == 'f' && "woff2"@[3] == 'f' && "woff2"@[4] == '2',
        "ttf"@.len() == 3 && "ttf"@[0] == 't' && "ttf"@[1] == 't' && "ttf"@[2] == 'f',
        "otf"@.len() == 3 && "otf"@[0] == 'o' && "otf"@[1] == 't' && "otf"@[2] == 'f',
        "wasm"@.len() == 4 && "wasm"@[0] == 'w' && "wasm"@[1] == 'a' && "wasm"@[2] == 's' && "wasm"@[3] == 'm',
        "zip"@.len() == 3 && "zip"@[0] == 'z' && "zip"@[1] == 'i' && "zip"@[2] == 'p',
        "gz"@.len() == 2 && "gz"@[0] == 'g' && "gz"@[1] == 'z',
        "tgz"@.len() == 3 && "tgz"@[0] == 't' && "tgz"@[1] == 'g' && "tgz"@[2] == 'z',
        "bz2"@.len() == 3 && "bz2"@[0] == 'b' && "bz2"@[1] == 'z' && "bz2"@[2] == '2',
        "xz"@.len() == 2 && "xz"@[0] == 'x' && "xz"@[1] == 'z',
        "tar"@.len() == 3 && "tar"@[0] == 't' && "tar"@[1] == 'a' && "tar"@[2] == 'r',
        "bin"@.len() == 3 && "bin"@[0] == 'b' && "bin"@[1] == 'i' && "bin"@[2] == 'n',
        "exe"@.len() == 3 && "exe"@[0] == 'e' && "exe"@[1] == 'x' && "exe"@[2] == 'e',
        "so"@.len() == 2 && "so"@[0] == 's' && "so"@[1] == 'o',
        "dylib"@.len() == 5 && "dylib"@[0] == 'd' && "dylib"@[1] == 'y' && "dylib"@[2] == 'l' && "dylib"@[3] == 'i' && "dylib"@[4] == 'b',
        "o"@.len() == 1 && "o"@[0] == 'o',
        "a"@.len() == 1 && "a"@[0] == 'a',
{
    reveal_strlit("json");
    reveal_strlit("map");
    reveal_strlit("jsonl");
    reveal_strlit("ndjson");
    reveal_strlit("md");
    reveal_strlit("markdown");
    reveal_strlit("toml");
    reveal_strlit("yaml");
    reveal_strlit("yml");
    reveal_strlit("csv");
    reveal_strlit("tsv");
    reveal_strlit("xml");
    reveal_strlit("css");
    reveal_strlit("js");
    reveal_strlit("mjs");
    reveal_strlit("cjs");
    reveal_strlit("html");
    reveal_strlit("htm");
    reveal_strlit("svg");
    reveal_strlit("png");
    reveal_strlit("jpg");
    reveal_strlit("jpeg");
    reveal_strlit("gif");
    reveal_strlit("webp");
    reveal_strlit("avif");
    reveal_strlit("ico");
    reveal_strlit("bmp");
    reveal_strlit("pdf");
    reveal_strlit("mp4");
    reveal_strlit("webm");
    reveal_strlit("mp3");
    reveal_strlit("wav");
    reveal_strlit("flac");
    reveal_strlit("ogg");
    reveal_strlit("opus");
    reveal_strlit("woff");
    reveal_strlit("woff2");
    reveal_strlit("ttf");
    reveal_strlit("otf");
    reveal_strlit("wasm");
    reveal_strlit("zip");
    reveal_strlit("gz");
    reveal_strlit("tgz");
    reveal_strlit("bz2");
    reveal_strlit("xz");
    reveal_strlit("tar");
    reveal_strlit("bin");
    reveal_strlit("exe");
    reveal_strlit("so");
    reveal_strlit("dylib");
    reveal_strlit("o");
    reveal_strlit("a");
}

/// Pictures, films, sounds, fonts and documents go by their own names, text that
/// has a type of its own says so, two spellings of one extension are one, and
/// what is not known is plain text.
pub proof fn lemma_types_go_by_their_names(ext: Seq<char>)
    ensures
        ext == "png"@ || ext == "gif"@ || ext == "webp"@ || ext == "avif"@ || ext == "bmp"@ ==> type_for(ext) == "image/"@ + ext,
        ext == "mp4"@ || ext == "webm"@ ==> type_for(ext) == "video/"@ + ext,
        ext == "wav"@ || ext == "flac"@ ==> type_for(ext) == "audio/"@ + ext,
        ext == "woff"@ || ext == "woff2"@ || ext == "ttf"@ || ext == "otf"@ ==> type_for(ext) == "font/"@ + ext,
        ext == "json"@ || ext == "toml"@ || ext == "yaml"@ || ext == "xml"@ || ext == "pdf"@ || ext == "wasm"@ || ext == "zip"@ ==> type_for(ext) == "application/"@ + ext,
        ext == "csv"@ || ext == "css"@ || ext == "html"@ ==> type_for(ext) == "text/"@ + ext + "; charset=utf-8"@,
        ext == "jpg"@ ==> type_for(ext) == type_for("jpeg"@),
        ext == "htm"@ ==> type_for(ext) == type_for("html"@),
        ext == "yml"@ ==> type_for(ext) == type_for("yaml"@),
        ext == "md"@ ==> type_for(ext) == type_for("markdown"@),
        ext == "mjs"@ ==> type_for(ext) == type_for("js"@),
        ext == "cjs"@ ==> type_for(ext) == type_for("js"@),
        ext == "tgz"@ ==> type_for(ext) == type_for("gz"@),
        ext == "map"@ ==> type_for(ext) == type_for("json"@),
        ext == "ndjson"@ ==> type_for(ext) == type_for("jsonl"@),
        ext == "opus"@ ==> type_for(ext) == type_for("ogg"@),
        ext == "exe"@ ==> type_for(ext) == type_for("bin"@),
        ext == "so"@ ==> type_for(ext) == type_for("bin"@),
        ext == "dylib"@ ==> type_for(ext) == type_for("bin"@),
        ext == "o"@ ==> type_for(ext) == type_for("bin"@),
        ext == "a"@ ==> type_for(ext) == type_for("bin"@),
        ext == "svg"@ ==> type_for(ext) == "image/svg+xml"@,
        ext == "jpeg"@ ==> type_for(ext) == "image/jpeg"@,
        ext == "ico"@ ==> type_for(ext) == "image/x-icon"@,
        ext == "mp3"@ ==> type_for(ext) == "audio/mpeg"@,
        ext == "ogg"@ ==> type_for(ext) == "audio/ogg"@,
        ext == "js"@ ==> type_for(ext) == "text/javascript; charset=utf-8"@,
        ext == "markdown"@ ==> type_for(ext) == "text/markdown; charset=utf-8"@,
        ext == "tsv"@ ==> type_for(ext) == "text/tab-separated-values; charset=utf-8"@,
        ext == "jsonl"@ ==> type_for(ext) == "application/x-ndjson"@,
        ext == "gz"@ ==> type_for(ext) == "application/gzip"@,
        ext == "bz2"@ ==> type_for(ext) == "application/x-bzip2"@,
        ext == "xz"@ ==> type_for(ext) == "application/x-xz"@,
        ext == "tar"@ ==> type_for(ext) == "application/x-tar"@,
        ext == "bin"@ ==> type_for(ext) == "application/octet-stream"@,
        ext != "json"@ && ext != "map"@ && ext != "jsonl"@ && ext != "ndjson"@ && ext != "md"@ && ext != "markdown"@ && ext != "toml"@ && ext != "yaml"@ && ext != "yml"@ && ext != "csv"@ && ext != "tsv"@ && ext != "xml"@ && ext != "css"@ && ext != "js"@ && ext != "mjs"@ && ext != "cjs"@ && ext != "html"@ && ext != "htm"@ && ext != "svg"@ && ext != "png"@ && ext != "jpg"@ && ext != "jpeg"@ && ext != "gif"@ && ext != "webp"@ && ext != "avif"@ && ext != "ico"@ && ext != "bmp"@ && ext != "pdf"@ && ext != "mp4"@ && ext != "webm"@ && ext != "mp3"@ && ext != "wav"@ && ext != "flac"@ && ext != "ogg"@ && ext != "opus"@ && ext != "woff"@ && ext != "woff2"@ && ext != "ttf"@ && ext != "otf"@ && ext != "wasm"@ && ext != "zip"@ && ext != "gz"@ && ext != "tgz"@ && ext != "bz2"@ && ext != "xz"@ && ext != "tar"@ && ext != "bin"@ && ext != "exe"@ && ext != "so"@ && ext != "dylib"@ && ext != "o"@ && ext != "a"@ ==> type_for(ext) == "text/plain; charset=utf-8"@,
{
    lemma_extension_letters();
    reveal_strlit("image/");
    reveal_strlit("video/");
    reveal_strlit("audio/");
    reveal_strlit("font/");
    reveal_strlit("application/");
    reveal_strlit("text/");
    reveal_strlit("; charset=utf-8");
    if ext == "png"@ {
        reveal_strlit("image/png");
        assert(type_for(ext) == "image/png"@);
        assert("image/png"@ =~= "image/"@ + ext);
    }
    if ext == "gif"@ {
        reveal_strlit("image/gif");
        assert(type_for(ext) == "image/gif"@);
        assert("image/gif"@ =~= "image/"@ + ext);
    }
    if ext == "webp"@ {
        reveal_strlit("image/webp");
        assert(type_for(ext) == "image/webp"@);
        assert("image/webp"@ =~= "image/"@ + ext);
    }
    if ext == "avif"@ {
        reveal_strlit("image/avif");
        assert(type_for(ext) == "image/avif"@);
        assert("image/avif"@ =~= "image/"@ + ext);
    }
    if ext == "bmp"@ {
        reveal_strlit("image/bmp");
        assert(type_for(ext) == "image/bmp"@);
        assert("image/bmp"@ =~= "image/"@ + ext);
    }
    if ext == "mp4"@ {
        reveal_strlit("video/mp4");
        assert(type_for(ext) == "video/mp4"@);
        assert("video/mp4"@ =~= "video/"@ + ext);
    }
    if ext == "webm"@ {
        reveal_strlit("video/webm");
        assert(type_for(ext) == "video/webm"@);
        assert("video/webm"@ =~= "video/"@ + ext);
    }
    if ext == "wav"@ {
        reveal_strlit("audio/wav");
        assert(type_for(ext) == "audio/wav"@);
        assert("audio/wav"@ =~= "audio/"@ + ext);
    }
    if ext == "flac"@ {
        reveal_strlit("audio/flac");
        assert(type_for(ext) == "audio/flac"@);
        assert("audio/flac"@ =~= "audio/"@ + ext);
    }
    if ext == "woff"@ {
        reveal_strlit("font/woff");
        assert(type_for(ext) == "font/woff"@);
        assert("font/woff"@ =~= "font/"@ + ext);
    }
    if ext == "woff2"@ {
        reveal_strlit("font/woff2");
        assert(type_for(ext) == "font/woff2"@);
        assert("font/woff2"@ =~= "font/"@ + ext);
    }
    if ext == "ttf"@ {
        reveal_strlit("font/ttf");
        assert(type_for(ext) == "font/ttf"@);
        assert("font/ttf"@ =~= "font/"@ + ext);
    }
    if ext == "otf"@ {
        reveal_strlit("font/otf");
        assert(type_for(ext) == "font/otf"@);
        assert("font/otf"@ =~= "font/"@ + ext);
    }
    if ext == "json"@ {
        reveal_strlit("application/json");
        assert(type_for(ext) == "application/json"@);
        assert("application/json"@ =~= "application/"@ + ext);
    }
    if ext == "toml"@ {
        reveal_strlit("application/toml");
        assert(type_for(ext) == "application/toml"@);
        assert("application/toml"@ =~= "application/"@ + ext);
    }
    if ext == "yaml"@ {
        reveal_strlit("application/yaml");
        assert(type_for(ext) == "application/yaml"@);
        assert("application/yaml"@ =~= "application/"@ + ext);
    }
    if ext == "xml"@ {
        reveal_strlit("application/xml");
        assert(type_for(ext) == "application/xml"@);
        assert("application/xml"@ =~= "application/"@ + ext);
    }
    if ext == "pdf"@ {
        reveal_strlit("application/pdf");
        assert(type_for(ext) == "application/pdf"@);
        assert("application/pdf"@ =~= "application/"@ + ext);
    }
    if ext == "wasm"@ {
        reveal_strlit("application/wasm");
        assert(type_for(ext) == "application/wasm"@);
        assert("application/wasm"@ =~= "application/"@ + ext);
    }
    if ext == "zip"@ {
        reveal_strlit("application/zip");
        assert(type_for(ext) == "application/zip"@);
        assert("application/zip"@ =~= "application/"@ + ext);
    }
    if ext == "csv"@ {
        reveal_strlit("text/csv; charset=utf-8");
        assert(type_for(ext) == "text/csv; charset=utf-8"@);
        assert("text/csv; charset=utf-8"@ =~= "text/"@ + ext + "; charset=utf-8"@);
    }
    if ext == "css"@ {
        reveal_strlit("text/css; charset=utf-8");
        assert(type_for(ext) == "text/css; charset=utf-8"@);
        assert("text/css; charset=utf-8"@ =~= "text/"@ + ext + "; charset=utf-8"@);
    }
    if ext == "html"@ {
        reveal_strlit("text/html; charset=utf-8");
        assert(type_for(ext) == "text/html; charset=utf-8"@);
        assert("text/html; charset=utf-8"@ =~= "text/"@ + ext + "; charset=utf-8"@);
    }
}

/// A file has the type of its extension whatever case that is written in.
pub proof fn lemma_types_do_not_go_by_case(a: &TreePath, b: &TreePath, x: &'static str, y: &'static str)
    requires
        call_ensures(content_type, (a,), x),
        call_ensures(content_type, (b,), y),
        a@.file_name() matches Some(n) && (b@.file_name() matches Some(m) && {
            &&& valid_utf8(extension_of(n))
            &&& valid_utf8(extension_of(m))
            &&& lowered(decode_utf8(extension_of(n))) == lowered(decode_utf8(extension_of(m)))
        }),
    ensures
        x@ == y@,
{
}

/// The extension is what comes after the last dot, if anything comes before it.
pub proof fn lemma_the_extension_is_behind_the_last_dot(stem: Seq<u8>, ext: Seq<u8>)
    requires
        !ext.contains(DOT),
    ensures
        stem.len() > 0 ==> extension_of(stem.push(DOT) + ext) == ext,
        extension_of(seq![DOT] + ext).len() == 0,
        extension_of(ext).len() == 0,
{
    lemma_last_dot_is(stem, ext);
    assert((stem.push(DOT) + ext).skip(stem.len() as int + 1) =~= ext);
    lemma_last_dot_is(Seq::empty(), ext);
    assert(Seq::<u8>::empty().push(DOT) + ext =~= seq![DOT] + ext);
    lemma_no_dot(ext);
}

proof fn lemma_no_dot(s: Seq<u8>)
    requires
        !s.contains(DOT),
    ensures
        last_dot(s) is None,
    decreases s.len(),
{
    if s.len() > 0 {
        assert(s.last() == s[s.len() - 1]);
        assert(s.contains(s[s.len() - 1]));
        assert(!s.drop_last().contains(DOT)) by {
            if s.drop_last().contains(DOT) {
                let k = choose|k: int| 0 <= k < s.drop_last().len() && s.drop_last()[k] == DOT;
                assert(s[k] == DOT);
            }
        }
        lemma_no_dot(s.drop_last());
    }
}

proof fn lemma_last_dot_is(stem: Seq<u8>, ext: Seq<u8>)
    requires
        !ext.contains(DOT),
    ensures
        last_dot(stem.push(DOT) + ext) == Some(stem.len() as int),
    decreases ext.len(),
{
    let all = stem.push(DOT) + ext;
    if ext.len() == 0 {
        assert(all =~= stem.push(DOT));
    } else {
        assert(all.last() == ext[ext.len() - 1]);
        assert(ext.contains(ext[ext.len() - 1]));
        assert(all.drop_last() =~= stem.push(DOT) + ext.drop_last());
        assert(!ext.drop_last().contains(DOT)) by {
            if ext.drop_last().contains(DOT) {
                let k = choose|k: int| 0 <= k < ext.drop_last().len() && ext.drop_last()[k] == DOT;
                assert(ext[k] == DOT);
            }
        }
        lemma_last_dot_is(stem, ext.drop_last());
    }
}

/// Where requests go: the page, its picture, the files and the socket are asked
/// for with `GET`, questions with `POST`, what is not there is said not to be,
/// and no other method is taken.
pub proof fn lemma_where_requests_go(request: Request, r: Route)
    requires
        is_route(request, r),
    ensures
        request.path@ == "/ws"@ && request.upgrades() <==> r is Upgrade,
        request.method@ == "GET"@ && request.path@ == "/"@ <==> r is Page,
        request.method@ == "GET"@ && request.path@ == "/favicon.svg"@ <==> r is Favicon,
        request.method@ == "POST"@ && request.path@ == "/rpc"@ <==> r is Rpc,
        request.method@ == "GET"@ && request.path@.len() >= 3 && request.path@[0] == '/' && request.path@[1] == 'f'
            && request.path@[2] == '/' <==> r is File,
        r matches Route::Reply(reply) ==> if request.method@ == "GET"@ || request.method@ == "POST"@ {
            reply.status == 404
        } else {
            reply.status == 405
        },
{
    reveal_strlit("/ws");
    reveal_strlit("/");
    reveal_strlit("/favicon.svg");
    reveal_strlit("/rpc");
    reveal_strlit("/f/");
    reveal_strlit("GET");
    reveal_strlit("POST");
    let path = request.path@;
    assert("/f/"@.is_prefix_of(path) <==> path.len() >= 3 && path[0] == '/' && path[1] == 'f' && path[2] == '/') by {
        if path.len() >= 3 && path[0] == '/' && path[1] == 'f' && path[2] == '/' {
            assert("/f/"@ =~= path.subrange(0, 3));
        }
        if "/f/"@.is_prefix_of(path) {
            assert("/f/"@ =~= path.subrange(0, 3));
            assert(path.subrange(0, 3)[0] == path[0] && path.subrange(0, 3)[1] == path[1] && path.subrange(0, 3)[2] == path[2]);
        }
    }
    assert("GET"@.len() == 3 && "POST"@.len() == 4);
    assert("/ws"@.len() == 3 && "/"@.len() == 1 && "/favicon.svg"@.len() == 12 && "/rpc"@.len() == 4);
    if path == "/ws"@ {
        assert(path[1] == 'w');
    }
    if path == "/favicon.svg"@ {
        assert(path[2] == 'a');
    }
}

/// Ports are tried one after another from the first, as many as asked for and at
/// least one, and only one where any will do. The last one named is the last one
/// there is to try.
pub proof fn lemma_which_ports_are_tried(base: u16, attempts: u16)
    ensures
        base != 0 && attempts > 0 ==> tries(base, attempts) == attempts,
        base == 0 ==> tries(base, attempts) == 1,
        attempts == 0 ==> tries(base, attempts) == 1,
        base <= last_port(base, attempts) <= 65535,
        last_port(base, attempts) - base < tries(base, attempts),
        last_port(base, attempts) < 65535 ==> last_port(base, attempts) - base + 1 == tries(base, attempts),
        DEFAULT_PORT == 11711,
{
}

/// Where a listener says it is: on this machine under the machine's own name, and
/// elsewhere under the address, in brackets where it has colons in it. Listening
/// everywhere it names the address others can reach first, where there is one.
pub proof fn lemma_where_a_listener_says_it_is(a: u8, b: u8, c: u8, d: u8, port: u16, outbound: Option<Host>)
    ensures
        ({
            let host = Host::V4(a, b, c, d);
            let at = decimal(a as nat) + "."@ + decimal(b as nat) + "."@ + decimal(c as nat) + "."@ + decimal(d as nat) + ":"@ + decimal(
                port as nat,
            );
            let here = "http://localhost:"@ + decimal(port as nat);
            &&& a == 127 ==> urls_of(host, port, outbound) == seq![here]
            &&& a != 127 && !(a == 0 && b == 0 && c == 0 && d == 0) ==> urls_of(host, port, outbound) == seq!["http://"@ + at]
            &&& a == 0 && b == 0 && c == 0 && d == 0 && outbound is None ==> urls_of(host, port, outbound) == seq![here]
            &&& (a != 127 && a != 0) ==> urls_of(Host::V4(0, 0, 0, 0), port, Some(host)) == seq!["http://"@ + at, here]
            &&& a == 127 ==> urls_of(Host::V4(0, 0, 0, 0), port, Some(host)) == seq![here]
        }),
{
    let host = Host::V4(a, b, c, d);
    let at = decimal(a as nat) + "."@ + decimal(b as nat) + "."@ + decimal(c as nat) + "."@ + decimal(d as nat) + ":"@ + decimal(
        port as nat,
    );
    assert("http://"@ + host.text() + ":"@ + decimal(port as nat) =~= "http://"@ + at);
}

/// An IPv6 address stands in brackets in front of a port.
pub proof fn lemma_brackets_hold_the_colons(text: String, port: u16, outbound: Option<Host>)
    ensures
        urls_of(Host::V6 { loopback: false, unspecified: false, text }, port, outbound) == seq![
            "http://["@ + text@ + "]:"@ + decimal(port as nat),
        ],
{
    reveal_strlit("http://[");
    reveal_strlit("http://");
    reveal_strlit("[");
    reveal_strlit("]:");
    reveal_strlit("]");
    reveal_strlit(":");
    let host = Host::V6 { loopback: false, unspecified: false, text };
    assert("http://"@ + host.url_text() + ":"@ + decimal(port as nat) =~= "http://["@ + text@ + "]:"@ + decimal(port as nat));
}

/// An address that goes up anywhere names nothing.
pub proof fn lemma_no_address_goes_up(parts: Seq<Seq<u8>>, k: int)
    requires
        0 <= k < parts.len(),
        parts[k] == seq![46u8, 46u8],
    ensures
        named_below(parts) is None,
    decreases parts.len(),
{
    if k < parts.len() - 1 {
        assert(parts.drop_last()[k] == parts[k]);
        lemma_no_address_goes_up(parts.drop_last(), k);
    }
}

/// A dot that nothing stands before makes an address bad.
pub proof fn lemma_no_address_starts_with_a_dot(parts: Seq<Seq<u8>>, k: int)
    requires
        0 <= k < parts.len(),
        parts[k] == seq![46u8],
        forall|j: int| #![trigger parts[j]] 0 <= j < k ==> parts[j].len() == 0,
    ensures
        named_below(parts) is None,
    decreases parts.len(),
{
    let front = parts.drop_last();
    if k < parts.len() - 1 {
        assert(front[k] == parts[k]);
        lemma_no_address_starts_with_a_dot(front, k);
    } else {
        assert forall|j: int| #![trigger front[j]] 0 <= j < front.len() implies front[j].len() == 0 by {
            assert(front[j] == parts[j]);
        }
    }
}

/// A dot further on, or nothing between two slashes, might as well not be there.
pub proof fn lemma_dots_and_gaps_mean_nothing(parts: Seq<Seq<u8>>, j: int, k: int)
    requires
        0 <= j < k < parts.len(),
        parts[j].len() > 0,
        parts[k].len() == 0 || parts[k] == seq![46u8],
    ensures
        named_below(parts) == named_below(parts.remove(k)),
    decreases parts.len(),
{
    let less = parts.remove(k);
    if k == parts.len() - 1 {
        assert(less =~= parts.drop_last());
        assert(parts.drop_last()[j].len() > 0);
    } else {
        assert(less.drop_last() =~= parts.drop_last().remove(k));
        assert(less.last() == parts.last());
        assert(parts.drop_last()[j] == parts[j]);
        assert(less.drop_last()[j] == parts[j]);
        lemma_dots_and_gaps_mean_nothing(parts.drop_last(), j, k);
    }
}

/// An address that starts with a dot below `/f/` asks for nothing.
pub proof fn lemma_a_dot_asks_for_nothing(root: PathView, rest: Seq<u8>)
    ensures
        asked_file(root, seq![47u8, 102u8, 47u8, 46u8, 47u8] + rest) is None,
{
    let address = seq![47u8, 102u8, 47u8, 46u8, 47u8] + rest;
    let dot = seq![46u8];
    let below = dot.push(47u8) + rest;
    assert(address.skip(3) =~= below);
    assert(without_prefix(below) == below);
    crate::text::lemma_split_joined(dot, 47, rest);
    crate::text::lemma_split_single(dot, 47);
    let parts = split_on(below, 47);
    assert(parts[0] == dot);
    lemma_no_address_starts_with_a_dot(parts, 0);
}

/// A body is packed where it is over four kilobytes and whoever asked can take
/// it, and what a browser is owed goes by what it was last sent.
pub proof fn lemma_when_a_body_is_packed(body: Seq<u8>, headers: Seq<(Seq<char>, Seq<char>)>)
    ensures
        worth_gzip(body, headers) <==> body.len() > 4096 && lists(headers, "accept-encoding"@, "gzip"@),
{
}

/// A browser that has the tree as it is shaped is sent the cursor, and nothing at
/// all where it has the very state.
pub proof fn lemma_what_a_browser_is_owed(sent: Outbox, now: Cursor)
    ensures
        sent.due(now) is Nothing <==> now.revision == sent.revision,
        sent.due(now) is Cursor <==> now.revision != sent.revision && now.shape == sent.shape,
        sent.due(now) is Snapshot <==> now.revision != sent.revision && now.shape != sent.shape,
{
}

/// A file is sent under its own type, to be shown, and in a box: nothing in it
/// can run or reach out.
pub proof fn lemma_how_a_file_is_sent(path: &TreePath, len: u64, r: Response)
    requires
        call_ensures(file_response, (path, Some(len)), r),
    ensures
        r.status == 200,
        r.body == Body::File(len),
        r.spec_length() == len,
        header_in(header_views(r.headers@), "content-type"@) == Some(type_for(extension_text(path@))),
        header_in(header_views(r.headers@), "content-security-policy"@) matches Some(policy) && "sandbox; default-src 'none'"@.is_prefix_of(
            policy,
        ),
{
    let all = header_views(r.headers@);
    reveal_strlit("content-type");
    reveal_strlit("content-disposition");
    reveal_strlit("content-security-policy");
    reveal_strlit("sandbox; default-src 'none'");
    reveal_strlit("sandbox; default-src 'none'; img-src 'self' data:; style-src 'unsafe-inline'");
    assert("content-type"@.len() == 12 && "content-disposition"@.len() == 19 && "content-security-policy"@.len() == 23);
    reveal_with_fuel(header_in, 4);
    assert(all.last() == all[2]);
    assert(all.drop_last().last() == all[1]);
    assert(all.drop_last().drop_last().last() == all[0]);
    assert("sandbox; default-src 'none'"@ =~= sandbox_policy().subrange(0, "sandbox; default-src 'none'"@.len() as int));
}

/// What a question is answered with: nothing that was not understood, nothing
/// where files are not shown, and of files only what has a row.
pub proof fn lemma_what_a_question_gets(call: Option<Rpc>, preview: Option<PreviewOptions>, session: &Session, r: RpcStep)
    requires
        session.wf(),
        call_ensures(rpc, (call, preview, session), r),
    ensures
        call is None ==> (r matches RpcStep::Reply(reply) && reply.status == 400),
        call matches Some(Rpc::Tree) ==> r is Snapshot,
        call matches Some(Rpc::Preview { path, known }) ==> {
            &&& preview is None ==> (r matches RpcStep::Reply(reply) && reply.status == 403)
            &&& preview is Some && !shows_file(session.tree.slots(), session.tree.top(), path@) ==> (r matches RpcStep::Reply(reply)
                && reply.status == 404)
            &&& preview is Some && shows_file(session.tree.slots(), session.tree.top(), path@) ==> (r matches RpcStep::Read {
                path: p,
                opts,
                known: k,
            } && p@ == path@ && Some(opts) == preview && k == known)
        },
{
}

/// A file is opened for a browser where it has a row and its address names it.
pub proof fn lemma_which_files_are_opened(request: &Request, preview: Option<PreviewOptions>, session: &Session, r: FileStep)
    requires
        session.wf(),
        call_ensures(raw_file, (request, preview, session), r),
    ensures
        preview is None ==> (r matches FileStep::Reply(reply) && reply.status == 403),
        r matches FileStep::Open(p) ==> {
            &&& shows_file(session.tree.slots(), session.tree.top(), p@)
            &&& p@.under(at(session.tree.slots(), session.tree.top()).path@)
            &&& preview is Some
        },
        preview is Some && asked_file(at(session.tree.slots(), session.tree.top()).path@, encode_utf8(request.path@)) is None
            ==> (r matches FileStep::Reply(reply) && reply.status == 400),
        preview is Some && r is Reply ==> (r matches FileStep::Reply(reply) && (reply.status == 400 || reply.status == 404)),
{
}

/// JSON goes out as JSON, packed where packing came to something and said to be,
/// and what could not be written is an error.
pub proof fn lemma_how_json_goes_out(body: Option<Vec<u8>>, packed: Option<Vec<u8>>, r: Response)
    requires
        call_ensures(json_reply, (body, packed), r),
    ensures
        body is None ==> r.status == 500,
        body matches Some(b) ==> {
            &&& r.status == 200
            &&& packed matches Some(p) ==> (r.body matches Body::Bytes(sent) && sent@ == p@) && header_views(r.headers@).contains(
                ("content-encoding"@, "gzip"@),
            )
            &&& packed is None ==> (r.body matches Body::Bytes(sent) && sent@ == b@) && header_views(r.headers@).len() == 1
            &&& header_views(r.headers@)[0] == ("content-type"@, "application/json; charset=utf-8"@)
        },
{
    if body is Some && packed is Some {
        assert(header_views(r.headers@)[1] == ("content-encoding"@, "gzip"@));
    }
}

/// A message goes out as text, or as what it was packed to.
pub proof fn lemma_how_a_message_goes_out(json: String, packed: Option<Vec<u8>>, f: Frame)
    requires
        call_ensures(frame_of, (json, packed), f),
    ensures
        packed matches Some(p) ==> f == Frame::Binary(p),
        packed is None ==> f == Frame::Text(json),
{
}

} // verus!
