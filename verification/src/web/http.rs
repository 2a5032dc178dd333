//! A minimal HTTP/1.1 server, enough for five routes: what it reads and what it
//! writes, short of the sockets.
//!
//! Request heads are read by `httparse`, so nothing about framing is
//! hand-rolled. The caps are there so one rude connection cannot hold memory or
//! a task open.

use vstd::prelude::*;
use vstd::string::*;
use vstd::utf8::*;

use crate::text::{
    ascii_of, chars_of, decimal, decimal_of, is_space, lemma_numbers_read_back, lemma_the_end_comes_off,
    lemma_the_start_comes_off, lossy, text_of, lower_ascii, lowered, number_in,
    parse_uint, same_str, string_of, strip_end, strip_start, stripped_end, stripped_start,
};

verus! {

pub const MAX_HEAD: usize = 16 * 1024;

pub const MAX_BODY: usize = 1024 * 1024;

/// Most headers a request may have.
pub const MAX_HEADERS: usize = 48;

/// How much of a body is asked for at a time.
pub const BODY_CHUNK: usize = 8192;

/// How much of a file is sent at a time.
pub const FILE_CHUNK: usize = 64 * 1024;

#[derive(Debug)]
pub struct Request {
    pub method: String,
    /// Path with the query string removed and percent-escapes decoded.
    pub path: String,
    /// Names in lower case. Where one comes twice, the later one counts.
    pub headers: Vec<(String, String)>,
    pub body: Vec<u8>,
}

/// Headers as plain values.
pub open spec fn header_views(headers: Seq<(String, String)>) -> Seq<(Seq<char>, Seq<char>)> {
    headers.map_values(|h: (String, String)| (h.0@, h.1@))
}

/// The value of a header: that of the last one of this name.
pub open spec fn header_in(headers: Seq<(Seq<char>, Seq<char>)>, name: Seq<char>) -> Option<Seq<char>>
    decreases headers.len(),
{
    if headers.len() == 0 {
        None
    } else if headers.last().0 == name {
        Some(headers.last().1)
    } else {
        header_in(headers.drop_last(), name)
    }
}

/// The part of a text before the first of some character.
pub open spec fn up_to(s: Seq<char>, c: char) -> Seq<char>
    decreases s.len(),
{
    if s.len() == 0 || s[0] == c {
        Seq::empty()
    } else {
        seq![s[0]] + up_to(s.drop_first(), c)
    }
}

/// A text without the white space round it.
pub open spec fn trimmed(s: Seq<char>) -> Seq<char> {
    let p = |c: char| is_space(c);
    stripped_end(stripped_start(s, p), p)
}

/// The token an element of a list is about, in lower case: what stands before
/// any parameters, without the white space round it.
pub open spec fn element_token(element: Seq<char>) -> Seq<char> {
    lowered(trimmed(up_to(element, ';')))
}

/// Whether a comma-separated list has an element of this token, whatever the
/// case of either.
pub open spec fn lists_token(list: Seq<char>, token: Seq<char>) -> bool
    decreases list.len(),
{
    let first = up_to(list, ',');
    element_token(first) == lowered(token) || (first.len() < list.len() && lists_token(
        list.skip(first.len() as int + 1),
        token,
    ))
}

/// Whether a header lists a token, whatever its case.
pub open spec fn lists(headers: Seq<(Seq<char>, Seq<char>)>, name: Seq<char>, token: Seq<char>) -> bool {
    header_in(headers, name) matches Some(v) && lists_token(v, token)
}

proof fn lemma_up_to(s: Seq<char>, c: char, n: int)
    requires
        0 <= n <= s.len(),
        forall|k: int| 0 <= k < n ==> s[k] != c,
        n == s.len() || s[n] == c,
    ensures
        up_to(s, c) == s.take(n),
    decreases n,
{
    if n > 0 {
        lemma_up_to(s.drop_first(), c, n - 1);
        assert(seq![s[0]] + s.drop_first().take(n - 1) =~= s.take(n));
    } else {
        assert(up_to(s, c) =~= s.take(0));
    }
}

/// Copies the part of a text from `from` up to the first of some character.
fn copy_up_to(s: &Vec<char>, from: usize, c: char) -> (part: Vec<char>)
    requires
        from <= s@.len(),
    ensures
        part@ == up_to(s@.skip(from as int), c),
        part@.len() <= s@.len() - from,
{
    let mut part: Vec<char> = Vec::new();
    let mut i: usize = from;
    while i < s.len() && s[i] != c
        invariant
            from <= i <= s@.len(),
            part@ == s@.subrange(from as int, i as int),
            forall|k: int| from <= k < i ==> s@[k] != c,
        decreases s.len() - i,
    {
        part.push(s[i]);
        assert(s@.subrange(from as int, i + 1) =~= s@.subrange(from as int, i as int).push(s@[i as int]));
        i += 1;
    }
    proof {
        lemma_up_to(s@.skip(from as int), c, i - from);
        assert(s@.skip(from as int).take(i - from) =~= s@.subrange(from as int, i as int));
    }
    part
}

/// The token an element of a list is about.
fn token_of(element: &Vec<char>) -> (token: Vec<char>)
    ensures
        token@ == element_token(element@),
{
    let mut token: Vec<char> = copy_up_to(element, 0, ';');
    assert(element@.skip(0) =~= element@);
    strip_start(&mut token);
    strip_end(&mut token);
    lower_ascii(&mut token);
    token
}

/// Whether two texts are the same.
fn same_chars(a: &Vec<char>, b: &Vec<char>) -> (r: bool)
    ensures
        r == (a@ == b@),
{
    if a.len() != b.len() {
        return false;
    }
    let mut i: usize = 0;
    while i < a.len()
        invariant
            i <= a@.len(),
            a@.len() == b@.len(),
            forall|k: int| 0 <= k < i ==> a@[k] == b@[k],
        decreases a.len() - i,
    {
        if a[i] != b[i] {
            return false;
        }
        i += 1;
    }
    assert(a@ =~= b@);
    true
}

/// Whether a comma-separated list has an element of this token.
fn has_token(list: &Vec<char>, token: &str) -> (r: bool)
    ensures
        r == lists_token(list@, token@),
{
    let mut wanted: Vec<char> = chars_of(token);
    lower_ascii(&mut wanted);
    let mut from: usize = 0;
    assert(list@.skip(0) =~= list@);
    loop
        invariant
            from <= list@.len(),
            wanted@ == lowered(token@),
            lists_token(list@, token@) == lists_token(list@.skip(from as int), token@),
        decreases list@.len() - from,
    {
        let element: Vec<char> = copy_up_to(list, from, ',');
        let here: Vec<char> = token_of(&element);
        if same_chars(&here, &wanted) {
            return true;
        }
        if element.len() >= list.len() - from {
            return false;
        }
        assert(list@.skip(from as int).skip(element@.len() as int + 1) =~= list@.skip(from + element@.len() + 1));
        from = from + element.len() + 1;
    }
}

impl Request {
    pub open spec fn header_list(&self) -> Seq<(Seq<char>, Seq<char>)> {
        header_views(self.headers@)
    }

    pub fn header(&self, name: &str) -> (r: Option<&str>)
        ensures
            match r {
                Some(v) => header_in(self.header_list(), name@) == Some(v@),
                None => header_in(self.header_list(), name@) is None,
            },
    {
        let ghost all = self.header_list();
        let mut i: usize = self.headers.len();
        assert(all.take(all.len() as int) =~= all);
        while i > 0
            invariant
                i <= self.headers@.len(),
                all == self.header_list(),
                header_in(all, name@) == header_in(all.take(i as int), name@),
            decreases i,
        {
            i -= 1;
            proof {
                assert(all.take(i + 1).drop_last() =~= all.take(i as int));
                assert(all.take(i + 1).last() == all[i as int]);
            }
            if same_str(self.headers[i].0.as_str(), name) {
                return Some(self.headers[i].1.as_str());
            }
        }
        None
    }

    /// Whether `name` lists `token`, case-insensitively: the form most of the
    /// interesting HTTP headers take.
    pub fn header_has(&self, name: &str, token: &str) -> (r: bool)
        ensures
            r == lists(self.header_list(), name@, token@),
    {
        match self.header(name) {
            Some(v) => has_token(&chars_of(v), token),
            None => false,
        }
    }

    /// Whether this asks for the connection to become a WebSocket.
    pub open spec fn upgrades(&self) -> bool {
        &&& lists(self.header_list(), "connection"@, "upgrade"@)
        &&& lists(self.header_list(), "upgrade"@, "websocket"@)
        &&& header_in(self.header_list(), "sec-websocket-key"@) is Some
    }

    pub fn is_websocket_upgrade(&self) -> (r: bool)
        ensures
            r == self.upgrades(),
    {
        self.header_has("connection", "upgrade") && self.header_has("upgrade", "websocket") && self.header(
            "sec-websocket-key",
        ).is_some()
    }

    /// Whether the connection stays open after the reply.
    pub fn keeps_alive(&self) -> (r: bool)
        ensures
            r == !lists(self.header_list(), "connection"@, "close"@),
    {
        !self.header_has("connection", "close")
    }
}

// -- responses ------------------------------------------------------------

#[derive(Debug)]
pub struct Response {
    pub status: u16,
    pub headers: Vec<(String, String)>,
    pub body: Body,
}

#[derive(Debug)]
pub enum Body {
    Bytes(Vec<u8>),
    /// A file to send, with the length promised in `Content-Length`.
    File(u64),
}

/// A response holding these bytes, of this type and with nothing else said.
pub open spec fn is_response(r: Response, status: u16, content_type: Seq<char>, body: Seq<u8>) -> bool {
    &&& r.status == status
    &&& header_views(r.headers@) == seq![("content-type"@, content_type)]
    &&& r.body matches Body::Bytes(b) && b@ == body
}

/// A response saying something in plain text.
pub open spec fn is_text_response(r: Response, status: u16, message: Seq<char>) -> bool {
    is_response(r, status, "text/plain; charset=utf-8"@, encode_utf8(message))
}

impl Response {
    pub fn new(status: u16, content_type: &str, body: Vec<u8>) -> (r: Response)
        ensures
            is_response(r, status, content_type@, body@),
    {
        let mut headers: Vec<(String, String)> = Vec::new();
        headers.push(("content-type".to_owned(), content_type.to_owned()));
        assert(header_views(headers@) =~= seq![("content-type"@, content_type@)]);
        Response { status, headers, body: Body::Bytes(body) }
    }

    pub fn text(status: u16, message: &str) -> (r: Response)
        ensures
            is_text_response(r, status, message@),
    {
        let mut body: Vec<u8> = Vec::new();
        body.extend_from_slice(message.as_bytes());
        assert(body@ =~= message.spec_bytes());
        Response::new(status, "text/plain; charset=utf-8", body)
    }

    /// The same response with one more header.
    pub fn with(self, name: &str, value: &str) -> (r: Response)
        ensures
            r.status == self.status,
            r.body == self.body,
            header_views(r.headers@) == header_views(self.headers@).push((name@, value@)),
    {
        let mut headers: Vec<(String, String)> = self.headers;
        headers.push((name.to_owned(), value.to_owned()));
        assert(header_views(headers@) =~= header_views(self.headers@).push((name@, value@)));
        Response { status: self.status, headers, body: self.body }
    }

    /// How many bytes the body has.
    pub open spec fn spec_length(&self) -> int {
        match self.body {
            Body::Bytes(b) => b@.len() as int,
            Body::File(len) => len as int,
        }
    }

    fn length(&self) -> (n: u64)
        ensures
            n == self.spec_length(),
    {
        match &self.body {
            Body::Bytes(bytes) => bytes.len() as u64,
            Body::File(len) => *len,
        }
    }
}

pub open spec fn reason_of(status: u16) -> Seq<char> {
    if status == 400 {
        "Bad Request"@
    } else if status == 403 {
        "Forbidden"@
    } else if status == 404 {
        "Not Found"@
    } else if status == 405 {
        "Method Not Allowed"@
    } else if status == 413 {
        "Payload Too Large"@
    } else if status == 500 {
        "Internal Server Error"@
    } else {
        "OK"@
    }
}

/// The words that go with a status.
pub fn reason(status: u16) -> (r: &'static str)
    ensures
        r@ == reason_of(status),
{
    match status {
        200 => "OK",
        400 => "Bad Request",
        403 => "Forbidden",
        404 => "Not Found",
        405 => "Method Not Allowed",
        413 => "Payload Too Large",
        500 => "Internal Server Error",
        _ => "OK",
    }
}

/// Headers written out, one to a line.
pub open spec fn header_lines(headers: Seq<(Seq<char>, Seq<char>)>) -> Seq<char>
    decreases headers.len(),
{
    if headers.len() == 0 {
        Seq::empty()
    } else {
        header_lines(headers.drop_last()) + headers.last().0 + ": "@ + headers.last().1 + "\r\n"@
    }
}

/// Everything of a response before its body.
pub open spec fn response_head_text(
    status: u16,
    headers: Seq<(Seq<char>, Seq<char>)>,
    length: nat,
    keep_alive: bool,
) -> Seq<char> {
    "HTTP/1.1 "@ + decimal(status as nat) + " "@ + reason_of(status) + "\r\n"@ + header_lines(headers)
        + "content-length: "@ + decimal(length) + "\r\n"@ + (if keep_alive {
        "connection: keep-alive\r\n\r\n"@
    } else {
        "connection: close\r\n\r\n"@
    })
}

/// Writes everything of a response before its body.
pub fn response_head(response: &Response, keep_alive: bool) -> (s: String)
    ensures
        s@ == response_head_text(
            response.status,
            header_views(response.headers@),
            response.spec_length() as nat,
            keep_alive,
        ),
{
    let ghost all = header_views(response.headers@);
    let length: u64 = response.length();
    let mut s: String = "HTTP/1.1 ".to_owned();
    let code: String = decimal_of(response.status as u64);
    s.append(code.as_str());
    s.append(" ");
    s.append(reason(response.status));
    s.append("\r\n");
    let ghost first = s@;
    let mut i: usize = 0;
    assert(all.take(0) =~= Seq::<(Seq<char>, Seq<char>)>::empty());
    assert(first + header_lines(all.take(0)) =~= first);
    while i < response.headers.len()
        invariant
            i <= response.headers@.len(),
            all == header_views(response.headers@),
            s@ == first + header_lines(all.take(i as int)),
        decreases response.headers.len() - i,
    {
        proof {
            assert(all.take(i + 1).drop_last() =~= all.take(i as int));
            assert(all.take(i + 1).last() == all[i as int]);
        }
        let ghost before = s@;
        s.append(response.headers[i].0.as_str());
        s.append(": ");
        s.append(response.headers[i].1.as_str());
        s.append("\r\n");
        assert(s@ =~= first + header_lines(all.take(i + 1)));
        i += 1;
    }
    assert(all.take(all.len() as int) =~= all);
    s.append("content-length: ");
    let n: String = decimal_of(length);
    s.append(n.as_str());
    s.append("\r\n");
    if keep_alive {
        s.append("connection: keep-alive\r\n\r\n");
    } else {
        s.append("connection: close\r\n\r\n");
    }
    s
}

/// The reply that turns a connection into a WebSocket.
pub open spec fn upgrade_head_text(accept: Seq<char>) -> Seq<char> {
    "HTTP/1.1 101 Switching Protocols\r\nupgrade: websocket\r\nconnection: Upgrade\r\nsec-websocket-accept: "@ + accept
        + "\r\n\r\n"@
}

/// Writes the reply that turns a connection into a WebSocket.
pub fn upgrade_head(accept: &str) -> (s: String)
    ensures
        s@ == upgrade_head_text(accept@),
{
    let mut s: String =
        "HTTP/1.1 101 Switching Protocols\r\nupgrade: websocket\r\nconnection: Upgrade\r\nsec-websocket-accept: ".to_owned();
    s.append(accept);
    s.append("\r\n\r\n");
    s
}

// -- sending a file -------------------------------------------------------

/// A file on its way out. Exactly as many bytes are sent as were promised,
/// whatever the file does underneath: the promise in `Content-Length` is what
/// keeps the connection usable.
pub struct Transfer {
    pub len: u64,
    pub sent: u64,
    /// Whether the file ended before it should have. What is still owed is then
    /// made up with zeros.
    pub ended: bool,
}

/// What a transfer does next.
#[derive(Debug, Clone, Copy, PartialEq, Eq, Structural)]
pub enum Move {
    Done,
    /// Read at most this many bytes of the file.
    Read(usize),
    /// Send this many zeros.
    Pad(usize),
}

impl Transfer {
    pub open spec fn wf(&self) -> bool {
        self.sent <= self.len
    }

    pub fn new(len: u64) -> (t: Transfer)
        ensures
            t.wf(),
            t.len == len,
            t.sent == 0,
            !t.ended,
    {
        Transfer { len, sent: 0, ended: false }
    }

    /// How much the next step is for.
    pub open spec fn share(&self) -> int {
        if self.len - self.sent < FILE_CHUNK {
            self.len - self.sent
        } else {
            FILE_CHUNK as int
        }
    }

    pub fn next(&self) -> (m: Move)
        requires
            self.wf(),
        ensures
            m == (if self.sent == self.len {
                Move::Done
            } else if self.ended {
                Move::Pad(self.share() as usize)
            } else {
                Move::Read(self.share() as usize)
            }),
            m matches Move::Pad(n) ==> 0 < n == self.share(),
            m matches Move::Read(n) ==> 0 < n == self.share(),
    {
        if self.sent == self.len {
            return Move::Done;
        }
        let left: u64 = self.len - self.sent;
        let n: usize = if left < FILE_CHUNK as u64 {
            left as usize
        } else {
            FILE_CHUNK
        };
        if self.ended {
            Move::Pad(n)
        } else {
            Move::Read(n)
        }
    }

    /// Takes note that this many bytes of the file were read and sent; none
    /// means that it is over.
    pub fn got(&mut self, n: usize)
        requires
            old(self).wf(),
            n <= old(self).share(),
        ensures
            final(self).wf(),
            *final(self) == (if n == 0 {
                Transfer { ended: true, ..*old(self) }
            } else {
                Transfer { sent: (old(self).sent + n) as u64, ..*old(self) }
            }),
    {
        if n == 0 {
            self.ended = true;
        } else {
            self.sent = self.sent + n as u64;
        }
    }

    /// Takes note that this many zeros were sent.
    pub fn padded(&mut self, n: usize)
        requires
            old(self).wf(),
            n <= old(self).share(),
        ensures
            final(self).wf(),
            *final(self) == (Transfer { sent: (old(self).sent + n) as u64, ..*old(self) }),
    {
        self.sent = self.sent + n as u64;
    }
}

// -- reading a path -------------------------------------------------------

/// What a hexadecimal digit stands for.
pub open spec fn hex_value(c: u8) -> Option<int> {
    if 48 <= c <= 57 {
        Some(c - 48)
    } else if 97 <= c <= 102 {
        Some(c - 87)
    } else if 65 <= c <= 70 {
        Some(c - 55)
    } else {
        None
    }
}

/// The byte two characters spell in hexadecimal.
pub open spec fn hex_pair(a: u8, b: u8) -> Option<u8> {
    match (hex_value(a), hex_value(b)) {
        (Some(x), Some(y)) => Some((x * 16 + y) as u8),
        _ => None,
    }
}

/// The escape at `i`, where there is one.
pub open spec fn escape_at(raw: Seq<u8>, i: int) -> Option<u8> {
    if 0 <= i && i + 2 < raw.len() && raw[i] == 37 {
        hex_pair(raw[i + 1], raw[i + 2])
    } else {
        None
    }
}

/// What a URL path spells from `i` on. A percent sign that begins no escape is
/// data, not a mistake.
pub open spec fn unescaped(raw: Seq<u8>, i: int) -> Seq<u8>
    decreases raw.len() - i,
{
    if i < 0 || i >= raw.len() {
        Seq::empty()
    } else {
        match escape_at(raw, i) {
            Some(b) => seq![b] + unescaped(raw, i + 3),
            None => seq![raw[i]] + unescaped(raw, i + 1),
        }
    }
}

fn hex(c: u8) -> (r: Option<u8>)
    ensures
        match r {
            Some(v) => v < 16 && hex_value(c) == Some(v as int),
            None => hex_value(c) is None,
        },
{
    if 48 <= c && c <= 57 {
        Some(c - 48)
    } else if 97 <= c && c <= 102 {
        Some(c - 87)
    } else if 65 <= c && c <= 70 {
        Some(c - 55)
    } else {
        None
    }
}

fn pair(a: u8, b: u8) -> (r: Option<u8>)
    ensures
        r == hex_pair(a, b),
{
    match (hex(a), hex(b)) {
        (Some(x), Some(y)) => Some(x * 16 + y),
        _ => None,
    }
}

/// Percent-decoding, which is all of a URL path treex has any business reading.
pub fn decode_path(raw: &str) -> (s: String)
    ensures
        s@ == text_of(unescaped(raw.spec_bytes(), 0)),
{
    let bytes: &[u8] = raw.as_bytes();
    let mut out: Vec<u8> = Vec::new();
    let mut i: usize = 0;
    assert(out@ + unescaped(bytes@, 0) =~= unescaped(bytes@, 0));
    while i < bytes.len()
        invariant
            i <= bytes@.len(),
            out@ + unescaped(bytes@, i as int) == unescaped(bytes@, 0),
        decreases bytes.len() - i,
    {
        let ghost before = out@;
        let found: Option<u8> = if bytes[i] == 37 && bytes.len() - i > 2 {
            pair(bytes[i + 1], bytes[i + 2])
        } else {
            None
        };
        assert(found == escape_at(bytes@, i as int));
        match found {
            Some(b) => {
                out.push(b);
                assert(before + (seq![b] + unescaped(bytes@, i + 3)) =~= out@ + unescaped(bytes@, i + 3));
                i += 3;
            }
            None => {
                out.push(bytes[i]);
                assert(before + (seq![bytes@[i as int]] + unescaped(bytes@, i + 1)) =~= out@ + unescaped(bytes@, i + 1));
                i += 1;
            }
        }
    }
    assert(out@ + unescaped(bytes@, i as int) =~= out@);
    lossy(out.as_slice())
}

/// A hexadecimal digit.
pub open spec fn hex_digit(v: int) -> u8 {
    if v < 10 {
        (48 + v) as u8
    } else {
        (55 + v) as u8
    }
}

/// Bytes with every one of them escaped.
pub open spec fn escaped(bytes: Seq<u8>) -> Seq<u8>
    decreases bytes.len(),
{
    if bytes.len() == 0 {
        Seq::empty()
    } else {
        seq![37u8, hex_digit(bytes[0] as int / 16), hex_digit(bytes[0] as int % 16)] + escaped(bytes.drop_first())
    }
}

/// Percent-escapes come back: whatever was escaped is what is read.
pub proof fn lemma_escapes_come_back(bytes: Seq<u8>)
    ensures
        unescaped(escaped(bytes), 0) == bytes,
    decreases bytes.len(),
{
    let all = escaped(bytes);
    if bytes.len() == 0 {
        assert(unescaped(all, 0) =~= bytes);
    } else {
        let rest = escaped(bytes.drop_first());
        let b = bytes[0];
        assert(all[0] == 37);
        assert(all[1] == hex_digit(b as int / 16));
        assert(all[2] == hex_digit(b as int % 16));
        assert(escape_at(all, 0) == Some(b));
        assert(rest =~= all.skip(3));
        lemma_unescaped_shift(all, rest, 3, 0);
        lemma_escapes_come_back(bytes.drop_first());
        assert(seq![b] + bytes.drop_first() =~= bytes);
    }
}

proof fn lemma_unescaped_shift(all: Seq<u8>, rest: Seq<u8>, n: int, i: int)
    requires
        0 <= n <= all.len(),
        0 <= i <= rest.len(),
        rest == all.skip(n),
    ensures
        unescaped(all, n + i) == unescaped(rest, i),
    decreases rest.len() - i,
{
    if i < rest.len() {
        assert(escape_at(all, n + i) == escape_at(rest, i));
        if escape_at(rest, i) is Some {
            lemma_unescaped_shift(all, rest, n, i + 3);
        } else {
            lemma_unescaped_shift(all, rest, n, i + 1);
        }
    }
}

// -- reading a request ----------------------------------------------------

/// Why a request is not answered.
#[derive(Debug, Clone, Copy, PartialEq, Eq, Structural)]
pub enum Refusal {
    HeadTooLarge,
    TruncatedHead,
    TimedOut,
    Malformed,
    BodyTooLarge,
    TruncatedBody,
}

impl Refusal {
    pub open spec fn spec_message(self) -> Seq<char> {
        match self {
            Refusal::HeadTooLarge => "request head too large"@,
            Refusal::TruncatedHead => "truncated request"@,
            Refusal::TimedOut => "timed out reading the request"@,
            Refusal::Malformed => "malformed request"@,
            Refusal::BodyTooLarge => "body too large"@,
            Refusal::TruncatedBody => "truncated body"@,
        }
    }

    pub fn message(self) -> (s: &'static str)
        ensures
            s@ == self.spec_message(),
    {
        match self {
            Refusal::HeadTooLarge => "request head too large",
            Refusal::TruncatedHead => "truncated request",
            Refusal::TimedOut => "timed out reading the request",
            Refusal::Malformed => "malformed request",
            Refusal::BodyTooLarge => "body too large",
            Refusal::TruncatedBody => "truncated body",
        }
    }
}

/// Whether the blank line that ends a head is at `i`.
pub open spec fn blank_line_at(buf: Seq<u8>, i: int) -> bool {
    0 <= i && i + 4 <= buf.len() && buf[i] == 13 && buf[i + 1] == 10 && buf[i + 2] == 13 && buf[i + 3] == 10
}

/// Just past the first blank line from `i` on.
pub open spec fn head_end(buf: Seq<u8>, i: int) -> Option<int>
    decreases buf.len() - i,
{
    if i < 0 || i + 4 > buf.len() {
        None
    } else if blank_line_at(buf, i) {
        Some(i + 4)
    } else {
        head_end(buf, i + 1)
    }
}

/// What to do with as much of a head as has arrived.
#[derive(Debug, Clone, Copy, PartialEq, Eq, Structural)]
pub enum HeadStep {
    /// It is all there, and ends here.
    Complete(usize),
    More,
    Refuse(Refusal),
}

/// What to do with as much of a head as has arrived.
pub fn head_step(buf: &Vec<u8>) -> (r: HeadStep)
    ensures
        match head_end(buf@, 0) {
            Some(end) => r == HeadStep::Complete(end as usize) && 4 <= end <= buf@.len(),
            None => r == (if buf@.len() > MAX_HEAD {
                HeadStep::Refuse(Refusal::HeadTooLarge)
            } else {
                HeadStep::More
            }),
        },
{
    let mut i: usize = 0;
    while i < buf.len() && buf.len() - i >= 4
        invariant
            i <= buf@.len(),
            head_end(buf@, 0) == head_end(buf@, i as int),
        decreases buf.len() - i,
    {
        if buf[i] == 13 && buf[i + 1] == 10 && buf[i + 2] == 13 && buf[i + 3] == 10 {
            return HeadStep::Complete(i + 4);
        }
        i += 1;
    }
    if buf.len() > MAX_HEAD {
        HeadStep::Refuse(Refusal::HeadTooLarge)
    } else {
        HeadStep::More
    }
}

/// What a read that brought nothing came to.
#[derive(Debug, Clone, Copy, PartialEq, Eq, Structural)]
pub enum Silence {
    /// The other side closed.
    Closed,
    TimedOut,
}

/// What a read that brought nothing means with this much of a head there: a
/// clean end of the connection, or a refusal.
pub fn head_silence(buf: &Vec<u8>, why: Silence) -> (r: Option<Refusal>)
    ensures
        r == (match why {
            Silence::Closed => if buf@.len() == 0 {
                None
            } else {
                Some(Refusal::TruncatedHead)
            },
            Silence::TimedOut => Some(Refusal::TimedOut),
        }),
{
    match why {
        Silence::Closed => if buf.len() == 0 {
            None
        } else {
            Some(Refusal::TruncatedHead)
        },
        Silence::TimedOut => Some(Refusal::TimedOut),
    }
}

/// A request head as it was read.
#[derive(Debug)]
pub struct Head {
    pub method: Option<String>,
    pub path: Option<String>,
    pub headers: Vec<(String, Vec<u8>)>,
}

pub open spec fn text_view(s: Option<String>) -> Option<Seq<char>> {
    match s {
        Some(s) => Some(s@),
        None => None,
    }
}

pub open spec fn raw_headers(headers: Seq<(String, Vec<u8>)>) -> Seq<(Seq<char>, Seq<u8>)> {
    headers.map_values(|h: (String, Vec<u8>)| (h.0@, h.1@))
}

impl View for Head {
    type V = (Option<Seq<char>>, Option<Seq<char>>, Seq<(Seq<char>, Seq<u8>)>);

    open spec fn view(&self) -> (Option<Seq<char>>, Option<Seq<char>>, Seq<(Seq<char>, Seq<u8>)>) {
        (text_view(self.method), text_view(self.path), raw_headers(self.headers@))
    }
}

/// What `httparse` reads out of some bytes with room for so many headers:
/// method, path and headers, or `None` where it finds an error.
pub uninterp spec fn head_in(bytes: Seq<u8>, room: nat) -> Option<(Option<Seq<char>>, Option<Seq<char>>, Seq<(Seq<char>, Seq<u8>)>)>;

/// `httparse::Request::parse` with room for `room` headers, with its method,
/// path and headers copied out. What counts as a request is httparse's to say
/// and only named here.
#[verifier::external_body]
fn parse_head(bytes: &[u8], room: usize) -> (r: Option<Head>)
    ensures
        match r {
            Some(head) => head_in(bytes@, room as nat) == Some(head@),
            None => head_in(bytes@, room as nat) is None,
        },
{
    let mut slots = vec![httparse::EMPTY_HEADER; room];
    let mut request = httparse::Request::new(&mut slots);
    request.parse(bytes).ok()?;
    let headers = request.headers.iter().map(|h| (h.name.to_owned(), h.value.to_vec())).collect();
    Some(Head { method: request.method.map(str::to_owned), path: request.path.map(str::to_owned), headers })
}

/// A request whose body may still be arriving.
#[derive(Debug)]
pub struct Pending {
    pub request: Request,
    /// How long the body is to be.
    pub length: usize,
}

/// The part of a target before any query or fragment.
pub open spec fn target_path(target: Seq<char>) -> Seq<char>
    decreases target.len(),
{
    if target.len() == 0 || target[0] == '?' || target[0] == '#' {
        Seq::empty()
    } else {
        seq![target[0]] + target_path(target.drop_first())
    }
}

/// A header as a request holds it: the name in lower case, and the value as
/// text without the white space round it.
pub open spec fn tidy_header(h: (Seq<char>, Seq<u8>)) -> (Seq<char>, Seq<char>) {
    (lowered(h.0), trimmed(text_of(h.1)))
}

pub open spec fn tidy_headers(headers: Seq<(Seq<char>, Seq<u8>)>) -> Seq<(Seq<char>, Seq<char>)> {
    headers.map_values(|h: (Seq<char>, Seq<u8>)| tidy_header(h))
}

/// How long a body is said to be; nothing at all where that is not a number.
pub open spec fn said_length(headers: Seq<(Seq<char>, Seq<char>)>) -> int {
    match header_in(headers, "content-length"@) {
        Some(v) => match number_in(v, usize::MAX as nat) {
            Some(n) => n as int,
            None => 0,
        },
        None => 0,
    }
}

pub open spec fn or_else(s: Option<Seq<char>>, other: Seq<char>) -> Seq<char> {
    match s {
        Some(s) => s,
        None => other,
    }
}

/// What a head, and whatever came after it, make of a request.
pub open spec fn is_pending(
    head: Option<(Option<Seq<char>>, Option<Seq<char>>, Seq<(Seq<char>, Seq<u8>)>)>,
    rest: Seq<u8>,
    r: Result<Pending, Refusal>,
) -> bool {
    match head {
        None => r == Err::<Pending, Refusal>(Refusal::Malformed),
        Some((method, path, headers)) => {
            let length = said_length(tidy_headers(headers));
            if length > MAX_BODY {
                r == Err::<Pending, Refusal>(Refusal::BodyTooLarge)
            } else {
                &&& r matches Ok(p)
                &&& p.length == length
                &&& p.request.method@ == or_else(method, "GET"@)
                &&& p.request.path@ == text_of(
                    unescaped(encode_utf8(target_path(or_else(path, "/"@))), 0),
                )
                &&& p.request.header_list() == tidy_headers(headers)
                &&& p.request.body@ == (if rest.len() <= length {
                    rest
                } else {
                    rest.take(length)
                })
            }
        },
    }
}

fn before_query(target: &str) -> (s: String)
    ensures
        s@ == target_path(target@),
{
    let chars: Vec<char> = chars_of(target);
    let ghost all = chars@;
    let mut s: String = String::new();
    let mut i: usize = 0;
    assert(all.skip(0) =~= all);
    assert(s@ + target_path(all) =~= target_path(all));
    while i < chars.len()
        invariant
            i <= chars@.len(),
            all == chars@,
            all == target@,
            s@ + target_path(all.skip(i as int)) == target_path(all),
        decreases chars.len() - i,
    {
        let c: char = chars[i];
        assert(all.skip(i as int)[0] == c);
        if c == '?' || c == '#' {
            assert(s@ + target_path(all.skip(i as int)) =~= s@);
            return s;
        }
        let ghost before = s@;
        s.push(c);
        proof {
            assert(all.skip(i as int).drop_first() =~= all.skip(i + 1));
            assert(before + (seq![c] + target_path(all.skip(i + 1))) =~= s@ + target_path(all.skip(i + 1)));
        }
        i += 1;
    }
    assert(s@ + target_path(all.skip(i as int)) =~= s@);
    s
}

/// Tidies the headers of a head.
fn tidied(headers: &Vec<(String, Vec<u8>)>) -> (r: Vec<(String, String)>)
    ensures
        header_views(r@) == tidy_headers(raw_headers(headers@)),
{
    let mut r: Vec<(String, String)> = Vec::new();
    let mut i: usize = 0;
    while i < headers.len()
        invariant
            i <= headers@.len(),
            r@.len() == i,
            forall|k: int|
                #![trigger r@[k]]
                0 <= k < i ==> (r@[k].0@, r@[k].1@) == tidy_header((headers@[k].0@, headers@[k].1@)),
        decreases headers.len() - i,
    {
        let mut name: Vec<char> = chars_of(headers[i].0.as_str());
        lower_ascii(&mut name);
        let text: String = lossy(headers[i].1.as_slice());
        let mut value: Vec<char> = chars_of(text.as_str());
        strip_start(&mut value);
        strip_end(&mut value);
        r.push((string_of(&name), string_of(&value)));
        i += 1;
    }
    assert(header_views(r@) =~= tidy_headers(raw_headers(headers@)));
    r
}

/// Makes a request of a head that was read, and of whatever came after it.
pub fn take_head(head: Option<Head>, rest: &[u8]) -> (r: Result<Pending, Refusal>)
    ensures
        is_pending(
            match head {
                Some(h) => Some(h@),
                None => None,
            },
            rest@,
            r,
        ),
{
    let head: Head = match head {
        Some(head) => head,
        None => {
            return Err(Refusal::Malformed);
        }
    };
    let target: String = match head.path {
        Some(path) => path,
        None => "/".to_owned(),
    };
    let plain: String = before_query(target.as_str());
    let path: String = decode_path(plain.as_str());
    let method: String = match head.method {
        Some(method) => method,
        None => "GET".to_owned(),
    };
    let headers: Vec<(String, String)> = tidied(&head.headers);
    let mut request: Request = Request { method, path, headers, body: Vec::new() };
    let length: usize = match request.header("content-length") {
        Some(v) => match ascii_of(&chars_of(v)) {
            Some(digits) => match parse_uint(digits.as_slice(), usize::MAX as u64) {
                Some(n) => n as usize,
                None => 0,
            },
            None => 0,
        },
        None => 0,
    };
    if length > MAX_BODY {
        return Err(Refusal::BodyTooLarge);
    }
    let mut body: Vec<u8> = Vec::new();
    body.extend_from_slice(rest);
    assert(body@ =~= rest@);
    if rest.len() > length {
        body.truncate(length);
        assert(body@ =~= rest@.take(length as int));
    }
    request.body = body;
    Ok(Pending { request, length })
}

/// Reads a request out of what has arrived, once its head is complete.
pub fn read_request(buf: &Vec<u8>, end: usize) -> (r: Result<Pending, Refusal>)
    requires
        end <= buf@.len(),
    ensures
        is_pending(head_in(buf@, MAX_HEADERS as nat), buf@.skip(end as int), r),
{
    let head: Option<Head> = parse_head(buf.as_slice(), MAX_HEADERS);
    let rest: &[u8] = vstd::slice::slice_subrange(buf.as_slice(), end, buf.len());
    assert(rest@ =~= buf@.skip(end as int));
    take_head(head, rest)
}

impl Pending {
    pub open spec fn wf(&self) -> bool {
        self.request.body@.len() <= self.length
    }

    /// How much of the body to ask for next; nothing once it is all there.
    pub fn wants(&self) -> (n: usize)
        requires
            self.wf(),
        ensures
            n == (if self.length - self.request.body@.len() < BODY_CHUNK {
                self.length - self.request.body@.len()
            } else {
                BODY_CHUNK as int
            }),
    {
        let left: usize = self.length - self.request.body.len();
        if left < BODY_CHUNK {
            left
        } else {
            BODY_CHUNK
        }
    }

    /// Takes in more of the body; nothing means the other side closed.
    pub fn got(&mut self, bytes: &[u8]) -> (r: Result<(), Refusal>)
        requires
            old(self).wf(),
            bytes@.len() <= old(self).length - old(self).request.body@.len(),
        ensures
            final(self).wf(),
            final(self).length == old(self).length,
            final(self).request.method == old(self).request.method,
            final(self).request.path == old(self).request.path,
            final(self).request.headers == old(self).request.headers,
            final(self).request.body@ == old(self).request.body@ + bytes@,
            r == (if bytes@.len() == 0 {
                Err::<(), Refusal>(Refusal::TruncatedBody)
            } else {
                Ok(())
            }),
    {
        let ghost before = self.request.body@;
        self.request.body.extend_from_slice(bytes);
        assert(self.request.body@ =~= before + bytes@);
        if bytes.len() == 0 {
            return Err(Refusal::TruncatedBody);
        }
        Ok(())
    }
}

// -- laws -----------------------------------------------------------------

/// Where a header comes more than once the last one counts, and where it does
/// not come at all there is none.
pub proof fn lemma_the_last_header_counts(
    before: Seq<(Seq<char>, Seq<char>)>,
    name: Seq<char>,
    value: Seq<char>,
    after: Seq<(Seq<char>, Seq<char>)>,
)
    requires
        forall|k: int| #![trigger after[k]] 0 <= k < after.len() ==> after[k].0 != name,
    ensures
        header_in(before.push((name, value)) + after, name) == Some(value),
        header_in(after, name) is None,
    decreases after.len(),
{
    let all = before.push((name, value)) + after;
    if after.len() == 0 {
        assert(all =~= before.push((name, value)));
    } else {
        assert(after.last() == after[after.len() - 1]);
        assert(all.last() == after.last());
        assert(all.drop_last() =~= before.push((name, value)) + after.drop_last());
        lemma_the_last_header_counts(before, name, value, after.drop_last());
    }
}

/// A list has a token where one of its elements does, up to a comma each.
pub proof fn lemma_lists_go_element_by_element(element: Seq<char>, rest: Seq<char>, token: Seq<char>)
    requires
        forall|k: int| #![trigger element[k]] 0 <= k < element.len() ==> element[k] != ',',
    ensures
        lists_token(element, token) <==> element_token(element) == lowered(token),
        lists_token(element.push(',') + rest, token) <==> element_token(element) == lowered(token) || lists_token(rest, token),
{
    let n = element.len() as int;
    lemma_up_to(element, ',', n);
    assert(element.take(n) =~= element);
    let all = element.push(',') + rest;
    assert forall|k: int| 0 <= k < n implies all[k] != ',' by {
        assert(all[k] == element[k]);
    }
    assert(all[n] == ',');
    lemma_up_to(all, ',', n);
    assert(all.take(n) =~= element);
    assert(all.skip(n + 1) =~= rest);
}

/// An element is about what stands before any parameters, whatever white space
/// is round it and whatever its case.
pub proof fn lemma_an_element_is_about_its_token(lead: Seq<char>, token: Seq<char>, trail: Seq<char>, params: Seq<char>)
    requires
        forall|k: int| #![trigger lead[k]] 0 <= k < lead.len() ==> lead[k] == ' ',
        forall|k: int| #![trigger trail[k]] 0 <= k < trail.len() ==> trail[k] == ' ',
        token.len() > 0,
        forall|k: int| #![trigger token[k]] 0 <= k < token.len() ==> 'A' <= token[k] <= 'z',
    ensures
        element_token(lead + token + trail) == lowered(token),
        element_token((lead + token + trail).push(';') + params) == lowered(token),
{
    let p = |c: char| is_space(c);
    let s = lead + token + trail;
    let n = s.len() as int;
    assert forall|k: int| #![trigger s[k]] 0 <= k < n implies s[k] != ';' by {
        if k < lead.len() {
            assert(s[k] == lead[k]);
        } else if k < lead.len() + token.len() {
            assert(s[k] == token[k - lead.len()]);
        } else {
            assert(s[k] == trail[k - lead.len() - token.len()]);
        }
    }
    lemma_up_to(s, ';', n);
    assert(s.take(n) =~= s);
    let all = s.push(';') + params;
    assert forall|k: int| 0 <= k < n implies all[k] != ';' by {
        assert(all[k] == s[k]);
    }
    lemma_up_to(all, ';', n);
    assert(all.take(n) =~= s);
    assert(!p(token[0]) && !p(token[token.len() - 1]));
    assert(s =~= lead + (token + trail));
    assert((token + trail)[0] == token[0]);
    lemma_the_start_comes_off(lead, token + trail, p);
    assert(token.last() == token[token.len() - 1]);
    lemma_the_end_comes_off(token, trail, p);
    assert(trimmed(s) == token);
}

/// Neither side's case matters to whether a list has a token.
pub proof fn lemma_case_does_not_matter(list: Seq<char>, token: Seq<char>, other: Seq<char>)
    requires
        token.len() == other.len(),
        forall|k: int| #![trigger token[k]] 0 <= k < token.len() ==> crate::text::small(token[k]) == crate::text::small(other[k]),
    ensures
        lists_token(list, token) <==> lists_token(list, other),
    decreases list.len(),
{
    assert(lowered(token) =~= lowered(other)) by {
        assert forall|k: int| 0 <= k < token.len() implies lowered(token)[k] == lowered(other)[k] by {
            assert(crate::text::small(token[k]) == crate::text::small(other[k]));
        }
    }
    let first = up_to(list, ',');
    if first.len() < list.len() {
        lemma_case_does_not_matter(list.skip(first.len() as int + 1), token, other);
    }
}

/// What a URL spells, piece by piece: a percent sign with two hexadecimal digits
/// behind it is the byte they spell, in either case, and anything else is
/// itself, a percent sign among it.
pub proof fn lemma_what_a_url_spells(c: u8, a: u8, b: u8, x: int, y: int, rest: Seq<u8>)
    requires
        0 <= x < 16,
        0 <= y < 16,
        a == seq![48u8, 49, 50, 51, 52, 53, 54, 55, 56, 57, 97, 98, 99, 100, 101, 102][x] || a == seq![
            48u8,
            49,
            50,
            51,
            52,
            53,
            54,
            55,
            56,
            57,
            65,
            66,
            67,
            68,
            69,
            70,
        ][x],
        b == seq![48u8, 49, 50, 51, 52, 53, 54, 55, 56, 57, 97, 98, 99, 100, 101, 102][y] || b == seq![
            48u8,
            49,
            50,
            51,
            52,
            53,
            54,
            55,
            56,
            57,
            65,
            66,
            67,
            68,
            69,
            70,
        ][y],
    ensures
        unescaped(seq![37u8, a, b] + rest, 0) == seq![(16 * x + y) as u8] + unescaped(rest, 0),
        c != 37 ==> unescaped(seq![c] + rest, 0) == seq![c] + unescaped(rest, 0),
        rest.len() < 2 ==> unescaped(seq![37u8] + rest, 0) == seq![37u8] + unescaped(rest, 0),
        rest.len() >= 2 && (hex_value(rest[0]) is None || hex_value(rest[1]) is None) ==> unescaped(seq![37u8] + rest, 0) == seq![
            37u8,
        ] + unescaped(rest, 0),
        unescaped(Seq::empty(), 0).len() == 0,
{
    let three = seq![37u8, a, b] + rest;
    assert(three[0] == 37 && three[1] == a && three[2] == b);
    assert(hex_value(a) == Some(x) && hex_value(b) == Some(y));
    assert(three.skip(3) =~= rest);
    lemma_unescaped_shift(three, rest, 3, 0);
    let one = seq![c] + rest;
    assert(one[0] == c);
    assert(one.skip(1) =~= rest);
    lemma_unescaped_shift(one, rest, 1, 0);
    let percent = seq![37u8] + rest;
    assert(percent[0] == 37);
    assert(percent.skip(1) =~= rest);
    lemma_unescaped_shift(percent, rest, 1, 0);
    if rest.len() >= 2 {
        assert(percent[1] == rest[0] && percent[2] == rest[1]);
    }
}

/// A head ends with the first empty line, and has not ended where there is none.
pub proof fn lemma_a_head_ends_at_the_first_blank_line(buf: Seq<u8>, from: int)
    requires
        0 <= from,
    ensures
        match head_end(buf, from) {
            Some(e) => {
                &&& from + 4 <= e <= buf.len()
                &&& buf.subrange(e - 4, e) == seq![13u8, 10u8, 13u8, 10u8]
                &&& forall|i: int|
                    #![trigger buf.subrange(i, i + 4)]
                    from <= i < e - 4 ==> buf.subrange(i, i + 4) != seq![13u8, 10u8, 13u8, 10u8]
            },
            None => forall|i: int|
                #![trigger buf.subrange(i, i + 4)]
                from <= i <= buf.len() - 4 ==> buf.subrange(i, i + 4) != seq![13u8, 10u8, 13u8, 10u8],
        },
    decreases buf.len() - from,
{
    let line = seq![13u8, 10u8, 13u8, 10u8];
    if from + 4 <= buf.len() {
        let here = buf.subrange(from, from + 4);
        assert(here == line <==> blank_line_at(buf, from)) by {
            if here == line {
                assert(here[0] == 13 && here[1] == 10 && here[2] == 13 && here[3] == 10);
            }
            if blank_line_at(buf, from) {
                assert(here =~= line);
            }
        }
        if !blank_line_at(buf, from) {
            lemma_a_head_ends_at_the_first_blank_line(buf, from + 1);
        }
    }
}

/// A path ends where a query or a fragment begins.
pub proof fn lemma_a_path_ends_at_the_query(path: Seq<char>, rest: Seq<char>)
    requires
        forall|k: int| #![trigger path[k]] 0 <= k < path.len() ==> path[k] != '?' && path[k] != '#',
        rest.len() == 0 || rest[0] == '?' || rest[0] == '#',
    ensures
        target_path(path + rest) == path,
    decreases path.len(),
{
    let all = path + rest;
    if path.len() == 0 {
        assert(all =~= rest);
        assert(target_path(all) =~= path);
    } else {
        assert(all[0] == path[0]);
        assert(all.drop_first() =~= path.drop_first() + rest);
        lemma_a_path_ends_at_the_query(path.drop_first(), rest);
        assert(seq![path[0]] + path.drop_first() =~= path);
    }
}

/// A body is as long as its header says, and empty where none says so.
pub proof fn lemma_a_body_is_as_long_as_it_is_said_to_be(
    before: Seq<(Seq<char>, Seq<char>)>,
    n: usize,
    after: Seq<(Seq<char>, Seq<char>)>,
)
    requires
        forall|k: int| #![trigger after[k]] 0 <= k < after.len() ==> after[k].0 != "content-length"@,
    ensures
        said_length(before.push(("content-length"@, decimal(n as nat))) + after) == n,
        said_length(after) == 0,
{
    lemma_the_last_header_counts(before, "content-length"@, decimal(n as nat), after);
    lemma_numbers_read_back(n as nat, usize::MAX as nat);
}

/// What is sent of a file adds up to what was promised: a step is for something
/// as long as anything is owed, never for more than is owed, and once nothing is
/// the transfer is over.
pub proof fn lemma_a_file_is_sent_to_the_last_byte(t: Transfer, n: int)
    requires
        t.wf(),
        1 <= n <= t.share(),
    ensures
        t.sent < t.len ==> 1 <= t.share() <= t.len - t.sent,
        t.sent == t.len ==> t.share() == 0,
        t.sent + n <= t.len,
        t.len - t.sent > 65536 ==> t.share() == 65536,
{
}

/// The limits that keep one connection from holding the server up.
pub proof fn lemma_the_limits_of_a_request()
    ensures
        MAX_HEAD == 16384,
        MAX_BODY == 1048576,
        MAX_HEADERS == 48,
{
}

/// A response says how long its body is and whether the connection stays, after
/// every header it was given, and ends its head with an empty line.
pub proof fn lemma_how_a_head_is_written(
    status: u16,
    headers: Seq<(Seq<char>, Seq<char>)>,
    name: Seq<char>,
    value: Seq<char>,
    length: nat,
    keep_alive: bool,
)
    ensures
        ({
            let line = "HTTP/1.1 "@ + decimal(status as nat) + " "@ + reason_of(status) + "\r\n"@;
            let tail = "content-length: "@ + decimal(length) + "\r\n"@ + (if keep_alive {
                "connection: keep-alive\r\n\r\n"@
            } else {
                "connection: close\r\n\r\n"@
            });
            &&& response_head_text(status, Seq::empty(), length, keep_alive) == line + tail
            &&& response_head_text(status, headers.push((name, value)), length, keep_alive) == line + (header_lines(headers)
                + name + ": "@ + value + "\r\n"@) + tail
        }),
{
    assert(headers.push((name, value)).drop_last() =~= headers);
    let line = "HTTP/1.1 "@ + decimal(status as nat) + " "@ + reason_of(status) + "\r\n"@;
    let tail = "content-length: "@ + decimal(length) + "\r\n"@ + (if keep_alive {
        "connection: keep-alive\r\n\r\n"@
    } else {
        "connection: close\r\n\r\n"@
    });
    assert(response_head_text(status, Seq::empty(), length, keep_alive) =~= line + tail);
    assert(response_head_text(status, headers.push((name, value)), length, keep_alive) =~= line + (header_lines(headers) + name
        + ": "@ + value + "\r\n"@) + tail);
}

/// A plain reply says one thing, as text.
pub proof fn lemma_plain_replies(r: Response, status: u16, message: Seq<char>)
    requires
        is_text_response(r, status, message),
    ensures
        r.status == status,
        header_views(r.headers@) == seq![("content-type"@, "text/plain; charset=utf-8"@)],
        r.body matches Body::Bytes(b) && b@ == encode_utf8(message),
        r.spec_length() == encode_utf8(message).len(),
{
}

/// What is said of a request that is refused.
pub proof fn lemma_the_words_for_a_refusal(why: Refusal)
    ensures
        why is HeadTooLarge ==> why.spec_message() == "request head too large"@,
        why is TruncatedHead ==> why.spec_message() == "truncated request"@,
        why is TimedOut ==> why.spec_message() == "timed out reading the request"@,
        why is Malformed ==> why.spec_message() == "malformed request"@,
        why is BodyTooLarge ==> why.spec_message() == "body too large"@,
        why is TruncatedBody ==> why.spec_message() == "truncated body"@,
{
}

/// The words that go with a status.
pub proof fn lemma_the_words_for_a_status(status: u16)
    ensures
        status == 400 ==> reason_of(status) == "Bad Request"@,
        status == 403 ==> reason_of(status) == "Forbidden"@,
        status == 404 ==> reason_of(status) == "Not Found"@,
        status == 405 ==> reason_of(status) == "Method Not Allowed"@,
        status == 413 ==> reason_of(status) == "Payload Too Large"@,
        status == 500 ==> reason_of(status) == "Internal Server Error"@,
        status < 400 ==> reason_of(status) == "OK"@,
{
}

/// A connection becomes a WebSocket where it asks to, says to what and brings a
/// key; it stays open unless it says otherwise.
pub proof fn lemma_when_a_connection_is_taken_over(request: &Request, upgrade: bool, alive: bool)
    requires
        call_ensures(Request::is_websocket_upgrade, (request,), upgrade),
        call_ensures(Request::keeps_alive, (request,), alive),
    ensures
        upgrade <==> lists(request.header_list(), "connection"@, "upgrade"@) && lists(
            request.header_list(),
            "upgrade"@,
            "websocket"@,
        ) && header_in(request.header_list(), "sec-websocket-key"@) is Some,
        alive <==> !lists(request.header_list(), "connection"@, "close"@),
{
}

/// A header is held under its name in small letters, as text without the white
/// space round it.
pub proof fn lemma_how_a_header_is_held(name: Seq<char>, lead: Seq<char>, value: Seq<char>, trail: Seq<char>)
    requires
        forall|k: int| #![trigger lead[k]] 0 <= k < lead.len() ==> lead[k] == ' ',
        forall|k: int| #![trigger trail[k]] 0 <= k < trail.len() ==> trail[k] == ' ',
        value.len() > 0,
        value[0] > ' ' && value[0] < '\u{7f}',
        value[value.len() - 1] > ' ' && value[value.len() - 1] < '\u{7f}',
    ensures
        tidy_header((name, encode_utf8(lead + value + trail))) == (lowered(name), value),
{
    let p = |c: char| is_space(c);
    let s = lead + value + trail;
    encode_utf8_valid_utf8(s);
    encode_utf8_decode_utf8(s);
    assert(s =~= lead + (value + trail));
    assert((value + trail)[0] == value[0]);
    lemma_the_start_comes_off(lead, value + trail, p);
    assert(value.last() == value[value.len() - 1]);
    lemma_the_end_comes_off(value, trail, p);
}

} // verus!
