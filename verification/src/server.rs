//! Serving one connection: what to answer to a request line, decided step by
//! step as the file system is consulted. The caller performs each command
//! (probing, reading, sending) and hands back what it found.

use vstd::prelude::*;
use vstd::utf8::encode_utf8;
use crate::content::{ListingEntry, directory_listing, entry_views, listing_html, mime_for_path, mime_type, sorted_by_name};
use crate::security::{body_components, components, lemma_components_push, lemma_resolved_path_within_root, parent_dir, path_starts_with, path_starts_with_spec, percent_decoded, push_component, push_path, resolve_decoded, resolve_path};
use crate::text::{lemma_split_on_nonempty, bytes_of, split_chars, split_on, split_words, str_chars, str_eq, string_of, chars_to_string, words};

verus! {

/// The method and request path of a request line: its first word, and its
/// second word up to the first `?`; `None` if the line has fewer than two words.
pub open spec fn request_target(line: Seq<char>) -> Option<(Seq<char>, Seq<char>)> {
    let w = words(line);
    if w.len() < 2 {
        None
    } else {
        Some((w[0], split_on(w[1], '?')[0]))
    }
}

/// Reads the method and the request path (without its query) from a request
/// line such as `GET /index.html?x=1 HTTP/1.1` (see [`request_target`]).
pub fn parse_request_line(line: &str) -> (r: Option<(String, String)>)
    ensures
        r is None <==> request_target(line@) is None,
        r matches Some(p) ==> request_target(line@) == Some((p.0@, p.1@)),
{
    let w = split_words(str_chars(line).as_slice());
    if w.len() < 2 {
        return None;
    }
    let method = chars_to_string(w[0].as_slice());
    let pieces = split_chars(w[1].as_slice(), '?');
    proof {
        crate::text::lemma_split_on_nonempty(w[1]@, '?');
    }
    let path = chars_to_string(pieces[0].as_slice());
    Some((method, path))
}

/// A response to send, with the method and path it answers (for the log).
pub struct Response {
    /// The status line's code and reason, such as `200 OK`.
    pub status: String,
    /// The `Content-Type` header's value.
    pub content_type: String,
    /// The body.
    pub body: Vec<u8>,
    /// The request method, or `-` when there was none.
    pub method: String,
    /// The request path, or `-` when there was none.
    pub path: String,
}

/// The meaning of a [`Response`].
pub struct SpecResponse {
    pub status: Seq<char>,
    pub content_type: Seq<char>,
    pub body: Seq<u8>,
    pub method: Seq<char>,
    pub path: Seq<char>,
}

impl View for Response {
    type V = SpecResponse;

    open spec fn view(&self) -> SpecResponse {
        SpecResponse {
            status: self.status@,
            content_type: self.content_type@,
            body: self.body@,
            method: self.method@,
            path: self.path@,
        }
    }
}

/// Where the exchange over one connection stands.
pub enum Exchange {
    /// Nothing has been read yet.
    AwaitRequest,
    /// The request resolved to `target`; its canonical form, existence and
    /// kind are wanted.
    AwaitTarget { method: String, url_path: String, target: String },
    /// `target` is a directory; whether it holds an `index.html` file is wanted.
    AwaitIndex { method: String, url_path: String, target: String },
    /// The contents of `file` are wanted.
    AwaitFile { method: String, url_path: String, file: String },
    /// The entries of the requested directory are wanted.
    AwaitListing { method: String, url_path: String },
    /// The exchange is over.
    Finished,
}

/// The meaning of an [`Exchange`].
pub enum SpecExchange {
    AwaitRequest,
    AwaitTarget { method: Seq<char>, url_path: Seq<char>, target: Seq<char> },
    AwaitIndex { method: Seq<char>, url_path: Seq<char>, target: Seq<char> },
    AwaitFile { method: Seq<char>, url_path: Seq<char>, file: Seq<char> },
    AwaitListing { method: Seq<char>, url_path: Seq<char> },
    Finished,
}

impl View for Exchange {
    type V = SpecExchange;

    open spec fn view(&self) -> SpecExchange {
        match self {
            Exchange::AwaitRequest => SpecExchange::AwaitRequest,
            Exchange::AwaitTarget { method, url_path, target } => SpecExchange::AwaitTarget {
                method: method@,
                url_path: url_path@,
                target: target@,
            },
            Exchange::AwaitIndex { method, url_path, target } => SpecExchange::AwaitIndex {
                method: method@,
                url_path: url_path@,
                target: target@,
            },
            Exchange::AwaitFile { method, url_path, file } => SpecExchange::AwaitFile {
                method: method@,
                url_path: url_path@,
                file: file@,
            },
            Exchange::AwaitListing { method, url_path } => SpecExchange::AwaitListing {
                method: method@,
                url_path: url_path@,
            },
            Exchange::Finished => SpecExchange::Finished,
        }
    }
}

/// What the caller found out, handed back after a command.
pub enum Event {
    /// The request line, or `None` when the connection closed before one came.
    RequestLine(Option<String>),
    /// The target's canonical path (`None` when it cannot be canonicalized),
    /// whether it exists, and whether it is a directory.
    TargetProbed { canonical: Option<String>, exists: bool, is_dir: bool },
    /// Whether the directory's `index.html` is a file.
    IndexProbed { is_file: bool },
    /// The file's contents, or `None` when it could not be read.
    FileRead(Option<Vec<u8>>),
    /// The directory's entries (none when it could not be read).
    DirectoryRead(Vec<ListingEntry>),
}

/// The meaning of an [`Event`].
pub enum SpecEvent {
    RequestLine(Option<Seq<char>>),
    TargetProbed { canonical: Option<Seq<char>>, exists: bool, is_dir: bool },
    IndexProbed { is_file: bool },
    FileRead(Option<Seq<u8>>),
    DirectoryRead(Seq<crate::content::EntryView>),
}

impl View for Event {
    type V = SpecEvent;

    open spec fn view(&self) -> SpecEvent {
        match self {
            Event::RequestLine(l) => SpecEvent::RequestLine(
                match l {
                    Some(s) => Some(s@),
                    None => None,
                },
            ),
            Event::TargetProbed { canonical, exists, is_dir } => SpecEvent::TargetProbed {
                canonical: match canonical {
                    Some(c) => Some(c@),
                    None => None,
                },
                exists: *exists,
                is_dir: *is_dir,
            },
            Event::IndexProbed { is_file } => SpecEvent::IndexProbed { is_file: *is_file },
            Event::FileRead(c) => SpecEvent::FileRead(
                match c {
                    Some(b) => Some(b@),
                    None => None,
                },
            ),
            Event::DirectoryRead(es) => SpecEvent::DirectoryRead(entry_views(es@)),
        }
    }
}

/// What the caller is to do next.
pub enum Command {
    /// Close the connection without answering.
    Close,
    /// Canonicalize the path and find out whether it exists and is a directory.
    ProbeTarget(String),
    /// Find out whether the path is a file.
    ProbeIndex(String),
    /// Read the file at the path.
    ReadFile(String),
    /// Read the entries of the directory at the path.
    ReadDirectory(String),
    /// Send the response (and log it), then close.
    Send(Response),
}

/// The meaning of a [`Command`].
pub enum SpecCommand {
    Close,
    ProbeTarget(Seq<char>),
    ProbeIndex(Seq<char>),
    ReadFile(Seq<char>),
    ReadDirectory(Seq<char>),
    Send(SpecResponse),
}

impl View for Command {
    type V = SpecCommand;

    open spec fn view(&self) -> SpecCommand {
        match self {
            Command::Close => SpecCommand::Close,
            Command::ProbeTarget(p) => SpecCommand::ProbeTarget(p@),
            Command::ProbeIndex(p) => SpecCommand::ProbeIndex(p@),
            Command::ReadFile(p) => SpecCommand::ReadFile(p@),
            Command::ReadDirectory(p) => SpecCommand::ReadDirectory(p@),
            Command::Send(r) => SpecCommand::Send(r@),
        }
    }
}

/// Sending a response.
pub open spec fn reply(
    status: Seq<char>,
    content_type: Seq<char>,
    body: Seq<u8>,
    method: Seq<char>,
    path: Seq<char>,
) -> SpecCommand {
    SpecCommand::Send(SpecResponse { status, content_type, body, method, path })
}

/// Sending a plain-text response whose body is `text`.
pub open spec fn text_reply(
    status: Seq<char>,
    text: Seq<char>,
    method: Seq<char>,
    path: Seq<char>,
) -> SpecCommand {
    reply(status, "text/plain"@, encode_utf8(text), method, path)
}

/// The body sent for a request: nothing for `HEAD`, the content otherwise.
pub open spec fn body_for(method: Seq<char>, content: Seq<u8>) -> Seq<u8> {
    if method == "HEAD"@ {
        seq![]
    } else {
        content
    }
}

/// The name of the file served for a directory.
pub open spec fn index_name() -> Seq<char> {
    "index.html"@
}

/// One step of serving a connection under `root`: from the state `s` and
/// what the caller found out (`e`), the next state `s2` and command `c`.
///
/// A request line with fewer than two words is answered `400 Bad Request`;
/// a method other than `GET` and `HEAD`, `405 Method Not Allowed`; a path that
/// does not resolve below the root, `400 Bad Request`. A resolved target is
/// probed; unless its canonical path lies within the root and it exists, the
/// answer is `404 Not Found`. A directory is served by its `index.html` file
/// when it has one and by a listing of its entries otherwise. A file read
/// is answered `200 OK` with the content type of its path, one that fails,
/// `500 Internal Server Error`. `HEAD` answers carry no body. An event that
/// does not fit the state ends the exchange without an answer.
pub open spec fn step_spec(
    root: Seq<char>,
    s: SpecExchange,
    e: SpecEvent,
    s2: SpecExchange,
    c: SpecCommand,
) -> bool {
    match (s, e) {
        (SpecExchange::AwaitRequest, SpecEvent::RequestLine(None)) => {
            s2 == SpecExchange::Finished && c == SpecCommand::Close
        },
        (SpecExchange::AwaitRequest, SpecEvent::RequestLine(Some(line))) => {
            match request_target(line) {
                None => s2 == SpecExchange::Finished && c == text_reply(
                    "400 Bad Request"@,
                    "Bad Request"@,
                    "-"@,
                    "-"@,
                ),
                Some((m, u)) => {
                    if m != "GET"@ && m != "HEAD"@ {
                        s2 == SpecExchange::Finished && c == text_reply(
                            "405 Method Not Allowed"@,
                            "Method Not Allowed"@,
                            m,
                            u,
                        )
                    } else {
                        match resolve_decoded(root, percent_decoded(u)) {
                            None => s2 == SpecExchange::Finished && c == text_reply(
                                "400 Bad Request"@,
                                "Bad Request"@,
                                m,
                                u,
                            ),
                            Some(t) => s2 == SpecExchange::AwaitTarget {
                                method: m,
                                url_path: u,
                                target: t,
                            } && c == SpecCommand::ProbeTarget(t),
                        }
                    }
                },
            }
        },
        (
            SpecExchange::AwaitTarget { method, url_path, target },
            SpecEvent::TargetProbed { canonical, exists, is_dir },
        ) => {
            let inside = canonical matches Some(cp) && path_starts_with_spec(cp, root);
            if !inside || !exists {
                s2 == SpecExchange::Finished && c == text_reply(
                    "404 Not Found"@,
                    "404 Not Found"@,
                    method,
                    url_path,
                )
            } else if is_dir {
                s2 == SpecExchange::AwaitIndex { method, url_path, target } && c
                    == SpecCommand::ProbeIndex(push_path(target, index_name()))
            } else {
                s2 == SpecExchange::AwaitFile { method, url_path, file: target } && c
                    == SpecCommand::ReadFile(target)
            }
        },
        (
            SpecExchange::AwaitIndex { method, url_path, target },
            SpecEvent::IndexProbed { is_file },
        ) => {
            if is_file {
                s2 == SpecExchange::AwaitFile {
                    method,
                    url_path,
                    file: push_path(target, index_name()),
                } && c == SpecCommand::ReadFile(push_path(target, index_name()))
            } else {
                s2 == SpecExchange::AwaitListing { method, url_path } && c
                    == SpecCommand::ReadDirectory(target)
            }
        },
        (SpecExchange::AwaitFile { method, url_path, file }, SpecEvent::FileRead(Some(content))) => {
            s2 == SpecExchange::Finished && c == reply(
                "200 OK"@,
                mime_for_path(file),
                body_for(method, content),
                method,
                url_path,
            )
        },
        (SpecExchange::AwaitFile { method, url_path, file }, SpecEvent::FileRead(None)) => {
            s2 == SpecExchange::Finished && c == text_reply(
                "500 Internal Server Error"@,
                "Internal Server Error"@,
                method,
                url_path,
            )
        },
        (SpecExchange::AwaitListing { method, url_path }, SpecEvent::DirectoryRead(es)) => {
            s2 == SpecExchange::Finished && exists|p: Seq<crate::content::EntryView>|
                {
                    &&& sorted_by_name(p)
                    &&& p.to_multiset() == es.to_multiset()
                    &&& c == reply(
                        "200 OK"@,
                        "text/html; charset=utf-8"@,
                        body_for(method, encode_utf8(listing_html(url_path, p))),
                        method,
                        url_path,
                    )
                }
        },
        _ => s2 == SpecExchange::Finished && c == SpecCommand::Close,
    }
}

fn text_response(status: &str, text: &str, method: &str, path: &str) -> (c: Command)
    ensures
        c@ == text_reply(status@, text@, method@, path@),
{
    Command::Send(
        Response {
            status: string_of(status),
            content_type: string_of("text/plain"),
            body: bytes_of(text),
            method: string_of(method),
            path: string_of(path),
        },
    )
}

fn start(root: &str, line: Option<String>) -> (r: (Exchange, Command))
    ensures
        step_spec(
            root@,
            SpecExchange::AwaitRequest,
            SpecEvent::RequestLine(
                match line {
                    Some(s) => Some(s@),
                    None => None,
                },
            ),
            r.0@,
            r.1@,
        ),
{
    let line = match line {
        None => {
            return (Exchange::Finished, Command::Close);
        },
        Some(l) => l,
    };
    let (method, url_path) = match parse_request_line(line.as_str()) {
        None => {
            return (
                Exchange::Finished,
                text_response("400 Bad Request", "Bad Request", "-", "-"),
            );
        },
        Some(p) => p,
    };
    if !str_eq(method.as_str(), "GET") && !str_eq(method.as_str(), "HEAD") {
        let c = text_response(
            "405 Method Not Allowed",
            "Method Not Allowed",
            method.as_str(),
            url_path.as_str(),
        );
        return (Exchange::Finished, c);
    }
    match resolve_path(root, url_path.as_str()) {
        None => {
            let c = text_response(
                "400 Bad Request",
                "Bad Request",
                method.as_str(),
                url_path.as_str(),
            );
            (Exchange::Finished, c)
        },
        Some(target) => {
            let c = Command::ProbeTarget(target.clone());
            (Exchange::AwaitTarget { method, url_path, target }, c)
        },
    }
}

fn index_path(target: &str) -> (r: String)
    ensures
        r@ == push_path(target@, index_name()),
{
    let mut t = str_chars(target);
    let name = str_chars("index.html");
    push_component(&mut t, name.as_slice());
    chars_to_string(t.as_slice())
}

/// One step of serving a connection under `root` (see [`step_spec`]).
pub fn step(root: &str, state: Exchange, event: Event) -> (r: (Exchange, Command))
    ensures
        step_spec(root@, state@, event@, r.0@, r.1@),
{
    match (state, event) {
        (Exchange::AwaitRequest, Event::RequestLine(line)) => start(root, line),
        (
            Exchange::AwaitTarget { method, url_path, target },
            Event::TargetProbed { canonical, exists, is_dir },
        ) => {
            let inside = match &canonical {
                Some(cp) => path_starts_with(cp.as_str(), root),
                None => false,
            };
            if !inside || !exists {
                let c = text_response(
                    "404 Not Found",
                    "404 Not Found",
                    method.as_str(),
                    url_path.as_str(),
                );
                (Exchange::Finished, c)
            } else if is_dir {
                let c = Command::ProbeIndex(index_path(target.as_str()));
                (Exchange::AwaitIndex { method, url_path, target }, c)
            } else {
                let c = Command::ReadFile(target.clone());
                (Exchange::AwaitFile { method, url_path, file: target }, c)
            }
        },
        (Exchange::AwaitIndex { method, url_path, target }, Event::IndexProbed { is_file }) => {
            if is_file {
                let index = index_path(target.as_str());
                let c = Command::ReadFile(index.clone());
                (Exchange::AwaitFile { method, url_path, file: index }, c)
            } else {
                (Exchange::AwaitListing { method, url_path }, Command::ReadDirectory(target))
            }
        },
        (Exchange::AwaitFile { method, url_path, file }, Event::FileRead(Some(content))) => {
            let body = if str_eq(method.as_str(), "HEAD") {
                Vec::new()
            } else {
                content
            };
            let r = Response {
                status: string_of("200 OK"),
                content_type: string_of(mime_type(file.as_str())),
                body,
                method,
                path: url_path,
            };
            (Exchange::Finished, Command::Send(r))
        },
        (Exchange::AwaitFile { method, url_path, file }, Event::FileRead(None)) => {
            let c = text_response(
                "500 Internal Server Error",
                "Internal Server Error",
                method.as_str(),
                url_path.as_str(),
            );
            (Exchange::Finished, c)
        },
        (Exchange::AwaitListing { method, url_path }, Event::DirectoryRead(entries)) => {
            let html = directory_listing(url_path.as_str(), &entries);
            let body = if str_eq(method.as_str(), "HEAD") {
                Vec::new()
            } else {
                bytes_of(html.as_str())
            };
            let r = Response {
                status: string_of("200 OK"),
                content_type: string_of("text/html; charset=utf-8"),
                body,
                method,
                path: url_path,
            };
            (Exchange::Finished, Command::Send(r))
        },
        _ => (Exchange::Finished, Command::Close),
    }
}

/// The paths named by a state lie within the root.
pub open spec fn state_within_root(root: Seq<char>, s: SpecExchange) -> bool {
    match s {
        SpecExchange::AwaitTarget { target, .. } => path_starts_with_spec(target, root),
        SpecExchange::AwaitIndex { target, .. } => path_starts_with_spec(target, root),
        SpecExchange::AwaitFile { file, .. } => path_starts_with_spec(file, root),
        _ => true,
    }
}

/// The path that a command has the caller probe or read lies within the root.
pub open spec fn command_within_root(root: Seq<char>, c: SpecCommand) -> bool {
    match c {
        SpecCommand::ProbeTarget(p) => path_starts_with_spec(p, root),
        SpecCommand::ProbeIndex(p) => path_starts_with_spec(p, root),
        SpecCommand::ReadFile(p) => path_starts_with_spec(p, root),
        SpecCommand::ReadDirectory(p) => path_starts_with_spec(p, root),
        _ => true,
    }
}

proof fn lemma_index_within_root(root: Seq<char>, target: Seq<char>)
    requires
        path_starts_with_spec(target, root),
    ensures
        path_starts_with_spec(push_path(target, index_name()), root),
{
    reveal_strlit("index.html");
    assert(!index_name().contains('/')) by {
        if index_name().contains('/') {
            let k = choose|k: int| 0 <= k < index_name().len() && index_name()[k] == '/';
        }
    }
    assert(index_name() != seq!['.']) by {
        assert(index_name().len() != 1);
    }
    lemma_components_push(target, index_name());
    let ct = components(target);
    let cr = components(root);
    assert(ct.push(index_name()).subrange(0, cr.len() as int) =~= ct.subrange(0, cr.len() as int));
}

/// The file system is only ever consulted within the root: starting from a
/// state whose paths lie within the root, every step leads to such a state,
/// and every path it has the caller probe or read lies within the root.
pub proof fn lemma_step_stays_within_root(
    root: Seq<char>,
    s: SpecExchange,
    e: SpecEvent,
    s2: SpecExchange,
    c: SpecCommand,
)
    requires
        state_within_root(root, s),
        step_spec(root, s, e, s2, c),
    ensures
        state_within_root(root, s2),
        command_within_root(root, c),
{
    match (s, e) {
        (SpecExchange::AwaitRequest, SpecEvent::RequestLine(Some(line))) => {
            if let Some((m, u)) = request_target(line) {
                lemma_resolved_path_within_root(root, percent_decoded(u));
            }
        },
        (SpecExchange::AwaitTarget { target, .. }, SpecEvent::TargetProbed { .. }) => {
            lemma_index_within_root(root, target);
        },
        (SpecExchange::AwaitIndex { target, .. }, SpecEvent::IndexProbed { .. }) => {
            lemma_index_within_root(root, target);
        },
        _ => {},
    }
}

/// A successful answer to a `HEAD` request carries no body.
pub proof fn lemma_head_success_has_no_body(
    root: Seq<char>,
    s: SpecExchange,
    e: SpecEvent,
    s2: SpecExchange,
    r: SpecResponse,
)
    requires
        step_spec(root, s, e, s2, SpecCommand::Send(r)),
        r.method == "HEAD"@,
        r.status == "200 OK"@,
    ensures
        r.body.len() == 0,
{
    reveal_strlit("200 OK");
    reveal_strlit("400 Bad Request");
    reveal_strlit("404 Not Found");
    reveal_strlit("405 Method Not Allowed");
    reveal_strlit("500 Internal Server Error");
    assert("200 OK"@[0] != "400 Bad Request"@[0]);
    assert("200 OK"@[0] != "404 Not Found"@[0]);
    assert("200 OK"@[0] != "405 Method Not Allowed"@[0]);
    assert("200 OK"@[0] != "500 Internal Server Error"@[0]);
}

/// A request whose method is neither `GET` nor `HEAD` is answered
/// `405 Method Not Allowed`, and nothing of the file system is consulted.
pub proof fn lemma_other_methods_not_allowed(
    root: Seq<char>,
    line: Seq<char>,
    s2: SpecExchange,
    c: SpecCommand,
)
    requires
        step_spec(root, SpecExchange::AwaitRequest, SpecEvent::RequestLine(Some(line)), s2, c),
        request_target(line) matches Some((m, u)) && m != "GET"@ && m != "HEAD"@,
    ensures
        s2 == SpecExchange::Finished,
        c matches SpecCommand::Send(r) && r.status == "405 Method Not Allowed"@,
{
}

/// A `GET` or `HEAD` request whose decoded path has a `..` component is
/// answered `400 Bad Request`, and nothing of the file system is consulted.
pub proof fn lemma_parent_dir_request_rejected(
    root: Seq<char>,
    line: Seq<char>,
    s2: SpecExchange,
    c: SpecCommand,
)
    requires
        step_spec(root, SpecExchange::AwaitRequest, SpecEvent::RequestLine(Some(line)), s2, c),
        request_target(line) matches Some((m, u)) && (m == "GET"@ || m == "HEAD"@)
            && body_components(percent_decoded(u)).contains(parent_dir()),
    ensures
        s2 == SpecExchange::Finished,
        c matches SpecCommand::Send(r) && r.status == "400 Bad Request"@,
{
}

/// A run of an exchange under `root`: the states it passes through, the
/// events handed in and the commands given out, each step as [`step_spec`]
/// says, starting before any request was read.
pub open spec fn is_run(
    root: Seq<char>,
    states: Seq<SpecExchange>,
    events: Seq<SpecEvent>,
    cmds: Seq<SpecCommand>,
) -> bool {
    &&& states.len() == events.len() + 1
    &&& cmds.len() == events.len()
    &&& states[0] == SpecExchange::AwaitRequest
    &&& forall|i: int|
        0 <= i < events.len() ==> step_spec(root, states[i], #[trigger] events[i], states[i + 1], cmds[i])
}

/// Step `j` of a run probed its target and found it existing, with a
/// canonical path within the root.
pub open spec fn probed_inside(
    root: Seq<char>,
    states: Seq<SpecExchange>,
    events: Seq<SpecEvent>,
    j: int,
) -> bool {
    &&& states[j] is AwaitTarget
    &&& events[j] matches SpecEvent::TargetProbed { canonical: Some(cp), exists: true, .. }
        && path_starts_with_spec(cp, root)
}

proof fn lemma_run_served_states_probed(
    root: Seq<char>,
    states: Seq<SpecExchange>,
    events: Seq<SpecEvent>,
    cmds: Seq<SpecCommand>,
    k: int,
)
    requires
        is_run(root, states, events, cmds),
        0 <= k <= events.len(),
    ensures
        (states[k] is AwaitIndex || states[k] is AwaitFile || states[k] is AwaitListing)
            ==> exists|j: int| 0 <= j < k && probed_inside(root, states, events, j),
    decreases k,
{
    if k > 0 {
        lemma_run_served_states_probed(root, states, events, cmds, k - 1);
        let i = k - 1;
        assert(step_spec(root, states[i], events[i], states[i + 1], cmds[i]));
        if states[k] is AwaitIndex || states[k] is AwaitFile || states[k] is AwaitListing {
            if states[i] is AwaitTarget {
                assert(probed_inside(root, states, events, i));
            } else {
                let j = choose|j: int| 0 <= j < i && probed_inside(root, states, events, j);
                assert(probed_inside(root, states, events, j));
            }
        }
    }
}

/// Over a whole exchange, a `200 OK` answer is only ever given after the
/// target was probed and found to exist with a canonical path within the
/// root: a link that leads outside the root is never served.
pub proof fn lemma_success_only_inside_root(
    root: Seq<char>,
    states: Seq<SpecExchange>,
    events: Seq<SpecEvent>,
    cmds: Seq<SpecCommand>,
    k: int,
)
    requires
        is_run(root, states, events, cmds),
        0 <= k < cmds.len(),
        cmds[k] matches SpecCommand::Send(r) && r.status == "200 OK"@,
    ensures
        exists|j: int| 0 <= j < k && probed_inside(root, states, events, j),
{
    reveal_strlit("200 OK");
    reveal_strlit("400 Bad Request");
    reveal_strlit("404 Not Found");
    reveal_strlit("405 Method Not Allowed");
    reveal_strlit("500 Internal Server Error");
    assert("200 OK"@[0] != "400 Bad Request"@[0]);
    assert("200 OK"@[0] != "404 Not Found"@[0]);
    assert("200 OK"@[0] != "405 Method Not Allowed"@[0]);
    assert("200 OK"@[0] != "500 Internal Server Error"@[0]);
    assert(step_spec(root, states[k], events[k], states[k + 1], cmds[k]));
    assert(states[k] is AwaitFile || states[k] is AwaitListing);
    lemma_run_served_states_probed(root, states, events, cmds, k);
}

proof fn lemma_split_first_piece_kept(s: Seq<char>, t: Seq<char>, sep: char)
    requires
        split_on(s, sep).len() >= 2,
    ensures
        split_on(s + t, sep).len() >= 2,
        split_on(s + t, sep)[0] == split_on(s, sep)[0],
    decreases t.len(),
{
    if t.len() == 0 {
        assert(s + t =~= s);
    } else {
        lemma_split_first_piece_kept(s, t.drop_last(), sep);
        assert((s + t).drop_last() =~= s + t.drop_last());
        lemma_split_on_nonempty(s + t.drop_last(), sep);
    }
}

/// The text before the first `?` of `p + "?" + q`, for `p` free of `?`, is `p`.
pub proof fn lemma_query_cut(p: Seq<char>, q: Seq<char>)
    requires
        !p.contains('?'),
    ensures
        split_on(p + seq!['?'] + q, '?')[0] == p,
        split_on(p, '?')[0] == p,
{
    crate::security::lemma_split_on_append_plain(Seq::<char>::empty(), p, '?');
    assert(Seq::<char>::empty() + p =~= p);
    assert(split_on(p, '?') =~= seq![p]);
    let pq = p + seq!['?'];
    assert(pq.drop_last() =~= p);
    assert(split_on(pq, '?') =~= seq![p, seq![]]);
    lemma_split_first_piece_kept(pq, q, '?');
    assert(pq + q =~= p + seq!['?'] + q);
}

/// The query string is ignored: two request lines with the same method
/// whose second words are `p?q` and `p` (for `p` free of `?`) lead to the
/// same step, and both answer for the path `p`.
pub proof fn lemma_query_string_ignored(
    root: Seq<char>,
    line_with_query: Seq<char>,
    line: Seq<char>,
    p: Seq<char>,
    q: Seq<char>,
)
    requires
        words(line_with_query).len() >= 2,
        words(line).len() >= 2,
        words(line_with_query)[0] == words(line)[0],
        words(line_with_query)[1] == p + seq!['?'] + q,
        words(line)[1] == p,
        !p.contains('?'),
    ensures
        request_target(line_with_query) == Some((words(line)[0], p)),
        request_target(line) == Some((words(line)[0], p)),
        forall|s2: SpecExchange, c: SpecCommand|
            step_spec(
                root,
                SpecExchange::AwaitRequest,
                SpecEvent::RequestLine(Some(line_with_query)),
                s2,
                c,
            ) <==> step_spec(
                root,
                SpecExchange::AwaitRequest,
                SpecEvent::RequestLine(Some(line)),
                s2,
                c,
            ),
{
    lemma_query_cut(p, q);
}

/// A directory whose `index.html` is a file is answered with that file,
/// whatever request path reached it: the next command reads
/// `TARGET/index.html` (no `/` is doubled), never the directory's listing.
pub proof fn lemma_index_file_is_served(
    root: Seq<char>,
    method: Seq<char>,
    url_path: Seq<char>,
    target: Seq<char>,
    s2: SpecExchange,
    c: SpecCommand,
)
    requires
        step_spec(
            root,
            SpecExchange::AwaitIndex { method, url_path, target },
            SpecEvent::IndexProbed { is_file: true },
            s2,
            c,
        ),
    ensures
        c matches SpecCommand::ReadFile(f) && s2 == (SpecExchange::AwaitFile {
            method,
            url_path,
            file: f,
        }) && f.subrange(0, target.len() as int) == target && f.subrange(
            f.len() - 10,
            f.len() as int,
        ) == "index.html"@,
        target.len() > 0 && target.last() != '/' ==> c == SpecCommand::ReadFile(
            target + "/index.html"@,
        ),
        target.len() > 0 && target.last() == '/' ==> c == SpecCommand::ReadFile(
            target + "index.html"@,
        ),
        !(c is ReadDirectory),
{
    reveal_strlit("index.html");
    reveal_strlit("/index.html");
    let f = push_path(target, index_name());
    if target.len() > 0 && target.last() != '/' {
        assert(target + seq!['/'] + index_name() =~= target + "/index.html"@);
    }
    assert(f.subrange(0, target.len() as int) =~= target);
    assert(f.subrange(f.len() - 10, f.len() as int) =~= "index.html"@);
}

} // verus!
