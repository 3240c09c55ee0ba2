use overlook::client::{frame, header_line, read_message, same_path, Header, Incoming, Outgoing, Session};
use overlook::json::JsonValue;
use overlook::lsp::{uri, Position, Problem, Severity, Status};

const PROJECT: &str = "/tmp/overlook-lsp";

fn file() -> String {
    format!("{PROJECT}/spec/Thing.pi")
}

/// A server the tests answer for: it keeps what the client sent, and answers
/// `initialize` and hovers the way the real one does.
struct Server {
    sent: Vec<Outgoing>,
    hover: Option<String>,
    alive: bool,
    /// Answers waiting for the client: a request id and what it holds.
    pending: Vec<(i64, String)>,
}

impl Server {
    fn new() -> Server {
        Server { sent: Vec::new(), hover: None, alive: true, pending: Vec::new() }
    }

    fn take(&mut self, message: Outgoing) {
        match &message {
            Outgoing::Initialize { id, .. } => self.pending.push((*id, String::new())),
            Outgoing::Hover { id, .. } => {
                let answer = self.hover.clone().unwrap_or_default();
                self.pending.push((*id, answer));
            }
            _ => {}
        }
        self.sent.push(message);
    }

    fn take_all(&mut self, messages: Vec<Outgoing>) {
        for message in messages {
            self.take(message);
        }
    }

    fn opened(&self) -> Vec<(String, i64, String)> {
        self.sent
            .iter()
            .filter_map(|m| match m {
                Outgoing::DidOpen { uri, version, text } => Some((uri.clone(), *version, text.clone())),
                _ => None,
            })
            .collect()
    }

    fn changed(&self) -> Vec<(String, i64, String)> {
        self.sent
            .iter()
            .filter_map(|m| match m {
                Outgoing::DidChange { uri, version, text } => Some((uri.clone(), *version, text.clone())),
                _ => None,
            })
            .collect()
    }

    fn count(&self, which: fn(&Outgoing) -> bool) -> usize {
        self.sent.iter().filter(|m| which(m)).count()
    }
}

fn start() -> (Session, Server) {
    let (session, initialize) = Session::start(PROJECT);
    let mut server = Server::new();
    server.take(initialize);
    (session, server)
}

/// Hand the client everything the server has said, as a poll does.
fn poll(session: &mut Session, server: &mut Server) {
    let pending = std::mem::take(&mut server.pending);
    for (id, contents) in pending {
        let answer = session.response(id, &contents);
        server.take_all(answer);
    }
    if !server.alive {
        session.server_gone();
    }
}

fn document(session: &mut Session, server: &mut Server, path: &str, text: &str) {
    if let Some(message) = session.document(path, text) {
        server.take(message);
    }
}

fn ready() -> (Session, Server) {
    let (mut session, mut server) = start();
    poll(&mut session, &mut server);
    assert_eq!(session.status(), &Status::Ready);
    (session, server)
}

#[test]
fn the_client_starts_the_conversation_the_server_expects() {
    let (mut session, mut server) = start();
    assert_eq!(session.status(), &Status::Starting);

    match &server.sent[0] {
        Outgoing::Initialize { root_uri, .. } => assert_eq!(root_uri, &uri(PROJECT)),
        other => panic!("the first message is initialize, not {other:?}"),
    }

    poll(&mut session, &mut server);
    assert_eq!(session.status(), &Status::Ready);
    assert_eq!(
        server.count(|m| matches!(m, Outgoing::Initialized)),
        1,
        "the server is told the client is ready for it"
    );
}

#[test]
fn opening_then_editing_a_file_sends_it_once_and_then_the_changes() {
    let (mut session, mut server) = ready();

    document(&mut session, &mut server, &file(), "anchor A:\n");
    let opened = server.opened();
    assert_eq!(opened.len(), 1);
    assert_eq!(opened[0].0, uri(&file()));
    assert_eq!(opened[0].2, "anchor A:\n");

    document(&mut session, &mut server, &file(), "anchor A:\n");
    assert!(
        server.changed().is_empty(),
        "text that has not changed is not sent again"
    );

    document(&mut session, &mut server, &file(), "anchor B:\n");
    let changed = server.changed();
    assert_eq!(changed.len(), 1);
    assert_eq!(changed[0].2, "anchor B:\n");
    assert_eq!(changed[0].1, 2, "each change is a new version of the file");
}

#[test]
fn a_file_opened_before_the_server_answered_is_sent_once_it_has() {
    let (mut session, mut server) = start();
    document(&mut session, &mut server, &file(), "anchor A:\n");

    poll(&mut session, &mut server);

    let opened = server.opened();
    assert_eq!(opened.len(), 1, "the file went out once the server was ready");
    assert_eq!(opened[0].2, "anchor A:\n");
}

#[test]
fn closing_a_file_tells_the_server_and_forgets_it() {
    let (mut session, mut server) = ready();
    document(&mut session, &mut server, &file(), "anchor A:\n");

    if let Some(message) = session.close(&file()) {
        server.take(message);
    }
    assert_eq!(server.count(|m| matches!(m, Outgoing::DidClose { .. })), 1);

    document(&mut session, &mut server, &file(), "anchor A:\n");
    assert_eq!(
        server.opened().len(),
        2,
        "a file that comes back is opened again"
    );
}

#[test]
fn problems_are_kept_per_file_and_replaced_as_they_are_republished() {
    let (mut session, mut server) = ready();
    document(&mut session, &mut server, &file(), "anchor A:\n    key: nope\n");
    assert!(session.problems(&file()).is_empty());

    let problem = Problem::read(
        Some(1),
        Some("cannot find `nope` in this scope".to_string()),
        (Some(1), Some(9)),
        (Some(1), Some(13)),
    );
    session.notification("textDocument/publishDiagnostics", Some(&uri(&file())), vec![problem]);

    let problems = session.problems(&file());
    assert_eq!(problems.len(), 1);
    assert_eq!(problems[0].severity, Severity::Error);
    assert!(problems[0].message.contains("nope"));
    assert_eq!(problems[0].start, Position { line: 1, character: 9 });

    session.notification("textDocument/publishDiagnostics", Some(&uri(&file())), Vec::new());
    assert!(
        session.problems(&file()).is_empty(),
        "a file that was fixed keeps no old problems"
    );
}

#[test]
fn hover_is_asked_once_and_answered_in_words() {
    let (mut session, mut server) = ready();
    document(&mut session, &mut server, &file(), "anchor A:\n");
    server.hover = Some("```piton\nexport anchor Stack:\n```\n\n**Properties**\n\n- `language`\n".to_string());
    let at = Position { line: 0, character: 7 };

    for _ in 0..2 {
        if let Some(message) = session.ask_hover(&file(), at) {
            server.take(message);
        }
    }
    assert_eq!(
        server.count(|m| matches!(m, Outgoing::Hover { .. })),
        1,
        "the same position is only asked about once"
    );

    poll(&mut session, &mut server);
    let hover = session.hover(&file(), at).expect("the server answered");
    assert!(hover.contains("export anchor Stack:"), "{hover}");
    assert!(!hover.contains("```"), "the marks are gone: {hover}");
    assert!(!hover.contains('`'), "the marks are gone: {hover}");
    assert!(hover.contains("Properties"));

    assert!(
        session.hover(&file(), Position { line: 9, character: 0 }).is_none(),
        "the answer belongs to the position it was asked about"
    );
}

#[test]
fn a_hover_the_server_knows_nothing_about_answers_nothing() {
    let (mut session, mut server) = ready();
    document(&mut session, &mut server, &file(), "anchor A:\n");
    let at = Position { line: 0, character: 0 };

    if let Some(message) = session.ask_hover(&file(), at) {
        server.take(message);
    }
    poll(&mut session, &mut server);

    assert!(session.hover(&file(), at).is_none());
    assert!(server.count(|m| matches!(m, Outgoing::Hover { .. })) == 1);
}

#[test]
fn a_server_that_stops_is_reported_as_gone() {
    let (mut session, mut server) = ready();
    server.alive = false;

    poll(&mut session, &mut server);

    assert!(matches!(session.status(), Status::Unavailable(_)));
}

#[test]
fn a_missing_server_leaves_a_client_that_says_so() {
    let session = Session::unavailable(PROJECT, "not found");

    assert!(matches!(session.status(), Status::Unavailable(_)));
    assert!(session.problems(&file()).is_empty());
}

#[test]
fn framing_reads_the_messages_a_server_writes() {
    assert_eq!(header_line("Content-Length: 32\r\n"), Header::Length(Some(32)));
    assert_eq!(header_line("Content-Type: application/vscode-jsonrpc\r\n"), Header::Other);
    assert_eq!(header_line("\r\n"), Header::End);
    assert_eq!(header_line("Content-Length: many\r\n"), Header::Length(None));
}

#[test]
fn framing_writes_what_a_server_can_read_back() {
    let body = "{\"jsonrpc\":\"2.0\",\"method\":\"one\"}";
    let written = frame(body);
    let (header, rest) = written.split_once("\r\n\r\n").expect("a header and a body");
    assert_eq!(header, format!("Content-Length: {}", rest.len()));
    assert_eq!(rest, body);
    assert_eq!(header_line(&format!("{header}\r\n")), Header::Length(Some(body.len())));
}

#[test]
fn the_status_says_why_the_server_is_missing() {
    let session = Session::unavailable(PROJECT, "not found");
    assert_eq!(session.status(), &Status::Unavailable("piton: not found".to_string()));
}

#[test]
fn a_server_stopping_twice_keeps_the_first_reason() {
    let mut session = Session::unavailable(PROJECT, "not found");
    session.server_gone();
    assert_eq!(session.status(), &Status::Unavailable("piton: not found".to_string()));

    let (mut started, _) = Session::start(PROJECT);
    started.server_gone();
    assert_eq!(started.status(), &Status::Unavailable("piton stopped".to_string()));
}

#[test]
fn a_saved_file_is_only_announced_when_the_server_has_it() {
    let (mut session, mut server) = ready();
    assert!(session.saved(&file(), "anchor A:\n").is_none());
    document(&mut session, &mut server, &file(), "anchor A:\n");
    match session.saved(&file(), "anchor A:\n") {
        Some(Outgoing::DidSave { uri: u, text }) => {
            assert_eq!(u, uri(&file()));
            assert_eq!(text, "anchor A:\n");
        }
        other => panic!("expected a save notice, got {other:?}"),
    }
}

#[test]
fn closing_forgets_the_hover_about_the_file() {
    let (mut session, mut server) = ready();
    document(&mut session, &mut server, &file(), "anchor A:\n");
    server.hover = Some("Stack".to_string());
    let at = Position { line: 0, character: 1 };
    if let Some(message) = session.ask_hover(&file(), at) {
        server.take(message);
    }
    poll(&mut session, &mut server);
    assert_eq!(session.hover(&file(), at), Some("Stack"));
    let _ = session.close(&file());
    assert!(session.hover(&file(), at).is_none());
}

#[test]
fn numbers_in_headers_follow_the_usual_reading() {
    assert_eq!(header_line("Content-Length:   +7  \n"), Header::Length(Some(7)));
    assert_eq!(header_line("Content-Length: 99999999999999999999999\r\n"), Header::Length(None));
    assert_eq!(header_line("Content-Length:\r\n"), Header::Length(None));
    assert_eq!(header_line("Content-Length: 1 2\r\n"), Header::Length(None));
}

#[test]
fn a_request_of_the_servers_is_answered_with_nothing_under_its_id() {
    let body = br#"{"jsonrpc":"2.0","id":"reg-1","method":"client/registerCapability","params":{}}"#;
    let Some(Incoming::Request { id }) = read_message(body) else {
        panic!("a request is read as one");
    };
    let (session, _) = Session::start("/project");
    match session.request(id) {
        Outgoing::Reply { id: JsonValue::Str(s) } => assert_eq!(s, "reg-1"),
        other => panic!("unexpected reply {:?}", other),
    }
}

#[test]
fn published_problems_are_read_from_a_notification() {
    let body = br#"{"jsonrpc":"2.0","method":"textDocument/publishDiagnostics","params":{"uri":"file:///p/a.pi","diagnostics":[{"range":{"start":{"line":1,"character":4},"end":{"line":1,"character":9}},"severity":2,"message":"unused"},{"range":{"start":{"line":0}}}]}}"#;
    let Some(Incoming::Notification { method, uri, problems }) = read_message(body) else {
        panic!("a notification is read as one");
    };
    assert_eq!(method, "textDocument/publishDiagnostics");
    assert_eq!(uri.as_deref(), Some("file:///p/a.pi"));
    assert_eq!(problems.len(), 2);
    assert_eq!(problems[0].severity, Severity::Warning);
    assert_eq!(problems[0].message, "unused");
    assert_eq!(problems[0].start, Position { line: 1, character: 4 });
    assert_eq!(problems[0].end, Position { line: 1, character: 9 });
    assert_eq!(problems[1].severity, Severity::Error);
    assert_eq!(problems[1].message, "");
    assert_eq!(problems[1].end, Position { line: 0, character: 0 });
}

#[test]
fn an_answer_is_read_in_words() {
    let body = br#"{"jsonrpc":"2.0","id":7,"result":{"contents":{"kind":"markdown","value":"**A**"}}}"#;
    match read_message(body) {
        Some(Incoming::Response { id, text }) => {
            assert_eq!(id, 7);
            assert_eq!(text, "**A**");
        }
        other => panic!("unexpected {:?}", other),
    }
    let body = br#"{"id":"x","result":{"contents":"plain"}}"#;
    match read_message(body) {
        Some(Incoming::Response { id, text }) => {
            assert_eq!(id, -1);
            assert_eq!(text, "plain");
        }
        other => panic!("unexpected {:?}", other),
    }
    match read_message(br#"{"id":3,"result":null}"#) {
        Some(Incoming::Response { id, text }) => {
            assert_eq!(id, 3);
            assert_eq!(text, "");
        }
        other => panic!("unexpected {:?}", other),
    }
}

#[test]
fn what_is_not_a_message_is_told_apart() {
    assert!(read_message(b"{not json").is_none());
    assert!(matches!(read_message(b"[1, 2]"), Some(Incoming::Other)));
    assert!(matches!(read_message(br#"{"jsonrpc":"2.0"}"#), Some(Incoming::Other)));
}

#[test]
fn paths_spelled_differently_name_the_same_file() {
    assert!(same_path("/p/a.pi", "/p/./a.pi"));
    assert!(same_path("/p/a.pi", "/p//a.pi"));
    assert!(same_path("/p/dir/", "/p/dir"));
    assert!(!same_path("/p/a.pi", "/p/b/../a.pi"));
    assert!(!same_path("./a.pi", "a.pi"));
    assert!(!same_path("/a.pi", "a.pi"));

    let (mut session, _) = Session::start("/p");
    session.response(1, "");
    assert!(matches!(session.document("/p/a.pi", "anchor A:\n"), Some(Outgoing::DidOpen { .. })));
    assert!(session.document("/p//a.pi", "anchor A:\n").is_none());
    match session.close("/p/./a.pi") {
        Some(Outgoing::DidClose { uri }) => assert_eq!(uri, "file:///p/./a.pi"),
        other => panic!("unexpected {:?}", other),
    }
    session.notification(
        "textDocument/publishDiagnostics",
        Some("file:///p/./b.pi"),
        vec![Problem::read(Some(1), Some("bad".to_string()), (Some(0), Some(0)), (Some(0), Some(1)))],
    );
    assert_eq!(session.problems("/p/b.pi").len(), 1);
}
