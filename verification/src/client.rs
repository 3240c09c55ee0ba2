//! The editor's side of a conversation with the language server: what it
//! has told the server, what it is waiting for, and what the server has said.
//!
//! Each step takes what happened (the editor's buffer changed, the server
//! answered) and says what to send; sending and receiving are the caller's.

use vstd::prelude::*;

use crate::json::{
    deref, field, get, i64_of, i64_spec, json_of, parse_json, str_of, str_or_empty, str_spec, u64_of,
    u64_spec, JsonValue,
};
use crate::lsp::{
    path_of, path_spec, plain_spec, plain_text, position_part, severity_read, uri, uri_spec, Position,
    Problem, Status,
};
use crate::text::{chars_of, split_at_char, split_char, string_of, texts, Text};

verus! {

/// The program the editor runs to get a language server.
pub const SERVER_COMMAND: &'static str = "piton";

/// A message for the server.
#[derive(Debug)]
pub enum Outgoing {
    /// The first request, naming the project.
    Initialize { id: i64, root_uri: String },
    /// That the answer to `Initialize` was received.
    Initialized,
    DidOpen { uri: String, version: i64, text: String },
    /// The whole new text of a file the server has.
    DidChange { uri: String, version: i64, text: String },
    DidClose { uri: String },
    DidSave { uri: String, text: String },
    Hover { id: i64, uri: String, at: Position },
    /// The answer to a request of the server's: nothing, under its id.
    Reply { id: JsonValue },
}

/// What the editor knows about one file the server has been told about.
#[derive(Debug, Clone)]
pub struct Document {
    pub path: String,
    pub version: i64,
    pub text: String,
}

/// One language server conversation, and what the server has said so far.
#[derive(Debug)]
pub struct Session {
    pub root: String,
    pub status: Status,
    pub next_id: i64,
    /// The files the server has been told about, each once.
    pub documents: Vec<Document>,
    /// What the server said about each file, each file once.
    pub problems: Vec<(String, Vec<Problem>)>,
    /// The hover the editor is waiting on, and the last one it was given.
    pub asked: Option<(String, Position, i64)>,
    pub answer: Option<(String, Position, String)>,
}

pub open spec fn is_ready(s: Status) -> bool {
    s is Ready
}

pub open spec fn is_unavailable(s: Status) -> bool {
    s is Unavailable
}

/// The parts of a path that name something, among the first `n`, joined by
/// `/`: empty parts and `.` are left out.
pub open spec fn kept_parts(parts: Seq<Text>, n: nat) -> Text
    decreases n,
{
    if n == 0 || n > parts.len() {
        Seq::empty()
    } else {
        let prev = kept_parts(parts, (n - 1) as nat);
        let t = parts[n - 1];
        if t.len() == 0 || t == seq!['.'] {
            prev
        } else if prev.len() == 0 {
            t
        } else {
            prev + seq!['/'] + t
        }
    }
}

/// The text a path is known by: its components as a Unix path reads them,
/// where repeated `/`, a `/` at the end and a `.` past the start change
/// nothing. Two paths with the same key name the same file.
pub open spec fn path_key(p: Text) -> Text {
    let parts = split_at_char(p, '/');
    let prefix = if p.len() > 0 && p[0] == '/' {
        seq!['/']
    } else if parts.len() > 0 && parts[0] == seq!['.'] {
        seq!['.', '/']
    } else {
        Seq::empty()
    };
    prefix + kept_parts(parts, parts.len())
}

fn push_chars(out: &mut Vec<char>, s: &[char])
    ensures
        final(out)@ == old(out)@ + s@,
{
    let ghost start = out@;
    let mut k: usize = 0;
    while k < s.len()
        invariant
            k <= s@.len(),
            out@ == start + s@.take(k as int),
        decreases s@.len() - k,
    {
        out.push(s[k]);
        assert(s@.take(k + 1) =~= s@.take(k as int).push(s@[k as int]));
        k += 1;
    }
    assert(s@.take(s@.len() as int) =~= s@);
}

/// The key a path is known by.
pub fn path_key_of(p: &str) -> (r: Vec<char>)
    ensures
        r@ == path_key(p@),
{
    let cs = chars_of(p);
    let parts = split_char(cs.as_slice(), '/');
    let ghost pv = texts(parts@);
    let mut out: Vec<char> = Vec::new();
    if cs.len() > 0 && cs[0] == '/' {
        out.push('/');
    } else if parts.len() > 0 && parts[0].len() == 1 && parts[0][0] == '.' {
        assert(pv[0] == parts@[0]@);
        assert(parts@[0]@ =~= seq!['.']);
        out.push('.');
        out.push('/');
    } else {
        proof {
            if parts@.len() > 0 {
                assert(pv[0] == parts@[0]@);
                if parts@[0]@ == seq!['.'] {
                    assert(parts@[0]@[0] == '.');
                }
            }
        }
    }
    let ghost prefix = out@;
    let mut body: Vec<char> = Vec::new();
    let mut k: usize = 0;
    while k < parts.len()
        invariant
            k <= parts@.len(),
            pv == texts(parts@),
            body@ == kept_parts(pv, k as nat),
        decreases parts@.len() - k,
    {
        let t = &parts[k];
        assert(pv[k as int] == t@);
        let dot = t.len() == 1 && t[0] == '.';
        proof {
            if t@ == seq!['.'] {
                assert(t@[0] == '.');
            }
            if dot {
                assert(t@ =~= seq!['.']);
            }
        }
        if t.len() == 0 || dot {
        } else if body.len() == 0 {
            push_chars(&mut body, t.as_slice());
            assert(body@ =~= t@);
        } else {
            body.push('/');
            push_chars(&mut body, t.as_slice());
        }
        k += 1;
    }
    push_chars(&mut out, body.as_slice());
    out
}

/// Whether two paths name the same file.
pub fn same_path(a: &str, b: &str) -> (r: bool)
    ensures
        r == (path_key(a@) == path_key(b@)),
{
    let x = path_key_of(a);
    let y = path_key_of(b);
    crate::text::same(x.as_slice(), y.as_slice())
}

/// The index of the document for the path known by `key`.
pub open spec fn doc_index(docs: Seq<Document>, key: Text) -> Option<int> {
    if exists|k: int| 0 <= k < docs.len() && path_key((#[trigger] docs[k]).path@) == key {
        Some(choose|k: int| 0 <= k < docs.len() && path_key((#[trigger] docs[k]).path@) == key)
    } else {
        None
    }
}

/// The index of the problems for the path known by `key`.
pub open spec fn problems_index(ps: Seq<(String, Vec<Problem>)>, key: Text) -> Option<int> {
    if exists|k: int| 0 <= k < ps.len() && path_key((#[trigger] ps[k]).0@) == key {
        Some(choose|k: int| 0 <= k < ps.len() && path_key((#[trigger] ps[k]).0@) == key)
    } else {
        None
    }
}

impl Session {
    /// Each file is known once, among the documents and among the problems;
    /// request 1 is `initialize`, so every other request, the hover waited on
    /// among them, has an id from 2 up, below the next one.
    pub open spec fn wf(&self) -> bool {
        &&& self.next_id >= 2
        &&& (self.asked matches Some((_, _, id)) ==> 2 <= id < self.next_id)
        &&& forall|i: int, j: int|
            0 <= i < j < self.documents@.len() ==> path_key((#[trigger] self.documents@[i]).path@) != path_key((#[trigger] self.documents@[j]).path@)
        &&& forall|i: int, j: int|
            0 <= i < j < self.problems@.len() ==> path_key((#[trigger] self.problems@[i]).0@) != path_key((#[trigger] self.problems@[j]).0@)
    }

    /// A conversation just started: the server has been sent `initialize`,
    /// which is request 1, and nothing else.
    pub fn start(root: &str) -> (r: (Session, Outgoing))
        ensures
            r.0.wf(),
            r.0.root@ == root@,
            r.0.status is Starting,
            r.0.next_id == 2,
            r.0.documents@.len() == 0,
            r.0.problems@.len() == 0,
            r.0.asked is None,
            r.0.answer is None,
            r.1 matches Outgoing::Initialize { id, root_uri } && id == 1 && root_uri@ == uri_spec(root@),
    {
        let session = Session {
            root: root.to_owned(),
            status: Status::Starting,
            next_id: 2,
            documents: Vec::new(),
            problems: Vec::new(),
            asked: None,
            answer: None,
        };
        (session, Outgoing::Initialize { id: 1, root_uri: uri(root) })
    }

    /// A conversation with no server behind it, and why there is none.
    pub fn unavailable(root: &str, why: &str) -> (r: Session)
        ensures
            r.wf(),
            r.root@ == root@,
            r.status matches Status::Unavailable(m) && m@ == "piton: "@ + why@,
            r.next_id == 2,
            r.documents@.len() == 0,
            r.problems@.len() == 0,
            r.asked is None,
            r.answer is None,
    {
        let mut out: Vec<char> = crate::text::chars_of("piton: ");
        let w = crate::text::chars_of(why);
        let ghost start = out@;
        let mut k: usize = 0;
        while k < w.len()
            invariant
                k <= w@.len(),
                out@ == start + w@.take(k as int),
            decreases w@.len() - k,
        {
            out.push(w[k]);
            assert(w@.take(k + 1) =~= w@.take(k as int).push(w@[k as int]));
            k += 1;
        }
        assert(w@.take(w@.len() as int) =~= w@);
        Session {
            root: root.to_owned(),
            status: Status::Unavailable(string_of(out.as_slice())),
            next_id: 2,
            documents: Vec::new(),
            problems: Vec::new(),
            asked: None,
            answer: None,
        }
    }

    pub fn status(&self) -> (r: &Status)
        ensures
            *r == self.status,
    {
        &self.status
    }

    /// The project the server was started for.
    pub fn root(&self) -> (r: &str)
        ensures
            r@ == self.root@,
    {
        self.root.as_str()
    }

    /// The server has gone: unless that was already known, it is now.
    pub fn server_gone(&mut self)
        ensures
            is_unavailable(old(self).status) ==> final(self).status == old(self).status,
            !is_unavailable(old(self).status) ==> (final(self).status matches Status::Unavailable(m)
                && m@ == "piton stopped"@),
            final(self).root == old(self).root,
            final(self).next_id == old(self).next_id,
            final(self).documents == old(self).documents,
            final(self).problems == old(self).problems,
            final(self).asked == old(self).asked,
            final(self).answer == old(self).answer,
    {
        let gone = match &self.status {
            Status::Unavailable(_) => false,
            _ => true,
        };
        if gone {
            self.status = Status::Unavailable("piton stopped".to_owned());
        }
    }

    fn find_document(&self, path: &str) -> (r: Option<usize>)
        requires
            self.wf(),
        ensures
            match r {
                Some(k) => doc_index(self.documents@, path_key(path@)) == Some(k as int),
                None => doc_index(self.documents@, path_key(path@)) is None,
            },
    {
        let mut k: usize = 0;
        while k < self.documents.len()
            invariant
                self.wf(),
                k <= self.documents@.len(),
                forall|j: int| 0 <= j < k ==> path_key((#[trigger] self.documents@[j]).path@) != path_key(path@),
            decreases self.documents@.len() - k,
        {
            if same_path(self.documents[k].path.as_str(), path) {
                proof {
                    let c = choose|c: int|
                        0 <= c < self.documents@.len() && path_key((#[trigger] self.documents@[c]).path@) == path_key(path@);
                    if c != k {
                        if c < k {
                        } else {
                            assert(path_key(self.documents@[k as int].path@) != path_key(self.documents@[c].path@));
                        }
                    }
                }
                return Some(k);
            }
            k += 1;
        }
        None
    }

    /// Tell the server what a file holds now, opening it if it is new to it.
    ///
    /// A file the editor opens before the server has finished starting is
    /// kept until it has; the server takes nothing before it has answered.
    pub fn document(&mut self, path: &str, text: &str) -> (r: Option<Outgoing>)
        requires
            old(self).wf(),
            forall|k: int| 0 <= k < old(self).documents@.len() ==> (#[trigger] old(self).documents@[k]).version < i64::MAX,
        ensures
            final(self).wf(),
            final(self).root == old(self).root,
            final(self).status == old(self).status,
            final(self).next_id == old(self).next_id,
            final(self).problems == old(self).problems,
            final(self).asked == old(self).asked,
            final(self).answer == old(self).answer,
            match doc_index(old(self).documents@, path_key(path@)) {
                Some(k) => {
                    let d = old(self).documents@[k];
                    if d.text@ == text@ {
                        final(self).documents@ == old(self).documents@ && r is None
                    } else if !is_ready(old(self).status) {
                        &&& final(self).documents@.len() == old(self).documents@.len()
                        &&& forall|j: int| 0 <= j < old(self).documents@.len() && j != k ==> #[trigger] final(self).documents@[j] == old(self).documents@[j]
                        &&& final(self).documents@[k].path == d.path
                        &&& final(self).documents@[k].version == d.version
                        &&& final(self).documents@[k].text@ == text@
                        &&& r is None
                    } else {
                        &&& final(self).documents@.len() == old(self).documents@.len()
                        &&& forall|j: int| 0 <= j < old(self).documents@.len() && j != k ==> #[trigger] final(self).documents@[j] == old(self).documents@[j]
                        &&& final(self).documents@[k].path == d.path
                        &&& final(self).documents@[k].version == d.version + 1
                        &&& final(self).documents@[k].text@ == text@
                        &&& (r matches Some(Outgoing::DidChange { uri: u, version: v, text: t })
                            && u@ == uri_spec(path@) && v == d.version + 1 && t@ == text@)
                    }
                },
                None => {
                    &&& final(self).documents@.len() == old(self).documents@.len() + 1
                    &&& forall|j: int| 0 <= j < old(self).documents@.len() ==> #[trigger] final(self).documents@[j] == old(self).documents@[j]
                    &&& final(self).documents@.last().path@ == path@
                    &&& final(self).documents@.last().version == 1
                    &&& final(self).documents@.last().text@ == text@
                    &&& if is_ready(old(self).status) {
                        (r matches Some(Outgoing::DidOpen { uri: u, version: v, text: t })
                            && u@ == uri_spec(path@) && v == 1 && t@ == text@)
                    } else {
                        r is None
                    }
                },
            },
    {
        let ready = match &self.status {
            Status::Ready => true,
            _ => false,
        };
        let key = path.to_owned();
        match self.find_document(path) {
            Some(k) => {
                if self.documents[k].text == text.to_owned() {
                    return None;
                }
                let ghost before = self.documents@;
                self.documents[k].text = text.to_owned();
                if !ready {
                    assert forall|i: int, j: int|
                        0 <= i < j < self.documents@.len() implies path_key((#[trigger] self.documents@[i]).path@) != path_key((#[trigger] self.documents@[j]).path@) by {
                        assert(before[i].path == self.documents@[i].path);
                        assert(before[j].path == self.documents@[j].path);
                    }
                    return None;
                }
                let version = self.documents[k].version + 1;
                self.documents[k].version = version;
                assert forall|i: int, j: int|
                    0 <= i < j < self.documents@.len() implies path_key((#[trigger] self.documents@[i]).path@) != path_key((#[trigger] self.documents@[j]).path@) by {
                    assert(before[i].path == self.documents@[i].path);
                    assert(before[j].path == self.documents@[j].path);
                }
                Some(Outgoing::DidChange { uri: uri(path), version, text: text.to_owned() })
            },
            None => {
                let ghost before = self.documents@;
                self.documents.push(Document { path: key, version: 1, text: text.to_owned() });
                assert forall|i: int, j: int|
                    0 <= i < j < self.documents@.len() implies path_key((#[trigger] self.documents@[i]).path@) != path_key((#[trigger] self.documents@[j]).path@) by {
                    if j == before.len() {
                        assert(before[i] == self.documents@[i]);
                    } else {
                        assert(before[i] == self.documents@[i]);
                        assert(before[j] == self.documents@[j]);
                    }
                }
                if !ready {
                    return None;
                }
                Some(Outgoing::DidOpen { uri: uri(path), version: 1, text: text.to_owned() })
            },
        }
    }

    /// Tell the server the editor is done with a file, and forget the file
    /// and any hover asked or answered about it.
    pub fn close(&mut self, path: &str) -> (r: Option<Outgoing>)
        requires
            old(self).wf(),
        ensures
            final(self).wf(),
            final(self).root == old(self).root,
            final(self).status == old(self).status,
            final(self).next_id == old(self).next_id,
            final(self).problems == old(self).problems,
            match doc_index(old(self).documents@, path_key(path@)) {
                None => {
                    &&& final(self).documents == old(self).documents
                    &&& final(self).asked == old(self).asked
                    &&& final(self).answer == old(self).answer
                    &&& r is None
                },
                Some(k) => {
                    &&& final(self).documents@ == old(self).documents@.remove(k)
                    &&& final(self).asked == (match old(self).asked {
                        Some((p, at, id)) => if path_key(p@) == path_key(path@) {
                            None
                        } else {
                            Some((p, at, id))
                        },
                        None => None,
                    })
                    &&& final(self).answer == (match old(self).answer {
                        Some((p, at, t)) => if path_key(p@) == path_key(path@) {
                            None
                        } else {
                            Some((p, at, t))
                        },
                        None => None,
                    })
                    &&& (r matches Some(Outgoing::DidClose { uri: u }) && u@ == uri_spec(path@))
                },
            },
    {
        let key = path.to_owned();
        let k = match self.find_document(path) {
            Some(k) => k,
            None => {
                return None;
            },
        };
        let ghost before = self.documents@;
        self.documents.remove(k);
        assert forall|i: int, j: int|
            0 <= i < j < self.documents@.len() implies path_key((#[trigger] self.documents@[i]).path@) != path_key((#[trigger] self.documents@[j]).path@) by {
            let bi = if i < k {
                i
            } else {
                i + 1
            };
            let bj = if j < k {
                j
            } else {
                j + 1
            };
            assert(self.documents@[i] == before[bi]);
            assert(self.documents@[j] == before[bj]);
        }
        let forget_asked = match &self.asked {
            Some((p, _, _)) => same_path(p.as_str(), path),
            None => false,
        };
        if forget_asked {
            self.asked = None;
        }
        let forget_answer = match &self.answer {
            Some((p, _, _)) => same_path(p.as_str(), path),
            None => false,
        };
        if forget_answer {
            self.answer = None;
        }
        Some(Outgoing::DidClose { uri: uri(path) })
    }

    /// Tell the server a file was written, so it reads it again.
    pub fn saved(&self, path: &str, text: &str) -> (r: Option<Outgoing>)
        requires
            self.wf(),
        ensures
            match doc_index(self.documents@, path_key(path@)) {
                None => r is None,
                Some(_) => (r matches Some(Outgoing::DidSave { uri: u, text: t }) && u@ == uri_spec(
                    path@,
                ) && t@ == text@),
            },
    {
        let key = path.to_owned();
        match self.find_document(path) {
            None => None,
            Some(_) => Some(Outgoing::DidSave { uri: uri(path), text: text.to_owned() }),
        }
    }

    /// What the server has said about a file.
    pub fn problems(&self, path: &str) -> (r: &[Problem])
        requires
            self.wf(),
        ensures
            match problems_index(self.problems@, path_key(path@)) {
                Some(k) => r@ == self.problems@[k].1@,
                None => r@.len() == 0,
            },
    {
        let mut k: usize = 0;
        while k < self.problems.len()
            invariant
                self.wf(),
                k <= self.problems@.len(),
                forall|j: int| 0 <= j < k ==> path_key((#[trigger] self.problems@[j]).0@) != path_key(path@),
            decreases self.problems@.len() - k,
        {
            if same_path(self.problems[k].0.as_str(), path) {
                proof {
                    let c = choose|c: int|
                        0 <= c < self.problems@.len() && path_key((#[trigger] self.problems@[c]).0@) == path_key(path@);
                    if c > k {
                        assert(path_key(self.problems@[k as int].0@) != path_key(self.problems@[c].0@));
                    }
                }
                return self.problems[k].1.as_slice();
            }
            k += 1;
        }
        &[]
    }

    /// Ask what is under a position, unless that has already been asked or
    /// answered; only a server that is ready is asked.
    pub fn ask_hover(&mut self, path: &str, at: Position) -> (r: Option<Outgoing>)
        requires
            old(self).wf(),
            old(self).next_id < i64::MAX,
        ensures
            final(self).wf(),
            final(self).root == old(self).root,
            final(self).status == old(self).status,
            final(self).documents == old(self).documents,
            final(self).problems == old(self).problems,
            final(self).answer == old(self).answer,
            ({
                let asked_already = old(self).asked matches Some((p, pos, _)) && path_key(p@) == path_key(path@) && pos == at;
                let answered_already = old(self).answer matches Some((p, pos, _)) && path_key(p@) == path_key(path@) && pos == at;
                if !is_ready(old(self).status) || asked_already || answered_already {
                    &&& r is None
                    &&& final(self).asked == old(self).asked
                    &&& final(self).next_id == old(self).next_id
                } else {
                    &&& final(self).next_id == old(self).next_id + 1
                    &&& (final(self).asked matches Some((p, pos, id)) && p@ == path@ && pos == at && id
                        == old(self).next_id)
                    &&& (r matches Some(Outgoing::Hover { id, uri: u, at: pos }) && id == old(self).next_id
                        && u@ == uri_spec(path@) && pos == at)
                }
            }),
    {
        let ready = match &self.status {
            Status::Ready => true,
            _ => false,
        };
        if !ready {
            return None;
        }
        let key = path.to_owned();
        let asked_already = match &self.asked {
            Some((p, pos, _)) => same_path(p.as_str(), path) && *pos == at,
            None => false,
        };
        let answered_already = match &self.answer {
            Some((p, pos, _)) => same_path(p.as_str(), path) && *pos == at,
            None => false,
        };
        if asked_already || answered_already {
            return None;
        }
        let id = self.next_id;
        self.next_id = id + 1;
        self.asked = Some((key, at, id));
        Some(Outgoing::Hover { id, uri: uri(path), at })
    }

    /// What the server said is at a position, when it has said anything.
    pub fn hover(&self, path: &str, at: Position) -> (r: Option<&str>)
        ensures
            match self.answer {
                Some((p, pos, t)) if path_key(p@) == path_key(path@) && pos == at => r matches Some(s) && s@ == t@,
                _ => r is None,
            },
    {
        let key = path.to_owned();
        match &self.answer {
            Some((p, pos, t)) => {
                if same_path(p.as_str(), path) && *pos == at {
                    Some(t.as_str())
                } else {
                    None
                }
            },
            None => None,
        }
    }

    /// Take in the answer to request `id`. The answer to `initialize` makes
    /// the server ready: it is told so, then sent every file opened while it
    /// was starting. An answer to the hover being waited on is kept, in
    /// words, where it says anything; `contents` is what the answer holds.
    pub fn response(&mut self, id: i64, contents: &str) -> (r: Vec<Outgoing>)
        requires
            old(self).wf(),
        ensures
            final(self).wf(),
            final(self).root == old(self).root,
            final(self).next_id == old(self).next_id,
            final(self).problems == old(self).problems,
            if id == 1 {
                &&& final(self).status is Ready
                &&& final(self).asked == old(self).asked
                &&& final(self).answer == old(self).answer
                &&& final(self).documents@.len() == old(self).documents@.len()
                &&& forall|k: int| 0 <= k < old(self).documents@.len() ==> {
                    &&& (#[trigger] final(self).documents@[k]).path@ == old(self).documents@[k].path@
                    &&& final(self).documents@[k].version == 1
                    &&& final(self).documents@[k].text@ == old(self).documents@[k].text@
                }
                &&& r@.len() == old(self).documents@.len() + 1
                &&& r@[0] is Initialized
                &&& forall|k: int| 0 <= k < old(self).documents@.len() ==> (#[trigger] r@[k + 1] matches Outgoing::DidOpen { uri: u, version: v, text: t }
                    && u@ == uri_spec(old(self).documents@[k].path@) && v == 1
                    && t@ == old(self).documents@[k].text@)
            } else {
                &&& final(self).status == old(self).status
                &&& final(self).documents == old(self).documents
                &&& r@.len() == 0
                &&& match old(self).asked {
                    Some((p, at, asked)) if asked == id => {
                        &&& final(self).asked is None
                        &&& if plain_spec(contents@).len() > 0 {
                            final(self).answer matches Some((q, pos, t)) && q == p && pos == at && t@ == plain_spec(contents@)
                        } else {
                            final(self).answer is None
                        }
                    },
                    _ => final(self).asked == old(self).asked && final(self).answer == old(self).answer,
                }
            },
    {
        let mut out: Vec<Outgoing> = Vec::new();
        if id == 1 {
            self.status = Status::Ready;
            out.push(Outgoing::Initialized);
            let mut opened: Vec<Document> = Vec::new();
            std::mem::swap(&mut opened, &mut self.documents);
            let ghost all = opened@;
            assert forall|i: int, j: int| 0 <= i < j < all.len() implies path_key((#[trigger] all[i]).path@) != path_key((#[trigger] all[j]).path@) by {}
            let mut k: usize = 0;
            while k < opened.len()
                invariant
                    self.wf(),
                    self.status is Ready,
                    self.root == old(self).root,
                    self.next_id == old(self).next_id,
                    self.problems == old(self).problems,
                    self.asked == old(self).asked,
                    self.answer == old(self).answer,
                    all == old(self).documents@,
                    opened@ == all,
                    forall|i: int, j: int| 0 <= i < j < all.len() ==> path_key((#[trigger] all[i]).path@) != path_key((#[trigger] all[j]).path@),
                    k <= all.len(),
                    self.documents@.len() == k,
                    forall|i: int| 0 <= i < k ==> {
                        &&& (#[trigger] self.documents@[i]).path@ == all[i].path@
                        &&& self.documents@[i].version == 1
                        &&& self.documents@[i].text@ == all[i].text@
                    },
                    out@.len() == k + 1,
                    out@[0] is Initialized,
                    forall|i: int| 0 <= i < k ==> (#[trigger] out@[i + 1] matches Outgoing::DidOpen { uri: u, version: v, text: t }
                        && u@ == uri_spec(all[i].path@) && v == 1 && t@ == all[i].text@),
                decreases all.len() - k,
            {
                proof {
                    if doc_index(self.documents@, path_key(all[k as int].path@)) is Some {
                        let c = choose|c: int| 0 <= c < self.documents@.len() && path_key((#[trigger] self.documents@[c]).path@) == path_key(all[k as int].path@);
                        assert(path_key(all[c].path@) == path_key(all[k as int].path@));
                    }
                }
                let sent = self.document(opened[k].path.as_str(), opened[k].text.as_str());
                match sent {
                    Some(m) => {
                        out.push(m);
                    },
                    None => {},
                }
                k += 1;
            }
            return out;
        }
        let (path, at, asked) = match &self.asked {
            Some((p, pos, a)) => (p.clone(), *pos, *a),
            None => {
                return out;
            },
        };
        if asked != id {
            return out;
        }
        self.asked = None;
        let text = plain_text(contents);
        if text.as_str().as_bytes().len() > 0 {
            self.answer = Some((path, at, text));
        } else {
            self.answer = None;
        }
        out
    }

    /// Take in a notification. Only the problems the server publishes for a
    /// file are kept, in place of those it published before.
    pub fn notification(&mut self, method: &str, uri: Option<&str>, problems: Vec<Problem>)
        requires
            old(self).wf(),
        ensures
            final(self).wf(),
            final(self).root == old(self).root,
            final(self).status == old(self).status,
            final(self).next_id == old(self).next_id,
            final(self).documents == old(self).documents,
            final(self).asked == old(self).asked,
            final(self).answer == old(self).answer,
            ({
                let applies = method@ == "textDocument/publishDiagnostics"@ && uri is Some
                    && path_spec(uri.unwrap()@) is Some;
                if applies {
                    let key = path_key(path_spec(uri.unwrap()@).unwrap());
                    &&& problems_index(final(self).problems@, key) matches Some(k)
                        && final(self).problems@[k].1@ == problems@
                    &&& forall|q: Text| q != key ==> problems_index(final(self).problems@, q) == problems_index(old(self).problems@, q)
                        || (problems_index(final(self).problems@, q) matches Some(a) && problems_index(old(self).problems@, q) matches Some(b) && final(self).problems@[a] == old(self).problems@[b])
                } else {
                    final(self).problems == old(self).problems
                }
            }),
    {
        proof {
            reveal_strlit("textDocument/publishDiagnostics");
        }
        let m = crate::text::chars_of(method);
        if !crate::text::same_as(m.as_slice(), "textDocument/publishDiagnostics") {
            return;
        }
        let u = match uri {
            Some(u) => u,
            None => {
                return;
            },
        };
        let path = match path_of(u) {
            Some(p) => p,
            None => {
                return;
            },
        };
        let ghost pv = path_key(path@);
        let ghost before = self.problems@;
        let mut k: usize = 0;
        while k < self.problems.len()
            invariant
                self.wf(),
                self.problems@ == before,
                before == old(self).problems@,
                self.root == old(self).root,
                self.status == old(self).status,
                self.next_id == old(self).next_id,
                self.documents == old(self).documents,
                self.asked == old(self).asked,
                self.answer == old(self).answer,
                method@ == "textDocument/publishDiagnostics"@,
                uri == Some(u),
                path_spec(u@) == Some(path@),
                path_key(path@) == pv,
                k <= before.len(),
                forall|j: int| 0 <= j < k ==> path_key((#[trigger] before[j]).0@) != pv,
            decreases before.len() - k,
        {
            if same_path(self.problems[k].0.as_str(), path.as_str()) {
                let ghost old_entry = before[k as int];
                self.problems.set(k, (path, problems));
                proof {
                    assert(self.problems@ == before.update(k as int, self.problems@[k as int]));
                    assert forall|i: int, j: int| 0 <= i < j < self.problems@.len() implies path_key((#[trigger] self.problems@[i]).0@) != path_key((#[trigger] self.problems@[j]).0@) by {
                        if i != k && j != k {
                            assert(self.problems@[i] == before[i]);
                            assert(self.problems@[j] == before[j]);
                        } else if i == k {
                            assert(path_key(before[j].0@) != path_key(before[k as int].0@));
                        } else {
                            assert(path_key(before[i].0@) != path_key(before[k as int].0@));
                        }
                    }
                    assert(path_key(self.problems@[k as int].0@) == pv);
                    let c = choose|c: int| 0 <= c < self.problems@.len() && path_key((#[trigger] self.problems@[c]).0@) == pv;
                    assert(c == k);
                    assert forall|q: Text| q != pv implies problems_index(self.problems@, q) == problems_index(before, q)
                        || (problems_index(self.problems@, q) matches Some(a) && problems_index(before, q) matches Some(b) && self.problems@[a] == before[b]) by {
                        if exists|c2: int| 0 <= c2 < before.len() && path_key((#[trigger] before[c2]).0@) == q {
                            let c2 = choose|c2: int| 0 <= c2 < before.len() && path_key((#[trigger] before[c2]).0@) == q;
                            assert(c2 != k);
                            assert(path_key(self.problems@[c2].0@) == q);
                            let a = choose|a: int| 0 <= a < self.problems@.len() && path_key((#[trigger] self.problems@[a]).0@) == q;
                            assert(a != k);
                            if a != c2 {
                                assert(path_key(before[a].0@) == q);
                            }
                        } else {
                            if exists|a: int| 0 <= a < self.problems@.len() && path_key((#[trigger] self.problems@[a]).0@) == q {
                                let a = choose|a: int| 0 <= a < self.problems@.len() && path_key((#[trigger] self.problems@[a]).0@) == q;
                                assert(path_key(before[a].0@) == q);
                            }
                        }
                    }
                }
                return;
            }
            k += 1;
        }
        self.problems.push((path, problems));
        proof {
            assert forall|i: int, j: int| 0 <= i < j < self.problems@.len() implies path_key((#[trigger] self.problems@[i]).0@) != path_key((#[trigger] self.problems@[j]).0@) by {
                assert(self.problems@[i] == before[i]);
                if j < before.len() {
                    assert(self.problems@[j] == before[j]);
                }
            }
            let last = before.len() as int;
            assert(path_key(self.problems@[last].0@) == pv);
            let c = choose|c: int| 0 <= c < self.problems@.len() && path_key((#[trigger] self.problems@[c]).0@) == pv;
            assert(c == last);
            assert forall|q: Text| q != pv implies problems_index(self.problems@, q) == problems_index(before, q)
                || (problems_index(self.problems@, q) matches Some(a) && problems_index(before, q) matches Some(b) && self.problems@[a] == before[b]) by {
                if exists|c2: int| 0 <= c2 < before.len() && path_key((#[trigger] before[c2]).0@) == q {
                    let c2 = choose|c2: int| 0 <= c2 < before.len() && path_key((#[trigger] before[c2]).0@) == q;
                    assert(path_key(self.problems@[c2].0@) == q);
                    let a = choose|a: int| 0 <= a < self.problems@.len() && path_key((#[trigger] self.problems@[a]).0@) == q;
                    assert(a != last);
                    assert(path_key(before[a].0@) == q);
                } else {
                    if exists|a: int| 0 <= a < self.problems@.len() && path_key((#[trigger] self.problems@[a]).0@) == q {
                        let a = choose|a: int| 0 <= a < self.problems@.len() && path_key((#[trigger] self.problems@[a]).0@) == q;
                        assert(a != last);
                        assert(path_key(before[a].0@) == q);
                    }
                }
            }
        }
    }
}

// ----------------------------------------------------------------- incoming

/// A message from the server, as far as this client reads it.
#[derive(Debug)]
pub enum Incoming {
    /// A request of the server's, under its id.
    Request { id: JsonValue },
    /// A notification: its method, the file it names and the problems it
    /// publishes.
    Notification { method: String, uri: Option<String>, problems: Vec<Problem> },
    /// The answer to request `id` (-1 where the id is not a number), and the
    /// words it holds.
    Response { id: i64, text: String },
    /// Anything else.
    Other,
}

/// A position as the protocol writes it, each part read as `Problem::read`
/// reads it.
pub open spec fn position_read(at: Option<JsonValue>) -> Position {
    Position {
        line: position_part(u64_spec(field(at, "line"@))),
        character: position_part(u64_spec(field(at, "character"@))),
    }
}

/// `p` is the problem that the diagnostic `v` writes down.
pub open spec fn problem_read(v: JsonValue, p: Problem) -> bool {
    let range = field(Some(v), "range"@);
    &&& p.severity == severity_read(u64_spec(field(Some(v), "severity"@)))
    &&& p.message@ == str_or_empty(field(Some(v), "message"@))
    &&& p.start == position_read(field(range, "start"@))
    &&& p.end == position_read(field(range, "end"@))
}

/// `ps` are the problems a list of diagnostics writes down, in order; there
/// are none where there is no list.
pub open spec fn problems_read(v: Option<JsonValue>, ps: Seq<Problem>) -> bool {
    match v {
        Some(JsonValue::Array(list)) => ps.len() == list@.len() && forall|i: int|
            0 <= i < ps.len() ==> problem_read(#[trigger] list@[i], ps[i]),
        _ => ps.len() == 0,
    }
}

/// The words of an answer: `result.contents.value`, or else
/// `result.contents`, where it is text; otherwise nothing.
pub open spec fn answer_text(v: JsonValue) -> Seq<char> {
    let contents = field(field(Some(v), "result"@), "contents"@);
    match str_spec(field(contents, "value"@)) {
        Some(t) => t,
        None => str_or_empty(contents),
    }
}

/// What message `v` is: a request where it has a method and an id, a
/// notification where it has a method alone, a response where it has an id
/// alone, and nothing this client reads otherwise.
pub open spec fn incoming_spec(v: JsonValue, r: Incoming) -> bool {
    let method = field(Some(v), "method"@);
    let id = field(Some(v), "id"@);
    let params = field(Some(v), "params"@);
    match (method, id) {
        (Some(_), Some(i)) => r == Incoming::Request { id: i },
        (Some(m), None) => r matches Incoming::Notification { method, uri, problems }
            && method@ == str_or_empty(Some(m))
            && (match uri {
                Some(u) => str_spec(field(params, "uri"@)) == Some(u@),
                None => str_spec(field(params, "uri"@)) is None,
            })
            && problems_read(field(params, "diagnostics"@), problems@),
        (None, Some(i)) => r matches Incoming::Response { id, text }
            && id == (match i64_spec(Some(i)) {
                Some(n) => n,
                None => -1i64,
            })
            && text@ == answer_text(v),
        (None, None) => r is Other,
    }
}

fn position_parts(at: Option<&JsonValue>) -> (r: (Option<u64>, Option<u64>))
    ensures
        r.0 == u64_spec(field(deref(at), "line"@)),
        r.1 == u64_spec(field(deref(at), "character"@)),
{
    (u64_of(get(at, "line")), u64_of(get(at, "character")))
}

/// The problem a diagnostic writes down.
pub fn problem_of(v: &JsonValue) -> (r: Problem)
    ensures
        problem_read(*v, r),
{
    let range = get(Some(v), "range");
    let message = str_of(get(Some(v), "message"));
    Problem::read(
        u64_of(get(Some(v), "severity")),
        message,
        position_parts(get(range, "start")),
        position_parts(get(range, "end")),
    )
}

/// The problems a list of diagnostics writes down.
pub fn problems_of(v: Option<&JsonValue>) -> (r: Vec<Problem>)
    ensures
        problems_read(deref(v), r@),
{
    let list = match v {
        Some(JsonValue::Array(list)) => list,
        _ => {
            return Vec::new();
        },
    };
    let mut out: Vec<Problem> = Vec::new();
    let mut k: usize = 0;
    while k < list.len()
        invariant
            v == Some(&JsonValue::Array(*list)),
            k <= list@.len(),
            out@.len() == k,
            forall|i: int| 0 <= i < k ==> problem_read(#[trigger] list@[i], out@[i]),
        decreases list@.len() - k,
    {
        out.push(problem_of(&list[k]));
        k += 1;
    }
    out
}

/// The words of an answer.
pub fn answer_of(v: &JsonValue) -> (r: String)
    ensures
        r@ == answer_text(*v),
{
    let contents = get(get(Some(v), "result"), "contents");
    match str_of(get(contents, "value")) {
        Some(t) => t,
        None => match str_of(contents) {
            Some(t) => t,
            None => String::new(),
        },
    }
}

fn index_of(es: &Vec<(String, JsonValue)>, key: &str) -> (r: Option<usize>)
    ensures
        match r {
            Some(k) => k < es@.len() && crate::json::entry_of(es@, key@) == Some(es@[k as int].1),
            None => crate::json::entry_of(es@, key@) is None,
        },
{
    let mut k: usize = 0;
    assert(es@.skip(0) =~= es@);
    while k < es.len()
        invariant
            k <= es@.len(),
            crate::json::entry_of(es@, key@) == crate::json::entry_of(es@.skip(k as int), key@),
        decreases es@.len() - k,
    {
        let name = crate::text::chars_of(es[k].0.as_str());
        assert(es@.skip(k as int)[0] == es@[k as int]);
        assert(es@.skip(k as int).drop_first() =~= es@.skip(k + 1));
        if crate::text::same_as(name.as_slice(), key) {
            return Some(k);
        }
        k += 1;
    }
    assert(es@.skip(k as int) =~= Seq::<(String, JsonValue)>::empty());
    None
}

/// What message a parsed value is.
pub fn incoming(v: JsonValue) -> (r: Incoming)
    ensures
        incoming_spec(v, r),
{
    let has_method = get(Some(&v), "method").is_some();
    let has_id = get(Some(&v), "id").is_some();
    if has_method && has_id {
        return match v {
            JsonValue::Object(mut es) => match index_of(&es, "id") {
                Some(k) => {
                    let (_, id) = es.remove(k);
                    Incoming::Request { id }
                },
                None => Incoming::Other,
            },
            _ => Incoming::Other,
        };
    }
    if has_method {
        let method = match str_of(get(Some(&v), "method")) {
            Some(m) => m,
            None => String::new(),
        };
        let params = get(Some(&v), "params");
        return Incoming::Notification {
            method,
            uri: str_of(get(params, "uri")),
            problems: problems_of(get(params, "diagnostics")),
        };
    }
    if has_id {
        let id = match i64_of(get(Some(&v), "id")) {
            Some(n) => n,
            None => -1,
        };
        return Incoming::Response { id, text: answer_of(&v) };
    }
    Incoming::Other
}

/// Read a message's body: what message it is, or `None` where it is not
/// JSON.
pub fn read_message(body: &[u8]) -> (r: Option<Incoming>)
    ensures
        match r {
            Some(m) => json_of(body@) matches Some(v) && incoming_spec(v, m),
            None => json_of(body@) is None,
        },
{
    match parse_json(body) {
        Some(v) => Some(incoming(v)),
        None => None,
    }
}

impl Session {
    /// The answer to a request of the server's. The only one this client is
    /// asked is to register a capability, and an answer of nothing is an
    /// answer.
    pub fn request(&self, id: JsonValue) -> (r: Outgoing)
        ensures
            r == (Outgoing::Reply { id }),
    {
        Outgoing::Reply { id }
    }
}

// ------------------------------------------------------------------ framing

/// What one line of a message's header block says.
#[derive(Debug, Clone, Copy, PartialEq, Eq, Structural)]
pub enum Header {
    /// The blank line that ends the block.
    End,
    /// The body's length, where it reads as a number.
    Length(Option<usize>),
    /// A header this client does not read.
    Other,
}

/// `t` without the line breaks at its end.
pub open spec fn without_line_end(t: Text) -> Text
    decreases t.len(),
{
    if t.len() > 0 && (t.last() == '\r' || t.last() == '\n') {
        without_line_end(t.drop_last())
    } else {
        t
    }
}

pub open spec fn digits_value(ds: Text) -> int
    decreases ds.len(),
{
    if ds.len() == 0 {
        0
    } else {
        digits_value(ds.drop_last()) * 10 + (ds.last() as int - '0' as int)
    }
}

pub open spec fn all_digits(ds: Text) -> bool {
    forall|i: int| 0 <= i < ds.len() ==> '0' <= #[trigger] ds[i] <= '9'
}

/// The number `t` writes in decimal, with a `+` in front or none, where it
/// fits in a `usize`.
pub open spec fn number_spec(t: Text) -> Option<nat> {
    let ds = if t.len() > 0 && t[0] == '+' {
        t.skip(1)
    } else {
        t
    };
    if ds.len() > 0 && all_digits(ds) && digits_value(ds) <= usize::MAX {
        Some(digits_value(ds) as nat)
    } else {
        None
    }
}

pub open spec fn header_spec(line: Text) -> Header {
    let t = without_line_end(line);
    let key = "Content-Length:"@;
    if t.len() == 0 {
        Header::End
    } else if t.len() >= key.len() && t.take(key.len() as int) == key {
        Header::Length(
            match number_spec(crate::text::trim(t.skip(key.len() as int))) {
                Some(n) => Some(n as usize),
                None => None,
            },
        )
    } else {
        Header::Other
    }
}

proof fn lemma_digits_value_nonneg(ds: Text)
    requires
        all_digits(ds),
    ensures
        digits_value(ds) >= 0,
    decreases ds.len(),
{
    if ds.len() > 0 {
        assert(all_digits(ds.drop_last())) by {
            assert forall|i: int| 0 <= i < ds.drop_last().len() implies '0' <= #[trigger] ds.drop_last()[i] <= '9' by {
                assert(ds.drop_last()[i] == ds[i]);
            }
        }
        lemma_digits_value_nonneg(ds.drop_last());
    }
}

/// `number_spec`, on characters.
fn read_number(t: &[char]) -> (r: Option<usize>)
    ensures
        match r {
            Some(n) => number_spec(t@) == Some(n as nat),
            None => number_spec(t@) is None,
        },
{
    let start: usize = if t.len() > 0 && t[0] == '+' {
        1
    } else {
        0
    };
    let ghost ds = if t@.len() > 0 && t@[0] == '+' {
        t@.skip(1)
    } else {
        t@
    };
    assert(ds =~= t@.skip(start as int));
    if start >= t.len() {
        return None;
    }
    let mut value: usize = 0;
    let mut k: usize = start;
    while k < t.len()
        invariant
            start <= k <= t@.len(),
            ds =~= t@.skip(start as int),
            ds == (if t@.len() > 0 && t@[0] == '+' {
                t@.skip(1)
            } else {
                t@
            }),
            all_digits(t@.subrange(start as int, k as int)),
            value == digits_value(t@.subrange(start as int, k as int)),
        decreases t@.len() - k,
    {
        let c = t[k];
        if !('0' <= c && c <= '9') {
            proof {
                assert(ds[k - start] == c);
            }
            return None;
        }
        let d = (c as u32 - '0' as u32) as usize;
        assert(t@.subrange(start as int, k + 1).drop_last() =~= t@.subrange(start as int, k as int));
        assert(all_digits(t@.subrange(start as int, k + 1))) by {
            assert forall|i: int| 0 <= i < t@.subrange(start as int, k + 1).len() implies '0' <= #[trigger] t@.subrange(start as int, k + 1)[i] <= '9' by {
                if i < k - start {
                    assert(t@.subrange(start as int, k + 1)[i] == t@.subrange(start as int, k as int)[i]);
                }
            }
        }
        if value > (usize::MAX - d) / 10 {
            proof {
                assert(digits_value(t@.subrange(start as int, k + 1)) == value * 10 + d);
                assert(value * 10 + d > usize::MAX) by (nonlinear_arith)
                    requires
                        value > (usize::MAX - d) / 10,
                        d <= 9,
                ;
                lemma_digits_grow(t@, start as int, k + 1);
                assert(t@.subrange(start as int, t@.len() as int) =~= ds);
            }
            return None;
        }
        proof {
            assert(value * 10 + d <= usize::MAX) by (nonlinear_arith)
                requires
                    value <= (usize::MAX - d) / 10,
                    d <= 9,
            ;
        }
        value = value * 10 + d;
        k += 1;
    }
    assert(t@.subrange(start as int, t@.len() as int) =~= ds);
    Some(value)
}

/// Once the digits read so far are too many, more cannot bring them back.
proof fn lemma_digits_grow(t: Text, start: int, k: int)
    requires
        0 <= start < k <= t.len(),
        all_digits(t.subrange(start, k)),
        digits_value(t.subrange(start, k)) > usize::MAX,
    ensures
        forall|e: int| k <= e <= t.len() && all_digits(t.subrange(start, e)) ==> digits_value(t.subrange(start, e)) > usize::MAX,
    decreases t.len() - k,
{
    assert forall|e: int| k <= e <= t.len() && all_digits(t.subrange(start, e)) implies digits_value(t.subrange(start, e)) > usize::MAX by {
        lemma_digits_at_least(t, start, k, e);
    }
}

proof fn lemma_digits_at_least(t: Text, start: int, k: int, e: int)
    requires
        0 <= start < k <= e <= t.len(),
        all_digits(t.subrange(start, e)),
    ensures
        digits_value(t.subrange(start, e)) >= digits_value(t.subrange(start, k)),
    decreases e - k,
{
    if e > k {
        let s = t.subrange(start, e);
        assert(s.drop_last() =~= t.subrange(start, e - 1));
        assert(all_digits(t.subrange(start, e - 1))) by {
            assert forall|i: int| 0 <= i < t.subrange(start, e - 1).len() implies '0' <= #[trigger] t.subrange(start, e - 1)[i] <= '9' by {
                assert(t.subrange(start, e - 1)[i] == s[i]);
            }
        }
        lemma_digits_at_least(t, start, k, e - 1);
        lemma_digits_value_nonneg(t.subrange(start, e - 1));
        assert('0' <= s[s.len() - 1] <= '9');
    }
}

/// What one line of a message's header block says: the blank line that ends
/// the block, the body's length, or another header.
pub fn header_line(line: &str) -> (r: Header)
    ensures
        r == header_spec(line@),
{
    let cs = crate::text::chars_of(line);
    let mut end = cs.len();
    assert(cs@.take(end as int) =~= cs@);
    while end > 0 && (cs[end - 1] == '\r' || cs[end - 1] == '\n')
        invariant
            end <= cs@.len(),
            without_line_end(cs@) == without_line_end(cs@.take(end as int)),
        decreases end,
    {
        assert(cs@.take(end as int).drop_last() =~= cs@.take(end - 1));
        end -= 1;
    }
    let t = crate::text::slice_of(cs.as_slice(), 0, end);
    assert(t@ =~= cs@.take(end as int));
    assert(without_line_end(t@) == t@);
    if t.len() == 0 {
        return Header::End;
    }
    let key = crate::text::chars_of("Content-Length:");
    proof {
        reveal_strlit("Content-Length:");
    }
    if t.len() >= key.len() {
        let head = crate::text::slice_of(t.as_slice(), 0, key.len());
        if crate::text::same(head.as_slice(), key.as_slice()) {
            assert(head@ =~= t@.take(key@.len() as int));
            let rest = crate::text::slice_of(t.as_slice(), key.len(), t.len());
            assert(rest@ =~= t@.skip(key@.len() as int));
            let value = crate::text::trimmed(rest.as_slice());
            return Header::Length(read_number(value.as_slice()));
        }
        assert(head@ =~= t@.take(key@.len() as int));
    }
    Header::Other
}

/// A message's body framed for the server: its length in bytes, a blank
/// line, then the body.
pub open spec fn frame_spec(body: Text) -> Text {
    "Content-Length: "@ + crate::application::decimal(crate::text::utf8_len(body)) + "\r\n\r\n"@ + body
}

pub fn frame(body: &str) -> (r: String)
    ensures
        r@ == frame_spec(body@),
{
    let n = body.as_bytes().len();
    proof {
        reveal_strlit("Content-Length: ");
        reveal_strlit("\r\n\r\n");
    }
    let mut out = crate::text::chars_of("Content-Length: ");
    crate::application::push_decimal(&mut out, n);
    out.push('\r');
    out.push('\n');
    out.push('\r');
    out.push('\n');
    let b = crate::text::chars_of(body);
    let ghost start = out@;
    let mut k: usize = 0;
    while k < b.len()
        invariant
            k <= b@.len(),
            out@ == start + b@.take(k as int),
        decreases b@.len() - k,
    {
        out.push(b[k]);
        assert(b@.take(k + 1) =~= b@.take(k as int).push(b@[k as int]));
        k += 1;
    }
    assert(b@.take(b@.len() as int) =~= b@);
    assert(out@ =~= frame_spec(body@));
    string_of(out.as_slice())
}

} // verus!
