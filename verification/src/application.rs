//! What the application tells the user: the message in the status bar after
//! a folder is opened or a file saved, and where its language server comes
//! from.

use vstd::prelude::*;

use crate::loader::LoadError;
use crate::model::Specbase;
use crate::text::{string_of, Text};

verus! {

#[derive(Debug, Clone, Copy, PartialEq, Eq, Structural)]
pub enum MessageKind {
    Info,
    Error,
}

#[derive(Debug, Clone)]
pub struct Message {
    pub text: String,
    pub kind: MessageKind,
}

/// Where the language server comes from: the one the language ships, or
/// none at all.
#[derive(Debug, Clone, Copy, PartialEq, Eq, Structural)]
pub enum ServerSource {
    Piton,
    NoServer,
}

impl Default for ServerSource {
    fn default() -> (r: Self)
        ensures
            r == ServerSource::Piton,
    {
        ServerSource::Piton
    }
}

/// The decimal digits of `n`.
pub open spec fn decimal(n: nat) -> Text
    decreases n,
{
    if n < 10 {
        seq![digit(n)]
    } else {
        decimal(n / 10).push(digit(n % 10))
    }
}

pub open spec fn digit(d: nat) -> char {
    if d == 0 {
        '0'
    } else if d == 1 {
        '1'
    } else if d == 2 {
        '2'
    } else if d == 3 {
        '3'
    } else if d == 4 {
        '4'
    } else if d == 5 {
        '5'
    } else if d == 6 {
        '6'
    } else if d == 7 {
        '7'
    } else if d == 8 {
        '8'
    } else {
        '9'
    }
}

fn digit_char(d: usize) -> (c: char)
    requires
        d < 10,
    ensures
        c == digit(d as nat),
{
    if d == 0 {
        '0'
    } else if d == 1 {
        '1'
    } else if d == 2 {
        '2'
    } else if d == 3 {
        '3'
    } else if d == 4 {
        '4'
    } else if d == 5 {
        '5'
    } else if d == 6 {
        '6'
    } else if d == 7 {
        '7'
    } else if d == 8 {
        '8'
    } else {
        '9'
    }
}

/// Appends the decimal digits of `n` to `out`.
pub fn push_decimal(out: &mut Vec<char>, n: usize)
    ensures
        final(out)@ == old(out)@ + decimal(n as nat),
    decreases n,
{
    if n < 10 {
        out.push(digit_char(n));
        assert(decimal(n as nat) =~= seq![digit(n as nat)]);
    } else {
        push_decimal(out, n / 10);
        out.push(digit_char(n % 10));
    }
}

pub(crate) fn push_text(out: &mut Vec<char>, s: &str)
    ensures
        final(out)@ == old(out)@ + s@,
{
    let cs = crate::text::chars_of(s);
    let ghost start = out@;
    let mut k: usize = 0;
    while k < cs.len()
        invariant
            k <= cs@.len(),
            out@ == start + cs@.take(k as int),
        decreases cs@.len() - k,
    {
        out.push(cs[k]);
        assert(cs@.take(k + 1) =~= cs@.take(k as int).push(cs@[k as int]));
        k += 1;
    }
    assert(cs@.take(cs@.len() as int) =~= cs@);
}

/// What a folder that could not be opened is reported as.
pub open spec fn load_error_text(e: LoadError) -> Text {
    match e {
        LoadError::NotADirectory(p) => p@ + " is not a directory"@,
        LoadError::MissingConfig(p) => "No piton.config.pi found in "@ + p@,
        LoadError::Io(m) => m@,
    }
}

impl LoadError {
    /// The sentence that says what went wrong.
    pub fn message(&self) -> (r: String)
        ensures
            r@ == load_error_text(*self),
    {
        let mut out: Vec<char> = Vec::new();
        match self {
            LoadError::NotADirectory(p) => {
                push_text(&mut out, p.as_str());
                push_text(&mut out, " is not a directory");
            },
            LoadError::MissingConfig(p) => {
                push_text(&mut out, "No piton.config.pi found in ");
                push_text(&mut out, p.as_str());
            },
            LoadError::Io(m) => {
                push_text(&mut out, m.as_str());
            },
        }
        assert(out@ =~= load_error_text(*self));
        string_of(out.as_slice())
    }
}

/// What opening a folder says: how many files and declarations it holds.
pub open spec fn loaded_text(files: nat, declarations: nat) -> Text {
    decimal(files) + " files, "@ + decimal(declarations) + " declarations"@
}

pub fn loaded_message(specbase: &Specbase) -> (r: Message)
    requires
        crate::model::symbols_before(
            crate::model::file_views(specbase.files@),
            specbase.files@.len() as int,
        ) <= usize::MAX,
    ensures
        r.kind == MessageKind::Info,
        r.text@ == loaded_text(
            specbase.files@.len(),
            crate::model::symbols_before(
                crate::model::file_views(specbase.files@),
                specbase.files@.len() as int,
            ),
        ),
{
    let mut out: Vec<char> = Vec::new();
    push_decimal(&mut out, specbase.files.len());
    push_text(&mut out, " files, ");
    push_decimal(&mut out, specbase.symbol_count());
    push_text(&mut out, " declarations");
    assert(out@ =~= loaded_text(
        specbase.files@.len(),
        crate::model::symbols_before(
            crate::model::file_views(specbase.files@),
            specbase.files@.len() as int,
        ),
    ));
    Message { text: string_of(out.as_slice()), kind: MessageKind::Info }
}

/// What the application says when a folder could not be opened.
pub fn load_failed_message(error: &LoadError) -> (r: Message)
    ensures
        r.kind == MessageKind::Error,
        r.text@ == load_error_text(*error),
{
    Message { text: error.message(), kind: MessageKind::Error }
}

/// What saving a file says: that it was saved, or why it was not.
pub fn saved_message(rel: &str, saved: Result<(), String>) -> (r: Message)
    ensures
        match saved {
            Ok(()) => r.kind == MessageKind::Info && r.text@ == "Saved "@ + rel@,
            Err(e) => r.kind == MessageKind::Error && r.text@ == e@,
        },
{
    match saved {
        Ok(()) => {
            let mut out: Vec<char> = Vec::new();
            push_text(&mut out, "Saved ");
            push_text(&mut out, rel);
            Message { text: string_of(out.as_slice()), kind: MessageKind::Info }
        },
        Err(e) => Message { text: e, kind: MessageKind::Error },
    }
}

/// What the sidebar's editor does to follow the selection.
#[derive(Debug, Clone, Copy, PartialEq, Eq, Structural)]
pub enum SidebarStep {
    /// The file open is the one selected.
    Keep,
    /// Put away whatever is open.
    Close,
    /// Put away whatever is open, and open this file.
    Open(usize),
}

/// A single selected node brings the sidebar out with that node's file in
/// it; letting the selection go, or having no specbase, takes it away.
pub open spec fn sidebar_spec(loaded: bool, selected: Option<usize>, open: Option<usize>) -> SidebarStep {
    if !loaded {
        SidebarStep::Close
    } else {
        match selected {
            Some(f) => if open == Some(f) {
                SidebarStep::Keep
            } else {
                SidebarStep::Open(f)
            },
            None => SidebarStep::Close,
        }
    }
}

/// The step that makes the sidebar follow the selection: `loaded` says a
/// specbase is open, `selected` is the selected file and `open` the file in
/// the sidebar.
pub fn sidebar_step(loaded: bool, selected: Option<usize>, open: Option<usize>) -> (r: SidebarStep)
    ensures
        r == sidebar_spec(loaded, selected, open),
{
    if !loaded {
        return SidebarStep::Close;
    }
    match selected {
        Some(f) => {
            let same = match open {
                Some(o) => o == f,
                None => false,
            };
            if same {
                SidebarStep::Keep
            } else {
                SidebarStep::Open(f)
            }
        },
        None => SidebarStep::Close,
    }
}

} // verus!
