//! The file open in the sidebar: the text being edited, what is on disk, and
//! what went wrong reading or writing it. Reading and writing the file are
//! done by the caller, who hands the outcome in.

use vstd::prelude::*;

use crate::model::FileId;
use crate::text::{string_of, Text};

verus! {

/// What the editor's header was asked to do.
#[derive(Debug, Clone, Copy, PartialEq, Eq, Structural)]
pub enum EditorAction {
    Save,
    Cancel,
    Close,
}

/// One open file, and the edits made to it since it was opened or saved.
#[derive(Debug, Clone)]
pub struct Editor {
    pub file: FileId,
    pub path: String,
    /// The path of the file relative to the root of the specbase.
    pub rel: String,
    /// The text being edited.
    pub text: String,
    /// The text as it was last read from, or written to, disk.
    pub saved: String,
    /// Set when the file could not be read or written.
    pub error: Option<String>,
}

pub open spec fn opt_string(o: Option<String>) -> Option<Text> {
    match o {
        Some(s) => Some(s@),
        None => None,
    }
}

pub open spec fn read_error(rel: Text, why: Text) -> Text {
    "Could not read "@ + rel + ": "@ + why
}

pub open spec fn save_error(rel: Text, why: Text) -> Text {
    "Could not save "@ + rel + ": "@ + why
}

fn push_str(out: &mut Vec<char>, s: &str)
    ensures
        final(out)@ == old(out)@ + s@,
{
    let cs = crate::text::chars_of(s);
    let ghost start = out@;
    let mut j: usize = 0;
    while j < cs.len()
        invariant
            j <= cs@.len(),
            out@ == start + cs@.take(j as int),
        decreases cs@.len() - j,
    {
        out.push(cs[j]);
        assert(cs@.take(j + 1) =~= cs@.take(j as int).push(cs@[j as int]));
        j += 1;
    }
    assert(cs@.take(cs@.len() as int) =~= cs@);
}

fn joined(a: &str, b: &str, c: &str, d: &str) -> (r: String)
    ensures
        r@ == a@ + b@ + c@ + d@,
{
    let mut out: Vec<char> = Vec::new();
    push_str(&mut out, a);
    push_str(&mut out, b);
    push_str(&mut out, c);
    push_str(&mut out, d);
    assert(out@ =~= a@ + b@ + c@ + d@);
    string_of(out.as_slice())
}

impl Editor {
    /// Open a file, given what reading it gave: its text, or why it could
    /// not be read.
    pub fn open(file: FileId, path: &str, rel: &str, read: Result<String, String>) -> (r: Editor)
        ensures
            r.file == file,
            r.path@ == path@,
            r.rel@ == rel@,
            r.text@ == r.saved@,
            match read {
                Ok(text) => r.text@ == text@ && r.error is None,
                Err(why) => r.text@ == Seq::<char>::empty() && opt_string(r.error) == Some(
                    read_error(rel@, why@),
                ),
            },
    {
        let (text, error) = match read {
            Ok(text) => (text, None),
            Err(why) => {
                proof {
                    reveal_strlit("Could not read ");
                    reveal_strlit(": ");
                }
                (String::new(), Some(joined("Could not read ", rel, ": ", why.as_str())))
            },
        };
        Editor {
            file,
            path: path.to_owned(),
            rel: rel.to_owned(),
            saved: text.clone(),
            text,
            error,
        }
    }

    /// The file being edited.
    pub fn file(&self) -> (r: FileId)
        ensures
            r == self.file,
    {
        self.file
    }

    pub fn path(&self) -> (r: &str)
        ensures
            r@ == self.path@,
    {
        self.path.as_str()
    }

    pub fn rel(&self) -> (r: &str)
        ensures
            r@ == self.rel@,
    {
        self.rel.as_str()
    }

    pub fn text(&self) -> (r: &str)
        ensures
            r@ == self.text@,
    {
        self.text.as_str()
    }

    /// True while the buffer holds edits that are not on disk.
    pub fn is_dirty(&self) -> (r: bool)
        ensures
            r == (self.text@ != self.saved@),
    {
        !(self.text == self.saved)
    }

    pub fn error(&self) -> (r: Option<&str>)
        ensures
            match r {
                Some(e) => opt_string(self.error) == Some(e@),
                None => self.error is None,
            },
    {
        match &self.error {
            Some(e) => Some(e.as_str()),
            None => None,
        }
    }

    /// Put what was typed in the buffer.
    pub fn set_text(&mut self, text: String)
        ensures
            *final(self) == (Editor { text, ..*old(self) }),
    {
        self.text = text;
    }

    /// Take in what writing the buffer back to the file gave: what is on disk
    /// is then the buffer, or the failure is kept and reported.
    pub fn saved(&mut self, written: Result<(), String>) -> (r: Result<(), String>)
        ensures
            final(self).file == old(self).file,
            final(self).path == old(self).path,
            final(self).rel == old(self).rel,
            final(self).text == old(self).text,
            match written {
                Ok(()) => r is Ok && final(self).saved@ == old(self).text@ && final(self).error is None,
                Err(why) => {
                    &&& final(self).saved == old(self).saved
                    &&& r matches Err(m) && m@ == save_error(old(self).rel@, why@)
                    &&& opt_string(final(self).error) == Some(save_error(old(self).rel@, why@))
                },
            },
    {
        match written {
            Ok(()) => {
                self.saved = self.text.clone();
                self.error = None;
                Ok(())
            },
            Err(why) => {
                proof {
                    reveal_strlit("Could not save ");
                    reveal_strlit(": ");
                }
                let message = joined("Could not save ", self.rel.as_str(), ": ", why.as_str());
                self.error = Some(message.clone());
                Err(message)
            },
        }
    }

    /// Throw the unsaved edits away and go back to what is on disk.
    pub fn cancel(&mut self)
        ensures
            final(self).text@ == old(self).saved@,
            final(self).saved == old(self).saved,
            final(self).file == old(self).file,
            final(self).path == old(self).path,
            final(self).rel == old(self).rel,
            final(self).error == old(self).error,
    {
        self.text = self.saved.clone();
    }
}

} // verus!
