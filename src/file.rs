//! One file's record: its text, identity, classification and line-start table.

use std::ops::Range;
use std::sync::atomic::{AtomicUsize, Ordering};
use vstd::prelude::*;
use vstd::utf8::encode_utf8;
use crate::lines::{
    as_ints, compute_line_starts, find_line, is_line_of, lemma_line_starts, line_count,
    line_start_spec, line_starts_of, opt_int,
};

verus! {

/// The final component of a path, as `std::path::Path::file_name` gives it.
pub uninterp spec fn file_name_of(path: Seq<char>) -> Option<Seq<char>>;

/// The extension of a path, as `std::path::Path::extension` gives it.
pub uninterp spec fn extension_of(path: Seq<char>) -> Option<Seq<char>>;

/// An optional string read as an optional sequence of characters.
pub open spec fn opt_view(o: Option<String>) -> Option<Seq<char>> {
    match o {
        Some(s) => Some(s@),
        None => None,
    }
}

/// Relies on `std::path::Path::file_name`: the last normal component of the path.
#[verifier::external_body]
pub(crate) fn path_file_name(path: &str) -> (r: Option<String>)
    ensures
        opt_view(r) == file_name_of(path@),
{
    std::path::Path::new(path).file_name().map(|n| n.to_string_lossy().into_owned())
}

/// Relies on `std::path::Path::extension`: the text after the last dot of the file name.
#[verifier::external_body]
pub(crate) fn path_extension(path: &str) -> (r: Option<String>)
    ensures
        opt_view(r) == extension_of(path@),
{
    std::path::Path::new(path).extension().map(|e| e.to_string_lossy().into_owned())
}

/// Whether a file holds a script or a module.
#[derive(Debug, Copy, Clone, PartialEq, Eq, Hash, Structural)]
pub enum JsFileKind {
    Script,
    Module,
}

/// The classification a path gets: a module exactly when its extension is `mjs`.
pub open spec fn kind_of(path: Seq<char>) -> JsFileKind {
    if extension_of(path) == Some("mjs"@) {
        JsFileKind::Module
    } else {
        JsFileKind::Script
    }
}

/// The display name a path gets: its final component, or empty.
pub open spec fn name_of(path: Seq<char>) -> Seq<char> {
    match file_name_of(path) {
        Some(n) => n,
        None => Seq::empty(),
    }
}

/// The UTF-8 bytes of a text.
pub open spec fn text_bytes(s: Seq<char>) -> Seq<u8> {
    encode_utf8(s)
}

/// A concrete (on disk) or virtual file.
#[derive(Debug, Clone, PartialEq, Eq, Hash)]
pub struct JsFile {
    pub source: String,
    /// The name of the file.
    pub name: String,
    /// The path on disk, for a concrete file.
    pub path: Option<String>,
    /// The identifier this file is referred to by.
    pub id: usize,
    /// Script or module.
    pub kind: JsFileKind,
    /// The offsets at which the lines of `source` start.
    pub line_starts: Vec<usize>,
}

impl JsFile {
    /// The UTF-8 bytes of the source.
    pub open spec fn bytes(&self) -> Seq<u8> {
        text_bytes(self.source@)
    }

    /// The line-start table agrees with the source.
    pub open spec fn wf(&self) -> bool {
        as_ints(self.line_starts@) == line_starts_of(self.bytes())
    }

    /// A record for the file at `path` holding `source`, under an identifier
    /// taken from `counter`.
    pub fn new_concrete(source: String, path: String, counter: &AtomicUsize) -> (r: JsFile)
        ensures
            r.wf(),
            r.source@ == source@,
            r.path == Some(path),
            r.name@ == name_of(path@),
            r.kind == kind_of(path@),
    {
        let id = counter.fetch_add(1, Ordering::SeqCst);
        let ext = path_extension(path.as_str());
        let module_ext = "mjs".to_owned();
        proof {
            reveal_strlit("mjs");
        }
        let kind = match ext {
            Some(e) => if e == module_ext {
                JsFileKind::Module
            } else {
                JsFileKind::Script
            },
            None => JsFileKind::Script,
        };
        let line_starts = Self::line_starts(source.as_str());
        let name = match path_file_name(path.as_str()) {
            Some(n) => n,
            None => String::new(),
        };
        JsFile { source, name, path: Some(path), id, kind, line_starts }
    }

    /// Replaces the source and recomputes the line-start table from it.
    pub fn update_src(&mut self, new: String)
        ensures
            final(self).wf(),
            final(self).source@ == new@,
            final(self).name == old(self).name,
            final(self).path == old(self).path,
            final(self).id == old(self).id,
            final(self).kind == old(self).kind,
    {
        self.line_starts = Self::line_starts(new.as_str());
        self.source = new;
    }

    /// The offsets at which the lines of `source` start: 0, then one past each `'\n'`.
    pub fn line_starts(source: &str) -> (r: Vec<usize>)
        ensures
            as_ints(r@) == line_starts_of(text_bytes(source@)),
    {
        compute_line_starts(source.as_bytes())
    }

    /// The start of line `line_index`; the length of the source for the line
    /// just past the last; `None` beyond that.
    pub fn line_start(&self, line_index: usize) -> (r: Option<usize>)
        requires
            self.wf(),
        ensures
            opt_int(r) == line_start_spec(self.bytes(), line_index as int),
    {
        if line_index < self.line_starts.len() {
            Some(self.line_starts[line_index])
        } else if line_index == self.line_starts.len() {
            Some(self.source.as_str().as_bytes().len())
        } else {
            None
        }
    }

    /// The last line whose start is at most `byte_index`.
    pub fn line_index(&self, byte_index: usize) -> (r: usize)
        requires
            self.wf(),
        ensures
            is_line_of(line_starts_of(self.bytes()), byte_index as int, r as int),
    {
        proof {
            lemma_line_starts(self.bytes());
        }
        find_line(&self.line_starts, byte_index)
    }

    /// The offset of `column` bytes into line `line`; `None` where the line does not exist.
    pub fn line_col_to_index(&self, line: usize, column: usize) -> (r: Option<usize>)
        requires
            self.wf(),
            line_start_spec(self.bytes(), line as int) is Some ==>
                line_start_spec(self.bytes(), line as int)->0 + column <= usize::MAX,
        ensures
            r is Some <==> line_start_spec(self.bytes(), line as int) is Some,
            r is Some ==> r->0 == line_start_spec(self.bytes(), line as int)->0 + column,
    {
        let start = self.line_start(line)?;
        Some(start + column)
    }

    /// The half-open byte range of line `line_index`; `None` where either end is out of range.
    pub fn line_range(&self, line_index: usize) -> (r: Option<Range<usize>>)
        requires
            self.wf(),
        ensures
            r is Some <==> line_index as int + 1 <= line_count(self.bytes()),
            r is Some ==> r->0.start == line_start_spec(self.bytes(), line_index as int)->0,
            r is Some ==> r->0.end == line_start_spec(self.bytes(), line_index + 1)->0,
    {
        let line_start = self.line_start(line_index)?;
        let n_lines = self.line_starts.len();
        if line_index == usize::MAX {
            assert(self.line_starts@.len() == n_lines);
            assert(as_ints(self.line_starts@).len() == self.line_starts@.len());
            return None;
        }
        let next_line_start = self.line_start(line_index + 1)?;
        Some(line_start..next_line_start)
    }
}

/// Two consistent records with the same source have the same line-start
/// table: after a source is replaced, the table reflects the new source alone.
pub proof fn lemma_table_follows_source(a: JsFile, b: JsFile)
    requires
        a.wf(),
        b.wf(),
        a.source@ == b.source@,
    ensures
        a.line_starts@ == b.line_starts@,
{
    assert(as_ints(a.line_starts@).len() == a.line_starts@.len());
    assert(as_ints(b.line_starts@).len() == b.line_starts@.len());
    assert forall|i: int| 0 <= i < a.line_starts@.len() implies a.line_starts@[i] == b.line_starts@[i] by {
        assert(as_ints(a.line_starts@)[i] == as_ints(b.line_starts@)[i]);
    }
    assert(a.line_starts@ =~= b.line_starts@);
}

} // verus!
