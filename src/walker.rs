//! The file table: ingestion filters, merging, refresh, and identifier-keyed queries.

use std::ops::Range;
use crate::file::{extension_of, file_name_of, path_extension, path_file_name, JsFile, opt_view};
use crate::lines::{is_line_of, line_count, line_start_spec, line_starts_of, opt_int};
use crate::table::{table_contents, FileTable};
use vstd::prelude::*;

verus! {

/// The directory or file name pruned at every depth of a walk.
pub const IGNORED_NAME: &'static str = "node_modules";

/// The extension of scripts.
pub const SCRIPT_EXTENSION: &'static str = "js";

/// The extension of modules.
pub const MODULE_EXTENSION: &'static str = "mjs";

/// Whether a walk prunes an entry of this name.
pub fn is_ignored_name(name: &str) -> (r: bool)
    ensures
        r == (name@ == IGNORED_NAME@),
{
    name.to_owned() == IGNORED_NAME.to_owned()
}

/// The extension of a path is one of the linted ones.
pub open spec fn linted_spec(path: Seq<char>) -> bool {
    extension_of(path) == Some(SCRIPT_EXTENSION@) || extension_of(path) == Some(MODULE_EXTENSION@)
}

/// Whether the file at `path` is linted, by its extension.
pub fn is_linted_path(path: &str) -> (r: bool)
    ensures
        r == linted_spec(path@),
{
    match path_extension(path) {
        Some(e) => e == SCRIPT_EXTENSION.to_owned() || e == MODULE_EXTENSION.to_owned(),
        None => false,
    }
}

/// Every record is consistent and stored under its own identifier.
pub open spec fn table_wf(m: Map<usize, JsFile>) -> bool {
    forall|k: usize| #[trigger] m.contains_key(k) ==> m[k].wf() && m[k].id == k
}

/// The table after inserting each record of `fs` under its identifier, in order.
pub open spec fn insert_all(m: Map<usize, JsFile>, fs: Seq<JsFile>) -> Map<usize, JsFile>
    decreases fs.len(),
{
    if fs.len() == 0 {
        m
    } else {
        insert_all(m, fs.drop_last()).insert(fs.last().id, fs.last())
    }
}

/// The identifiers of a batch of records.
pub open spec fn ids_of(fs: Seq<JsFile>) -> Seq<usize> {
    fs.map_values(|f: JsFile| f.id)
}

proof fn lemma_ids_drop_last(fs: Seq<JsFile>)
    requires
        fs.len() > 0,
    ensures
        ids_of(fs.drop_last()) =~= ids_of(fs).drop_last(),
{
}

/// A key that no record of the batch has keeps its entry.
proof fn lemma_insert_all_outside(m: Map<usize, JsFile>, fs: Seq<JsFile>, k: usize)
    requires
        forall|j: int| 0 <= j < fs.len() ==> (#[trigger] fs[j]).id != k,
    ensures
        insert_all(m, fs).contains_key(k) == m.contains_key(k),
        m.contains_key(k) ==> insert_all(m, fs)[k] == m[k],
    decreases fs.len(),
{
    if fs.len() > 0 {
        lemma_insert_all_outside(m, fs.drop_last(), k);
    }
}

/// With identifiers unique in the batch, each record ends up under its identifier.
proof fn lemma_insert_all_inside(m: Map<usize, JsFile>, fs: Seq<JsFile>, j: int)
    requires
        ids_of(fs).no_duplicates(),
        0 <= j < fs.len(),
    ensures
        insert_all(m, fs).contains_key(fs[j].id),
        insert_all(m, fs)[fs[j].id] == fs[j],
    decreases fs.len(),
{
    if j < fs.len() - 1 {
        lemma_ids_drop_last(fs);
        assert(ids_of(fs)[j] != ids_of(fs)[fs.len() - 1]);
        lemma_insert_all_inside(m, fs.drop_last(), j);
    }
}

/// Inserting records with new, unique identifiers grows the table by their number.
proof fn lemma_insert_all_len(m: Map<usize, JsFile>, fs: Seq<JsFile>)
    requires
        m.dom().finite(),
        ids_of(fs).no_duplicates(),
        forall|j: int| 0 <= j < fs.len() ==> !m.contains_key(#[trigger] fs[j].id),
    ensures
        insert_all(m, fs).dom().finite(),
        insert_all(m, fs).dom().len() == m.dom().len() + fs.len(),
    decreases fs.len(),
{
    if fs.len() > 0 {
        let last = fs.len() - 1;
        lemma_ids_drop_last(fs);
        lemma_insert_all_len(m, fs.drop_last());
        assert forall|j: int| 0 <= j < fs.drop_last().len() implies (#[trigger] fs.drop_last()[j]).id
            != fs[last].id by {
            assert(ids_of(fs)[j] != ids_of(fs)[last]);
        }
        lemma_insert_all_outside(m, fs.drop_last(), fs[last].id);
    }
}

/// Merging two batches whose identifiers are unique and disjoint gives the same
/// table in either order; where no identifier is already in the table, its
/// size grows by the sizes of both batches.
pub proof fn lemma_merge_batches(m: Map<usize, JsFile>, a: Seq<JsFile>, b: Seq<JsFile>)
    requires
        ids_of(a).no_duplicates(),
        ids_of(b).no_duplicates(),
        forall|i: int, j: int| 0 <= i < a.len() && 0 <= j < b.len() ==> (#[trigger] a[i]).id != (
        #[trigger] b[j]).id,
    ensures
        insert_all(insert_all(m, a), b) == insert_all(insert_all(m, b), a),
        m.dom().finite() && (forall|i: int| 0 <= i < a.len() ==> !m.contains_key(#[trigger] a[i].id))
            && (forall|j: int| 0 <= j < b.len() ==> !m.contains_key(#[trigger] b[j].id)) ==> (
        insert_all(insert_all(m, a), b).dom().len() == m.dom().len() + a.len() + b.len()),
{
    let ab = insert_all(insert_all(m, a), b);
    let ba = insert_all(insert_all(m, b), a);
    assert forall|k: usize| #[trigger] ab.dom().contains(k) == ba.dom().contains(k) && (
    ab.contains_key(k) ==> ab[k] == ba[k]) by {
        if exists|i: int| 0 <= i < a.len() && a[i].id == k {
            let i = choose|i: int| 0 <= i < a.len() && a[i].id == k;
            assert forall|j: int| 0 <= j < b.len() implies (#[trigger] b[j]).id != k by {
                assert(a[i].id != b[j].id);
            }
            lemma_insert_all_inside(m, a, i);
            lemma_insert_all_outside(insert_all(m, a), b, k);
            lemma_insert_all_inside(insert_all(m, b), a, i);
        } else if exists|j: int| 0 <= j < b.len() && b[j].id == k {
            let j = choose|j: int| 0 <= j < b.len() && b[j].id == k;
            lemma_insert_all_inside(m, b, j);
            lemma_insert_all_outside(insert_all(m, b), a, k);
            lemma_insert_all_inside(insert_all(m, a), b, j);
        } else {
            lemma_insert_all_outside(m, a, k);
            lemma_insert_all_outside(m, b, k);
            lemma_insert_all_outside(insert_all(m, a), b, k);
            lemma_insert_all_outside(insert_all(m, b), a, k);
        }
    }
    assert(ab.dom() =~= ba.dom());
    assert(ab =~= ba);
    if m.dom().finite() && (forall|i: int| 0 <= i < a.len() ==> !m.contains_key(#[trigger] a[i].id))
        && (forall|j: int| 0 <= j < b.len() ==> !m.contains_key(#[trigger] b[j].id)) {
        lemma_insert_all_len(m, a);
        assert forall|j: int| 0 <= j < b.len() implies !insert_all(m, a).contains_key(
            #[trigger] b[j].id,
        ) by {
            assert forall|i: int| 0 <= i < a.len() implies (#[trigger] a[i]).id != b[j].id by {}
            lemma_insert_all_outside(m, a, b[j].id);
        }
        lemma_insert_all_len(insert_all(m, a), b);
    }
}

/// The record at `path` shares its final component with `path`.
pub open spec fn same_file_name(f: JsFile, path: Seq<char>) -> bool {
    f.path is Some && file_name_of(f.path->0@) == file_name_of(path)
}

/// The name under which the renderer shows a record: its path, else its name.
pub open spec fn display_name(f: JsFile) -> Seq<char> {
    match f.path {
        Some(p) => p@,
        None => f.name@,
    }
}

/// Whether two optional strings are equal.
fn same_opt(a: &Option<String>, b: &Option<String>) -> (r: bool)
    ensures
        r == (opt_view(*a) == opt_view(*b)),
{
    match (a, b) {
        (Some(x), Some(y)) => *x == *y,
        (None, None) => true,
        _ => false,
    }
}

/// The table of files, keyed by identifier.
pub struct FileWalker {
    pub files: FileTable,
}

impl FileWalker {
    /// What the table holds.
    pub open spec fn contents(&self) -> Map<usize, JsFile> {
        table_contents(self.files)
    }

    /// Every record is consistent and stored under its own identifier.
    pub open spec fn wf(&self) -> bool {
        table_wf(self.contents())
    }

    /// A table with no files.
    pub fn empty() -> (r: FileWalker)
        ensures
            r.wf(),
            r.contents() == Map::<usize, JsFile>::empty(),
    {
        FileWalker { files: FileTable::new() }
    }

    /// Adds each record under its identifier, a later one replacing an earlier.
    pub fn load_files(&mut self, files: Vec<JsFile>)
        requires
            old(self).wf(),
            forall|i: int| 0 <= i < files@.len() ==> (#[trigger] files@[i]).wf(),
        ensures
            final(self).wf(),
            final(self).contents() == insert_all(old(self).contents(), files@),
    {
        let ghost all = files@;
        let ghost n = files@.len();
        let mut rest = files;
        let mut rev: Vec<JsFile> = Vec::new();
        while rest.len() > 0
            invariant
                n == all.len(),
                rest@ == all.subrange(0, rest@.len() as int),
                rest@.len() + rev@.len() == n,
                forall|i: int| 0 <= i < rev@.len() ==> #[trigger] rev@[i] == all[n - 1 - i],
            decreases rest@.len(),
        {
            let f = rest.pop().unwrap();
            assert(f == all[rest@.len() as int]);
            rev.push(f);
            assert(rest@ =~= all.subrange(0, rest@.len() as int));
        }
        while rev.len() > 0
            invariant
                old(self).wf(),
                forall|i: int| 0 <= i < all.len() ==> (#[trigger] all[i]).wf(),
                n == all.len(),
                rev@.len() <= n,
                forall|i: int| 0 <= i < rev@.len() ==> #[trigger] rev@[i] == all[n - 1 - i],
                self.wf(),
                self.contents() == insert_all(old(self).contents(), all.subrange(0, n - rev@.len())),
            decreases rev@.len(),
        {
            let ghost done = n - rev@.len();
            let f = rev.pop().unwrap();
            assert(f == all[done]);
            assert(all.subrange(0, done + 1).drop_last() =~= all.subrange(0, done));
            let id = f.id;
            self.files.insert(id, f);
        }
        assert(all.subrange(0, n as int) =~= all);
    }

    /// The record of file `id`; `None` for an unknown id.
    pub fn get(&self, id: usize) -> (r: Option<&JsFile>)
        ensures
            r is Some <==> self.contents().contains_key(id),
            r is Some ==> *r->0 == self.contents()[id],
    {
        self.files.get(id)
    }

    /// The number of files in the table.
    pub fn len(&self) -> (r: usize)
        ensures
            r == self.contents().dom().len(),
    {
        self.files.len()
    }

    /// The display name of file `id`: its path, else its name; `None` for an unknown id.
    pub fn name(&self, id: usize) -> (r: Option<&str>)
        ensures
            r is Some <==> self.contents().contains_key(id),
            r is Some ==> r->0@ == display_name(self.contents()[id]),
    {
        let entry = self.files.get(id)?;
        match &entry.path {
            Some(p) => Some(p.as_str()),
            None => Some(entry.name.as_str()),
        }
    }

    /// The source of file `id`; `None` for an unknown id.
    pub fn source(&self, id: usize) -> (r: Option<&str>)
        ensures
            r is Some <==> self.contents().contains_key(id),
            r is Some ==> r->0@ == self.contents()[id].source@,
    {
        let entry = self.files.get(id)?;
        Some(entry.source.as_str())
    }

    /// The line of file `id` that holds `byte_index`; `None` for an unknown id.
    pub fn line_index(&self, id: usize, byte_index: usize) -> (r: Option<usize>)
        requires
            self.wf(),
        ensures
            r is Some <==> self.contents().contains_key(id),
            r is Some ==> is_line_of(
                line_starts_of(self.contents()[id].bytes()),
                byte_index as int,
                r->0 as int,
            ),
    {
        let entry = self.files.get(id)?;
        Some(entry.line_index(byte_index))
    }

    /// The half-open byte range of line `line_index` of file `id`; `None` for an
    /// unknown id or a line out of range.
    pub fn line_range(&self, id: usize, line_index: usize) -> (r: Option<Range<usize>>)
        requires
            self.wf(),
        ensures
            r is Some <==> self.contents().contains_key(id) && line_index as int + 1
                <= line_count(self.contents()[id].bytes()),
            r is Some ==> r->0.start == line_start_spec(
                self.contents()[id].bytes(),
                line_index as int,
            )->0,
            r is Some ==> r->0.end == line_start_spec(
                self.contents()[id].bytes(),
                line_index + 1,
            )->0,
    {
        let entry = self.files.get(id)?;
        entry.line_range(line_index)
    }

    /// The start of line `line_index` of file `id`; `None` for an unknown id or a
    /// line out of range.
    pub fn line_start(&self, id: usize, line_index: usize) -> (r: Option<usize>)
        requires
            self.wf(),
        ensures
            opt_int(r) == if self.contents().contains_key(id) {
                line_start_spec(self.contents()[id].bytes(), line_index as int)
            } else {
                None
            },
    {
        let entry = self.files.get(id)?;
        entry.line_start(line_index)
    }

    /// The identifier of a file whose path has the same final component as
    /// `path`, if there is one; which one, where several do, is not fixed.
    pub fn file_id_by_name(&self, path: &str) -> (r: Option<usize>)
        ensures
            r is Some ==> self.contents().contains_key(r->0) && same_file_name(
                self.contents()[r->0],
                path@,
            ),
            r is None ==> forall|k: usize| #[trigger] self.contents().contains_key(k)
                ==> !same_file_name(self.contents()[k], path@),
    {
        let wanted = path_file_name(path);
        let keys = self.files.keys();
        let mut i: usize = 0;
        while i < keys.len()
            invariant
                0 <= i <= keys@.len(),
                opt_view(wanted) == file_name_of(path@),
                forall|k: usize| self.contents().contains_key(k) <==> keys@.contains(k),
                forall|j: int| 0 <= j < i ==> !same_file_name(
                    self.contents()[#[trigger] keys@[j]],
                    path@,
                ),
            decreases keys@.len() - i,
        {
            let id = keys[i];
            assert(keys@.contains(id));
            let entry = self.files.get(id).unwrap();
            if let Some(p) = &entry.path {
                let found = path_file_name(p.as_str());
                if same_opt(&found, &wanted) {
                    return Some(id);
                }
            }
            i = i + 1;
        }
        proof {
            assert forall|k: usize| #[trigger] self.contents().contains_key(k) implies !same_file_name(
                self.contents()[k],
                path@,
            ) by {
                assert(keys@.contains(k));
                let j = choose|j: int| 0 <= j < keys@.len() && keys@[j] == k;
                assert(!same_file_name(self.contents()[keys@[j]], path@));
            }
        }
        None
    }

    /// Replaces the source of a file whose path has the same final component as
    /// `path`, keeping its identifier, and gives that identifier; leaves the
    /// table as it was where no file matches.
    pub fn maybe_update_file_src(&mut self, path: &str, src: String) -> (r: Option<usize>)
        requires
            old(self).wf(),
        ensures
            final(self).wf(),
            r is None <==> forall|k: usize| #[trigger] old(self).contents().contains_key(k)
                ==> !same_file_name(old(self).contents()[k], path@),
            r is None ==> final(self).contents() == old(self).contents(),
            r is Some ==> old(self).contents().contains_key(r->0) && same_file_name(
                old(self).contents()[r->0],
                path@,
            ),
            r is Some ==> final(self).contents() == old(self).contents().insert(
                r->0,
                final(self).contents()[r->0],
            ),
            r is Some ==> final(self).contents()[r->0].source@ == src@,
            r is Some ==> final(self).contents()[r->0].id == r->0,
            r is Some ==> final(self).contents()[r->0].name == old(self).contents()[r->0].name,
            r is Some ==> final(self).contents()[r->0].path == old(self).contents()[r->0].path,
            r is Some ==> final(self).contents()[r->0].kind == old(self).contents()[r->0].kind,
    {
        match self.file_id_by_name(path) {
            None => None,
            Some(id) => {
                let mut file = self.files.remove(id).unwrap();
                file.update_src(src);
                self.files.insert(id, file);
                proof {
                    assert(self.contents() =~= old(self).contents().insert(id, self.contents()[id]));
                }
                Some(id)
            },
        }
    }
}

impl Default for FileWalker {
    fn default() -> (r: FileWalker)
        ensures
            r.wf(),
            r.contents() == Map::<usize, JsFile>::empty(),
    {
        FileWalker::empty()
    }
}

} // verus!
