use rslint_files::file::{JsFile, JsFileKind};
use rslint_files::walker::{is_ignored_name, is_linted_path, FileWalker};
use std::sync::atomic::AtomicUsize;

fn record(counter: &AtomicUsize, src: &str, path: &str) -> JsFile {
    JsFile::new_concrete(src.to_string(), path.to_string(), counter)
}

#[test]
fn line_starts_of_three_lines() {
    assert_eq!(JsFile::line_starts("a\nbb\nccc"), vec![0, 2, 5]);
}

#[test]
fn line_starts_of_empty_and_trailing_newline() {
    assert_eq!(JsFile::line_starts(""), vec![0]);
    assert_eq!(JsFile::line_starts("a\n"), vec![0, 2]);
    assert_eq!(JsFile::line_starts("\n\n"), vec![0, 1, 2]);
}

#[test]
fn line_starts_count_bytes_not_chars() {
    // 'é' takes two bytes in UTF-8
    assert_eq!(JsFile::line_starts("é\nx"), vec![0, 3]);
}

#[test]
fn queries_on_three_lines() {
    let counter = AtomicUsize::new(1);
    let f = record(&counter, "a\nbb\nccc", "dir/a.js");
    assert_eq!(f.line_index(5), 2);
    assert_eq!(f.line_range(1), Some(2..5));
    assert_eq!(f.line_range(2), Some(5..8));
    assert_eq!(f.line_range(3), None);
    assert_eq!(f.line_range(0), Some(0..2));
}

#[test]
fn first_and_end_line_start() {
    let counter = AtomicUsize::new(1);
    let f = record(&counter, "a\nbb\nccc", "a.js");
    assert_eq!(f.line_start(0), Some(0));
    assert_eq!(f.line_start(3), Some(8));
    assert_eq!(f.line_start(4), None);
    assert_eq!(f.line_start(usize::MAX), None);
    assert_eq!(f.line_range(usize::MAX), None);
    let e = record(&counter, "", "e.js");
    assert_eq!(e.line_start(0), Some(0));
    assert_eq!(e.line_start(1), Some(0));
    assert_eq!(e.line_range(0), Some(0..0));
}

#[test]
fn line_start_maps_back_to_its_line() {
    let counter = AtomicUsize::new(1);
    let f = record(&counter, "x\n\nyz\nw", "a.js");
    for i in 0..f.line_starts.len() {
        assert_eq!(f.line_index(f.line_start(i).unwrap()), i);
    }
}

#[test]
fn offsets_inside_a_line_map_to_it() {
    let counter = AtomicUsize::new(1);
    let f = record(&counter, "a\nbb\nccc", "a.js");
    assert_eq!(f.line_index(0), 0);
    assert_eq!(f.line_index(1), 0);
    assert_eq!(f.line_index(2), 1);
    assert_eq!(f.line_index(3), 1);
    assert_eq!(f.line_index(4), 1);
    assert_eq!(f.line_index(7), 2);
    assert_eq!(f.line_index(8), 2);
    assert_eq!(f.line_index(100), 2);
}

#[test]
fn line_col_to_index_adds_column() {
    let counter = AtomicUsize::new(1);
    let f = record(&counter, "a\nbb\nccc", "a.js");
    assert_eq!(f.line_col_to_index(1, 1), Some(3));
    assert_eq!(f.line_col_to_index(2, 10), Some(15));
    assert_eq!(f.line_col_to_index(3, 0), Some(8));
    assert_eq!(f.line_col_to_index(4, 0), None);
}

#[test]
fn classification_and_name_from_path() {
    let counter = AtomicUsize::new(1);
    let s = record(&counter, "", "root/x.js");
    let m = record(&counter, "", "root/y.mjs");
    assert_eq!(s.kind, JsFileKind::Script);
    assert_eq!(m.kind, JsFileKind::Module);
    assert_eq!(s.name, "x.js");
    assert_eq!(m.name, "y.mjs");
    assert_eq!(m.path, Some("root/y.mjs".to_string()));
    let other = record(&counter, "", "root/z.mjsx");
    assert_eq!(other.kind, JsFileKind::Script);
}

#[test]
fn identifiers_are_distinct_and_never_zero() {
    let counter = AtomicUsize::new(1);
    let mut ids = Vec::new();
    for i in 0..1000 {
        ids.push(record(&counter, "", &format!("f{}.js", i)).id);
    }
    let mut sorted = ids.clone();
    sorted.sort();
    sorted.dedup();
    assert_eq!(sorted.len(), 1000);
    assert!(!ids.contains(&0));
}

#[test]
fn update_src_reindexes() {
    let counter = AtomicUsize::new(1);
    let mut f = record(&counter, "a\nbb\nccc", "a.js");
    let id = f.id;
    f.update_src("one line".to_string());
    assert_eq!(f.id, id);
    assert_eq!(f.source, "one line");
    assert_eq!(f.line_starts, vec![0]);
    assert_eq!(f.line_index(5), 0);
    assert_eq!(f.line_range(1), None);
    assert_eq!(f.line_range(0), Some(0..8));
}

#[test]
fn ingestion_filters() {
    assert!(is_ignored_name("node_modules"));
    assert!(!is_ignored_name("src"));
    assert!(!is_ignored_name("node_modules2"));
    assert!(is_linted_path("root/x.js"));
    assert!(is_linted_path("root/y.mjs"));
    assert!(!is_linted_path("root/readme.md"));
    assert!(!is_linted_path("root/Makefile"));
}

#[test]
fn merge_two_batches() {
    let counter = AtomicUsize::new(1);
    let a = vec![record(&counter, "1", "a/x.js"), record(&counter, "2", "a/y.js")];
    let b = vec![record(&counter, "3\n", "b/z.js")];
    let mut first = FileWalker::empty();
    first.load_files(a.clone());
    first.load_files(b.clone());
    let mut second = FileWalker::empty();
    second.load_files(b.clone());
    second.load_files(a.clone());
    assert_eq!(first.len(), 3);
    assert_eq!(second.len(), 3);
    for f in a.iter().chain(b.iter()) {
        assert_eq!(first.source(f.id), Some(f.source.as_str()));
        assert_eq!(second.source(f.id), Some(f.source.as_str()));
    }
}

#[test]
fn walker_queries() {
    let counter = AtomicUsize::new(1);
    let f = record(&counter, "a\nbb\nccc", "dir/a.js");
    let id = f.id;
    let mut w = FileWalker::empty();
    w.load_files(vec![f]);
    assert_eq!(w.name(id), Some("dir/a.js"));
    assert_eq!(w.source(id), Some("a\nbb\nccc"));
    assert_eq!(w.line_index(id, 5), Some(2));
    assert_eq!(w.line_range(id, 1), Some(2..5));
    assert_eq!(w.line_range(id, 3), None);
    assert_eq!(w.line_start(id, 3), Some(8));
    assert_eq!(w.line_start(id, 4), None);
}

#[test]
fn virtual_record_shows_its_name() {
    let mut w = FileWalker::empty();
    let f = JsFile {
        source: String::new(),
        name: "virtual".to_string(),
        path: None,
        id: 7,
        kind: JsFileKind::Script,
        line_starts: vec![0],
    };
    w.load_files(vec![f]);
    assert_eq!(w.name(7), Some("virtual"));
}

#[test]
fn refresh_keeps_identifier() {
    let counter = AtomicUsize::new(1);
    let f = record(&counter, "a\nbb\nccc", "src/x.js");
    let id = f.id;
    let mut w = FileWalker::empty();
    w.load_files(vec![f, record(&counter, "", "src/y.js")]);
    assert_eq!(w.file_id_by_name("elsewhere/x.js"), Some(id));
    assert_eq!(w.maybe_update_file_src("elsewhere/x.js", "z\n".to_string()), Some(id));
    let g = w.get(id).unwrap();
    assert_eq!(g.id, id);
    assert_eq!(g.source, "z\n");
    assert_eq!(g.line_starts, vec![0, 2]);
    assert_eq!(g.path, Some("src/x.js".to_string()));
    assert_eq!(w.len(), 2);
}

#[test]
fn refresh_without_match_changes_nothing() {
    let counter = AtomicUsize::new(1);
    let f = record(&counter, "abc", "src/x.js");
    let id = f.id;
    let mut w = FileWalker::empty();
    w.load_files(vec![f]);
    assert_eq!(w.file_id_by_name("src/w.js"), None);
    assert_eq!(w.maybe_update_file_src("src/w.js", "new".to_string()), None);
    assert_eq!(w.source(id), Some("abc"));
}

#[test]
fn unknown_identifiers_are_absent() {
    let counter = AtomicUsize::new(1);
    let mut w = FileWalker::empty();
    for id in [0usize, 1, 999] {
        assert_eq!(w.name(id), None);
        assert_eq!(w.source(id), None);
        assert_eq!(w.line_index(id, 0), None);
        assert_eq!(w.line_range(id, 0), None);
    }
    let f = record(&counter, "", "x.js");
    let issued = f.id;
    w.load_files(vec![f]);
    assert_eq!(w.name(0), None);
    assert_eq!(w.source(0), None);
    assert_eq!(w.line_index(0, 0), None);
    assert_eq!(w.line_range(0, 0), None);
    assert_eq!(w.source(issued + 1), None);
}

#[test]
fn default_table_is_empty() {
    let w = FileWalker::default();
    assert_eq!(w.len(), 0);
    assert_eq!(w.get(1), None);
}
