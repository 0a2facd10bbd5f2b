//! Paths, held against those of the standard library.

use std::path::{Path, PathBuf};

use subtitle_renamer::matcher::FileEntry;
use subtitle_renamer::paths::{file_name, join, opt_path_eq, parent, path_eq, path_parts};
use subtitle_renamer::view::{
    file_parents, holds_path, path_label, source_label, unique_parents, unique_paths,
};

fn words(alphabet: &[char], len: usize) -> Vec<String> {
    let mut all = vec![String::new()];
    let mut last = vec![String::new()];
    for _ in 0..len {
        let mut next = Vec::new();
        for w in &last {
            for c in alphabet {
                let mut s = w.clone();
                s.push(*c);
                next.push(s);
            }
        }
        all.extend(next.iter().cloned());
        last = next;
    }
    all
}

fn as_text(p: Option<&Path>) -> Option<String> {
    p.map(|p| p.to_str().unwrap().to_string())
}

#[test]
fn names_and_parents_agree_with_std() {
    for w in words(&['/', '.', 'a'], 7) {
        let p = Path::new(&w);
        let name = p.file_name().map(|n| n.to_str().unwrap().to_string());
        assert_eq!(file_name(&w), name, "file name of {w:?}");
        assert_eq!(parent(&w), as_text(p.parent()), "parent of {w:?}");
    }
}

#[test]
fn joining_agrees_with_std() {
    let all = words(&['/', '.', 'a'], 3);
    for a in &all {
        for b in &all {
            let expected: PathBuf = Path::new(a).join(b);
            assert_eq!(join(a, b), expected.to_str().unwrap(), "{a:?} and {b:?}");
        }
    }
}

#[test]
fn equality_agrees_with_std() {
    let all = words(&['/', '.', 'a'], 4);
    for a in &all {
        for b in &all {
            assert_eq!(path_eq(a, b), Path::new(a) == Path::new(b), "{a:?} and {b:?}");
        }
    }
    assert!(!path_eq("/a", "a"));
    assert!(path_eq("/a//b/./c/", "/a/b/c"));
}

#[test]
fn absent_paths_are_the_same() {
    assert!(opt_path_eq(&None, &None));
    assert!(!opt_path_eq(&None, &Some("a".to_string())));
    assert!(opt_path_eq(&Some("a/".to_string()), &Some("a".to_string())));
}

#[test]
fn components_are_listed_in_order() {
    assert_eq!(path_parts("subs/./Show//01.ass"), vec!["subs", "Show", "01.ass"]);
    assert_ne!(path_parts("/subs"), path_parts("subs"));
}

#[test]
fn a_name_below_a_directory_is_found_again() {
    for dir in ["/subs", "subs", "/", "", "/a/b.c"] {
        let p = join(dir, "Show - 01.ass");
        assert_eq!(file_name(&p).as_deref(), Some("Show - 01.ass"));
        assert!(path_eq(&parent(&p).unwrap(), dir));
    }
}

fn entry(path: &str) -> FileEntry {
    FileEntry::from_path(path.to_string())
}

#[test]
fn parents_are_unique_and_in_order() {
    let files = vec![entry("/b/1.ass"), entry("/a/2.ass"), entry("/b//3.ass"), entry("/")];
    assert_eq!(file_parents(&files), vec!["/b", "/a", "/b"]);
    assert_eq!(unique_parents(&files), vec!["/b", "/a"]);
    let dirs = vec!["/x".to_string(), "/x/".to_string(), "/y".to_string()];
    assert_eq!(unique_paths(&dirs), vec!["/x", "/y"]);
    assert!(holds_path(&dirs, "/y/."));
    assert!(!holds_path(&dirs, "/z"));
}

#[test]
fn sources_are_described() {
    assert_eq!(source_label(&vec![]), "No files yet — click Browse.");
    assert_eq!(source_label(&vec![entry("/a/1.ass"), entry("/a/2.ass")]), "Dir: /a");
    let three = vec![entry("/a/1.ass"), entry("/b/2.ass"), entry("/b/3.ass")];
    assert_eq!(source_label(&three), "3 files from 2 folders");
}

#[test]
fn files_are_shown_by_their_name() {
    assert_eq!(path_label(&entry("/subs/Show - 01.ass")), "Show - 01.ass");
    assert_eq!(path_label(&entry("/subs/..")), "/subs/..");
}
