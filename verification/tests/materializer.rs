use docker2rootfs::archive::{ArchiveEntry, EntryKind, Node};
use docker2rootfs::error::Error;
use docker2rootfs::materializer::{apply_layer, materialize, LayerFailure};
use docker2rootfs::path::RelPath;
use docker2rootfs::rootfs::RootfsTree;

fn file(name: &str, content: &str) -> ArchiveEntry {
    ArchiveEntry { path: name.as_bytes().to_vec(), node: Node::file(content.as_bytes().to_vec(), 0o644) }
}

fn dir(name: &str) -> ArchiveEntry {
    let mut node = Node::directory();
    node.mode = 0o700;
    node.uid = 42;
    ArchiveEntry { path: name.as_bytes().to_vec(), node }
}

fn link(name: &str, target: &str) -> ArchiveEntry {
    ArchiveEntry { path: name.as_bytes().to_vec(), node: Node::symlink(target.as_bytes().to_vec()) }
}

fn marker(name: &str) -> ArchiveEntry {
    file(name, "")
}

fn paths(tree: &RootfsTree) -> Vec<String> {
    let mut out: Vec<String> = Vec::new();
    for i in 0..tree.len() {
        out.push(String::from_utf8(tree.path_at(i).to_bytes()).unwrap());
    }
    out.sort();
    out
}

fn dump(tree: &RootfsTree) -> Vec<(Vec<u8>, Node)> {
    let mut out: Vec<(Vec<u8>, Node)> = Vec::new();
    for i in 0..tree.len() {
        out.push((tree.path_at(i).to_bytes(), tree.node_at(i).duplicate()));
    }
    out.sort_by(|a, b| a.0.cmp(&b.0));
    out
}

fn content(tree: &RootfsTree, name: &str) -> Option<Vec<u8>> {
    tree.lookup(&name.as_bytes().to_vec()).map(|n| n.content.clone())
}

fn sample_layers() -> Vec<Vec<ArchiveEntry>> {
    vec![
        vec![dir("etc/"), file("etc/hostname", "base\n"), file("usr/bin/env", "ELF"), link("bin", "usr/bin")],
        vec![file("etc/hostname", "top\n"), marker("usr/bin/.wh.env"), file("var/log/x", "log")],
    ]
}

#[test]
fn empty_image_gives_empty_tree() {
    let tree = materialize(vec![]).unwrap();
    assert_eq!(tree.len(), 0);
    assert_eq!(tree.layers(), 0);
    let tree = materialize(vec![vec![], vec![]]).unwrap();
    assert_eq!(tree.len(), 0);
    assert_eq!(tree.layers(), 2);
}

#[test]
fn layers_are_written_with_their_parents() {
    let tree = materialize(vec![vec![file("usr/share/doc/readme", "hi")]]).unwrap();
    assert_eq!(paths(&tree), vec!["usr", "usr/share", "usr/share/doc", "usr/share/doc/readme"]);
    assert_eq!(tree.lookup(&b"usr/share".to_vec()), Some(&Node::directory()));
    assert_eq!(tree.lookup(&b"usr/share/doc/readme".to_vec()), Some(&Node::file(b"hi".to_vec(), 0o644)));
    assert_eq!(tree.lookup(&b"./usr//share/doc/../doc/readme".to_vec()).unwrap().content, b"hi".to_vec());
    assert_eq!(tree.lookup(&b"usr/nothing".to_vec()), None);
    assert_eq!(tree.lookup(&b"../usr".to_vec()), None);
    assert!(tree.contains(&RelPath::normalize(&b"usr".to_vec()).unwrap()));
    assert!(!tree.contains(&RelPath::root()));
}

#[test]
fn materializing_twice_gives_identical_trees() {
    let first = materialize(sample_layers()).unwrap();
    let second = materialize(sample_layers()).unwrap();
    assert_eq!(dump(&first), dump(&second));
    assert_eq!(first.layers(), second.layers());
    assert_eq!(
        paths(&first),
        vec!["bin", "etc", "etc/hostname", "usr", "usr/bin", "var", "var/log", "var/log/x"]
    );
}

#[test]
fn whiteout_deletes_its_target_only() {
    let tree = materialize(vec![
        vec![file("a/file1", "one"), file("a/file2", "two")],
        vec![marker("a/.wh.file1")],
    ])
    .unwrap();
    assert_eq!(content(&tree, "a/file1"), None);
    assert_eq!(content(&tree, "a/file2"), Some(b"two".to_vec()));
    assert_eq!(paths(&tree), vec!["a", "a/file2"]);
    assert_eq!(content(&tree, "a/.wh.file1"), None);
}

#[test]
fn whiteout_deletes_directories_with_all_below() {
    let tree = materialize(vec![
        vec![file("a/d/x", "x"), file("a/d/e/y", "y"), file("a/dd", "keep"), file("a/d2/z", "z")],
        vec![marker("a/.wh.d")],
    ])
    .unwrap();
    assert_eq!(paths(&tree), vec!["a", "a/d2", "a/d2/z", "a/dd"]);
}

#[test]
fn whiteout_of_nothing_changes_nothing() {
    let tree = materialize(vec![vec![file("a/x", "x")], vec![marker("b/c/.wh.gone"), marker(".wh.also")]])
        .unwrap();
    assert_eq!(paths(&tree), vec!["a", "a/x"]);
}

#[test]
fn whiteout_deletes_the_link_not_its_target() {
    let tree = materialize(vec![
        vec![file("real/data", "d"), link("alias", "real")],
        vec![marker(".wh.alias")],
    ])
    .unwrap();
    assert_eq!(paths(&tree), vec!["real", "real/data"]);
    let tree = materialize(vec![
        vec![file("real/data", "d"), link("alias", "real")],
        vec![marker("alias/.wh.data")],
    ])
    .unwrap();
    assert_eq!(paths(&tree), vec!["alias", "real", "real/data"]);
    assert_eq!(tree.lookup(&b"alias".to_vec()).unwrap().kind, EntryKind::Symlink);
}

#[test]
fn opaque_marker_hides_lower_layers() {
    let tree = materialize(vec![
        vec![file("d/x", "x"), file("d/y", "y"), file("other/o", "o")],
        vec![marker("d/.wh..wh..opq"), file("d/z", "z")],
    ])
    .unwrap();
    assert_eq!(paths(&tree), vec!["d", "d/z", "other", "other/o"]);
    assert_eq!(content(&tree, "d/z"), Some(b"z".to_vec()));
}

#[test]
fn opaque_marker_keeps_what_its_own_layer_wrote() {
    let tree = materialize(vec![
        vec![file("d/x", "x"), file("d/sub/deep", "old")],
        vec![file("d/early", "e"), file("d/sub/new", "n"), marker("d/.wh..wh..opq"), file("d/late", "l")],
    ])
    .unwrap();
    assert_eq!(paths(&tree), vec!["d", "d/early", "d/late", "d/sub", "d/sub/new"]);
}

#[test]
fn opaque_marker_at_the_root_and_on_nothing() {
    let tree = materialize(vec![
        vec![file("a/x", "x"), file("b", "b")],
        vec![marker(".wh..wh..opq"), marker("nowhere/.wh..wh..opq"), file("c", "c")],
    ])
    .unwrap();
    assert_eq!(paths(&tree), vec!["c"]);
}

#[test]
fn last_write_wins_across_layers() {
    let tree = materialize(vec![vec![file("f", "lower")], vec![file("f", "upper content")]]).unwrap();
    assert_eq!(content(&tree, "f"), Some(b"upper content".to_vec()));
    assert_eq!(tree.layer_of(&RelPath::normalize(&b"f".to_vec()).unwrap()), Some(1));
    assert_eq!(tree.len(), 1);
}

#[test]
fn last_write_wins_within_a_layer() {
    let tree = materialize(vec![vec![file("d/f", "first"), file("d/f", "second")]]).unwrap();
    assert_eq!(content(&tree, "d/f"), Some(b"second".to_vec()));
    assert_eq!(paths(&tree), vec!["d", "d/f"]);
}

#[test]
fn directory_over_directory_keeps_children_and_takes_metadata() {
    let tree = materialize(vec![vec![file("d/x", "x")], vec![dir("d")]]).unwrap();
    assert_eq!(paths(&tree), vec!["d", "d/x"]);
    let d = tree.lookup(&b"d".to_vec()).unwrap();
    assert_eq!((d.kind, d.mode, d.uid), (EntryKind::Directory, 0o700, 42));
    assert_eq!(tree.layer_of(&RelPath::normalize(&b"d".to_vec()).unwrap()), Some(1));
    assert_eq!(tree.layer_of(&RelPath::normalize(&b"d/x".to_vec()).unwrap()), Some(0));
}

#[test]
fn file_over_directory_replaces_it_with_all_below() {
    let tree = materialize(vec![vec![file("d/x", "x"), file("d/e/y", "y")], vec![file("d", "now a file")]])
        .unwrap();
    assert_eq!(paths(&tree), vec!["d"]);
    assert_eq!(content(&tree, "d"), Some(b"now a file".to_vec()));
}

#[test]
fn directory_over_file_replaces_it() {
    let tree = materialize(vec![vec![file("d", "file")], vec![dir("d"), file("d/x", "x")]]).unwrap();
    assert_eq!(paths(&tree), vec!["d", "d/x"]);
    assert_eq!(tree.lookup(&b"d".to_vec()).unwrap().kind, EntryKind::Directory);
}

#[test]
fn entry_below_a_non_directory_makes_it_a_directory() {
    let tree = materialize(vec![vec![link("a", "/etc"), file("f", "file")], vec![file("a/passwd", "p"), file("f/g/h", "h")]])
        .unwrap();
    assert_eq!(paths(&tree), vec!["a", "a/passwd", "f", "f/g", "f/g/h"]);
    assert_eq!(tree.lookup(&b"a".to_vec()), Some(&Node::directory()));
    assert_eq!(tree.lookup(&b"f".to_vec()), Some(&Node::directory()));
}

#[test]
fn link_targets_are_recorded_as_given() {
    let mut hard = Node::symlink(b"../../outside".to_vec());
    hard.kind = EntryKind::HardLink;
    let tree = materialize(vec![vec![
        link("abs", "/etc/passwd"),
        link("rel", "../x"),
        ArchiveEntry { path: b"hard".to_vec(), node: hard },
    ]])
    .unwrap();
    assert_eq!(tree.lookup(&b"abs".to_vec()).unwrap().link_target, b"/etc/passwd".to_vec());
    assert_eq!(tree.lookup(&b"rel".to_vec()).unwrap().link_target, b"../x".to_vec());
    assert_eq!(tree.lookup(&b"hard".to_vec()).unwrap().link_target, b"../../outside".to_vec());
    assert_eq!(tree.lookup(&b"hard".to_vec()).unwrap().kind, EntryKind::HardLink);
}

#[test]
fn path_traversal_is_refused() {
    let r = materialize(vec![vec![file("ok", "ok"), file("../../etc/passwd", "root::0:0")]]);
    assert_eq!(r.unwrap_err(), LayerFailure { layer: 0, entry: Some(1), name: b"../../etc/passwd".to_vec(), error: Error::PathTraversal });
    let r = materialize(vec![vec![file("ok", "ok")], vec![], vec![file("a", "a"), file("b", "b"), file("/abs", "x"), file("c", "c")]]);
    assert_eq!(r.unwrap_err(), LayerFailure { layer: 2, entry: Some(2), name: b"/abs".to_vec(), error: Error::PathTraversal });
}

#[test]
fn first_refused_entry_is_reported() {
    let r = materialize(vec![vec![file("a/.wh.", ""), file("../x", "")], vec![file("/y", "")]]);
    assert_eq!(r.unwrap_err(), LayerFailure { layer: 0, entry: Some(0), name: b"a/.wh.".to_vec(), error: Error::ArchiveParseError });
}

#[test]
fn layers_can_be_applied_one_by_one() {
    let mut layers = sample_layers();
    let top = layers.pop().unwrap();
    let base = layers.pop().unwrap();
    let tree = apply_layer(RootfsTree::new(), base).unwrap();
    assert_eq!(tree.layers(), 1);
    assert_eq!(content(&tree, "etc/hostname"), Some(b"base\n".to_vec()));
    let tree = apply_layer(tree, top).unwrap();
    assert_eq!(tree.layers(), 2);
    assert_eq!(dump(&tree), dump(&materialize(sample_layers()).unwrap()));
    let r = apply_layer(tree, vec![file("..", "")]);
    assert_eq!(r.unwrap_err(), LayerFailure { layer: 2, entry: Some(0), name: b"..".to_vec(), error: Error::PathTraversal });
}

#[test]
fn root_directory_entry_is_accepted() {
    let tree = materialize(vec![vec![dir("./"), file("./a", "a")]]).unwrap();
    assert_eq!(paths(&tree), vec!["a"]);
}

#[test]
fn new_tree_holds_nothing() {
    let tree = RootfsTree::new();
    assert_eq!(tree.len(), 0);
    assert_eq!(tree.layers(), 0);
    assert_eq!(tree.lookup(&b"a".to_vec()), None);
    assert!(!tree.contains(&RelPath::root()));
    assert!(RelPath::root().is_root());
    assert_eq!(RelPath::root().len(), 0);
    assert_eq!(RelPath::root().to_bytes(), Vec::<u8>::new());
}
