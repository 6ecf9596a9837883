//! The root filesystem tree that the layers of an image add up to.
//!
//! The tree is a table from path to node.  Each node remembers the layer
//! that last wrote it, which is what lets a layer empty a directory of all
//! that lower layers put there and keep what it has put there itself.

use crate::archive::{implied_directory, EntryKind, Node, NodeView};
use crate::path::{is_ancestor, valid_path, within, RelPath};
use vstd::prelude::*;

verus! {

/// A node in its place: the node, and the index of the layer that last
/// wrote it or anything below it.
pub struct Placed {
    pub node: NodeView,
    pub layer: nat,
}

/// The tree without the entry at `path` and without anything below it.
/// Nothing is ever looked up through a link: what goes is what the table
/// holds at or below the path itself.
pub open spec fn remove_subtree(tree: Map<Seq<Seq<u8>>, Placed>, path: Seq<Seq<u8>>) -> Map<
    Seq<Seq<u8>>,
    Placed,
> {
    Map::new(|q: Seq<Seq<u8>>| tree.contains_key(q) && !within(path, q), |q: Seq<Seq<u8>>| tree[q])
}

/// The tree without those entries below `dir` that layers before `layer`
/// wrote and that `layer` has not touched.  The directory itself stays.
pub open spec fn clear_lower(tree: Map<Seq<Seq<u8>>, Placed>, dir: Seq<Seq<u8>>, layer: nat) -> Map<
    Seq<Seq<u8>>,
    Placed,
> {
    Map::new(
        |q: Seq<Seq<u8>>| tree.contains_key(q) && !(is_ancestor(dir, q) && tree[q].layer < layer),
        |q: Seq<Seq<u8>>| tree[q],
    )
}

/// The directory that stands at `path` once `layer` has gone through it:
/// the directory that was there, or a fresh one where there was none or
/// something else.
pub open spec fn dir_placed(tree: Map<Seq<Seq<u8>>, Placed>, path: Seq<Seq<u8>>, layer: nat) -> Placed {
    if tree.contains_key(path) && tree[path].node.kind == EntryKind::Directory {
        Placed { node: tree[path].node, layer }
    } else {
        Placed { node: implied_directory(), layer }
    }
}

/// The tree with a directory at each of the first `depth` steps towards
/// `path`.
pub open spec fn ensure_dirs(tree: Map<Seq<Seq<u8>>, Placed>, path: Seq<Seq<u8>>, depth: int, layer: nat) -> Map<
    Seq<Seq<u8>>,
    Placed,
> {
    Map::new(
        |q: Seq<Seq<u8>>| tree.contains_key(q) || (0 < q.len() <= depth && within(q, path)),
        |q: Seq<Seq<u8>>|
            if 0 < q.len() <= depth && within(q, path) {
                dir_placed(tree, q, layer)
            } else {
                tree[q]
            },
    )
}

/// What is left standing where a node is about to be written: everything,
/// if a directory is written over a directory, and otherwise everything but
/// the entry at the path and what is below it.
pub open spec fn write_base(tree: Map<Seq<Seq<u8>>, Placed>, path: Seq<Seq<u8>>, node: NodeView) -> Map<
    Seq<Seq<u8>>,
    Placed,
> {
    if node.kind == EntryKind::Directory && tree.contains_key(path) && tree[path].node.kind
        == EntryKind::Directory {
        tree
    } else {
        remove_subtree(tree, path)
    }
}

/// The tree after `layer` has written `node` at `path`.
///
/// The node replaces what was at the path, with all that was below it; only
/// a directory written over a directory keeps what is below.  Every step on
/// the way to the path is a directory afterwards: one that was there stays
/// as it was, anything else makes way for a fresh one.  All of them count
/// as touched by `layer`.  Every other entry stays as it was.
pub open spec fn write_node(tree: Map<Seq<Seq<u8>>, Placed>, path: Seq<Seq<u8>>, node: NodeView, layer: nat) -> Map<
    Seq<Seq<u8>>,
    Placed,
> {
    ensure_dirs(write_base(tree, path, node), path, path.len() - 1, layer).insert(path, Placed { node, layer })
}

/// Whether a table is a tree below the root: every path is valid and not
/// the root, the entry above each entry is there and is a directory, and
/// no entry was touched later than the directory that holds it.
pub open spec fn tree_wf(tree: Map<Seq<Seq<u8>>, Placed>) -> bool {
    forall|q: Seq<Seq<u8>>| #[trigger]
        tree.contains_key(q) ==> {
            &&& q.len() > 0
            &&& valid_path(q)
            &&& q.len() > 1 ==> tree.contains_key(q.drop_last()) && tree[q.drop_last()].node.kind
                == EntryKind::Directory && tree[q.drop_last()].layer >= tree[q].layer
        }
}

/// Whether no entry was touched by a layer after `layer`.
pub open spec fn tree_below(tree: Map<Seq<Seq<u8>>, Placed>, layer: nat) -> bool {
    forall|q: Seq<Seq<u8>>| #[trigger] tree.contains_key(q) ==> tree[q].layer <= layer
}

#[derive(Debug)]
pub(crate) struct TreeEntry {
    pub(crate) path: RelPath,
    pub(crate) node: Node,
    pub(crate) layer: usize,
}

pub(crate) open spec fn placed(entry: TreeEntry) -> Placed {
    Placed { node: entry.node@, layer: entry.layer as nat }
}

pub(crate) open spec fn has_path(entries: Seq<TreeEntry>, path: Seq<Seq<u8>>) -> bool {
    exists|i: int| 0 <= i < entries.len() && (#[trigger] entries[i]).path@ == path
}

pub(crate) open spec fn index_of(entries: Seq<TreeEntry>, path: Seq<Seq<u8>>) -> int {
    choose|i: int| 0 <= i < entries.len() && (#[trigger] entries[i]).path@ == path
}

/// The table that a list of entries with different paths stands for.
pub(crate) open spec fn model_of(entries: Seq<TreeEntry>) -> Map<Seq<Seq<u8>>, Placed> {
    Map::new(|q: Seq<Seq<u8>>| has_path(entries, q), |q: Seq<Seq<u8>>| placed(entries[index_of(entries, q)]))
}

pub(crate) open spec fn distinct(entries: Seq<TreeEntry>) -> bool {
    forall|i: int, j: int|
        0 <= i < j < entries.len() ==> (#[trigger] entries[i]).path@ != (#[trigger] entries[j]).path@
}

pub(crate) proof fn lemma_model_index(entries: Seq<TreeEntry>, i: int)
    requires
        distinct(entries),
        0 <= i < entries.len(),
    ensures
        model_of(entries).contains_key(entries[i].path@),
        model_of(entries)[entries[i].path@] == placed(entries[i]),
        index_of(entries, entries[i].path@) == i,
{
    let k = index_of(entries, entries[i].path@);
    assert(0 <= k < entries.len() && entries[k].path@ == entries[i].path@);
    if k < i {
        assert(entries[k].path@ != entries[i].path@);
    } else if i < k {
        assert(entries[i].path@ != entries[k].path@);
    }
}

pub(crate) proof fn lemma_model_update(entries: Seq<TreeEntry>, i: int, entry: TreeEntry)
    requires
        distinct(entries),
        0 <= i < entries.len(),
        entry.path@ == entries[i].path@,
    ensures
        distinct(entries.update(i, entry)),
        model_of(entries.update(i, entry)) == model_of(entries).insert(entry.path@, placed(entry)),
{
    let updated = entries.update(i, entry);
    assert(distinct(updated)) by {
        assert forall|a: int, b: int| 0 <= a < b < updated.len() implies (#[trigger] updated[a]).path@ != (
        #[trigger] updated[b]).path@ by {
            assert(updated[a].path@ == entries[a].path@);
            assert(updated[b].path@ == entries[b].path@);
        }
    }
    let want = model_of(entries).insert(entry.path@, placed(entry));
    assert forall|q: Seq<Seq<u8>>| (#[trigger] model_of(updated).dom().contains(q)) == want.dom().contains(q) && (
    want.dom().contains(q) ==> model_of(updated)[q] == want[q]) by {
        if has_path(entries, q) {
            let k = index_of(entries, q);
            assert(updated[k].path@ == q);
            lemma_model_index(updated, k);
            lemma_model_index(entries, k);
        }
        if has_path(updated, q) {
            let k = index_of(updated, q);
            assert(entries[k].path@ == q);
        }
    }
    assert(model_of(updated) =~= want);
}

pub(crate) proof fn lemma_model_push(entries: Seq<TreeEntry>, entry: TreeEntry)
    requires
        distinct(entries),
        !has_path(entries, entry.path@),
    ensures
        distinct(entries.push(entry)),
        model_of(entries.push(entry)) == model_of(entries).insert(entry.path@, placed(entry)),
{
    let pushed = entries.push(entry);
    assert(distinct(pushed)) by {
        assert forall|a: int, b: int| 0 <= a < b < pushed.len() implies (#[trigger] pushed[a]).path@ != (
        #[trigger] pushed[b]).path@ by {
            assert(pushed[a] == entries[a]);
            if b < entries.len() {
                assert(pushed[b] == entries[b]);
            }
        }
    }
    let want = model_of(entries).insert(entry.path@, placed(entry));
    assert forall|q: Seq<Seq<u8>>| (#[trigger] model_of(pushed).dom().contains(q)) == want.dom().contains(q) && (
    want.dom().contains(q) ==> model_of(pushed)[q] == want[q]) by {
        if has_path(entries, q) {
            let k = index_of(entries, q);
            assert(pushed[k] == entries[k]);
            assert(pushed[k].path@ == q);
            lemma_model_index(pushed, k);
            lemma_model_index(entries, k);
        }
        if has_path(pushed, q) {
            let k = index_of(pushed, q);
            if k < entries.len() {
                assert(entries[k].path@ == q);
            } else {
                lemma_model_index(pushed, k);
            }
        }
        if q == entry.path@ {
            assert(pushed[entries.len() as int].path@ == q);
            lemma_model_index(pushed, entries.len() as int);
        }
    }
    assert(model_of(pushed) =~= want);
}

pub(crate) proof fn lemma_model_empty(entries: Seq<TreeEntry>)
    requires
        entries.len() == 0,
    ensures
        distinct(entries),
        model_of(entries) == Map::<Seq<Seq<u8>>, Placed>::empty(),
{
    assert(model_of(entries) =~= Map::<Seq<Seq<u8>>, Placed>::empty());
}

/// Whether an entry goes when the table is pruned at `root`.
pub(crate) open spec fn doomed(root: Seq<Seq<u8>>, strict: bool, below: Option<usize>, path: Seq<Seq<u8>>, layer: nat) -> bool {
    (if strict {
        is_ancestor(root, path)
    } else {
        within(root, path)
    }) && (match below {
        None => true,
        Some(limit) => layer < limit,
    })
}

pub(crate) open spec fn prune_spec(
    tree: Map<Seq<Seq<u8>>, Placed>,
    root: Seq<Seq<u8>>,
    strict: bool,
    below: Option<usize>,
) -> Map<Seq<Seq<u8>>, Placed> {
    Map::new(
        |q: Seq<Seq<u8>>| tree.contains_key(q) && !doomed(root, strict, below, q, tree[q].layer),
        |q: Seq<Seq<u8>>| tree[q],
    )
}

pub(crate) fn find(entries: &Vec<TreeEntry>, path: &RelPath) -> (r: Option<usize>)
    ensures
        match r {
            Some(i) => i < entries@.len() && entries@[i as int].path@ == path@,
            None => !has_path(entries@, path@),
        },
{
    let mut i: usize = 0;
    while i < entries.len()
        invariant
            i <= entries@.len(),
            forall|j: int| 0 <= j < i ==> (#[trigger] entries@[j]).path@ != path@,
        decreases entries@.len() - i,
    {
        if entries[i].path.equals(path) {
            return Some(i);
        }
        i += 1;
    }
    None
}

/// Drops from the table what is at or below `root` (`strict`: only what is
/// below it), and of that only what a layer before `below` wrote, if a
/// limit is given.
pub(crate) fn prune(entries: Vec<TreeEntry>, root: &RelPath, strict: bool, below: Option<usize>) -> (r: Vec<
    TreeEntry,
>)
    requires
        distinct(entries@),
    ensures
        distinct(r@),
        model_of(r@) == prune_spec(model_of(entries@), root@, strict, below),
{
    let ghost given = entries@;
    let ghost tree = model_of(entries@);
    let mut rest = entries;
    let mut kept: Vec<TreeEntry> = Vec::new();
    while rest.len() > 0
        invariant
            distinct(given),
            tree == model_of(given),
            rest@.len() <= given.len(),
            rest@ == given.subrange(0, rest@.len() as int),
            distinct(kept@),
            forall|j: int, i: int|
                0 <= j < kept@.len() && 0 <= i < rest@.len() ==> (#[trigger] kept@[j]).path@ != (
                #[trigger] given[i]).path@,
            forall|j: int|
                0 <= j < kept@.len() ==> tree.contains_key((#[trigger] kept@[j]).path@) && tree[kept@[j].path@]
                    == placed(kept@[j]) && !doomed(root@, strict, below, kept@[j].path@, kept@[j].layer as nat),
            forall|i: int|
                rest@.len() <= i < given.len() ==> has_path(kept@, (#[trigger] given[i]).path@) || doomed(
                    root@,
                    strict,
                    below,
                    given[i].path@,
                    given[i].layer as nat,
                ),
        decreases rest@.len(),
    {
        let ghost n = rest@.len() as int;
        let ghost kept_before = kept@;
        let entry = rest.pop().unwrap();
        assert(entry == given[n - 1]);
        proof {
            lemma_model_index(given, n - 1);
        }
        let inside = if strict {
            root.is_above(&entry.path)
        } else {
            root.contains(&entry.path)
        };
        let old_enough = match below {
            None => true,
            Some(limit) => entry.layer < limit,
        };
        if !(inside && old_enough) {
            proof {
                assert(!has_path(kept@, entry.path@)) by {
                    if has_path(kept@, entry.path@) {
                        let j = index_of(kept@, entry.path@);
                        assert(kept@[j].path@ != given[n - 1].path@);
                    }
                }
                lemma_model_push(kept@, entry);
            }
            kept.push(entry);
            proof {
                assert forall|i: int| rest@.len() <= i < given.len() implies has_path(
                    kept@,
                    (#[trigger] given[i]).path@,
                ) || doomed(root@, strict, below, given[i].path@, given[i].layer as nat) by {
                    if i == n - 1 {
                        assert(kept@[kept_before.len() as int].path@ == given[i].path@);
                    } else if has_path(kept_before, given[i].path@) {
                        let j = index_of(kept_before, given[i].path@);
                        assert(kept@[j] == kept_before[j]);
                    }
                }
                assert forall|j: int, i: int| 0 <= j < kept@.len() && 0 <= i < rest@.len() implies (
                #[trigger] kept@[j]).path@ != (#[trigger] given[i]).path@ by {
                    if j < kept_before.len() {
                        assert(kept@[j] == kept_before[j]);
                    }
                }
                assert forall|j: int| 0 <= j < kept@.len() implies tree.contains_key(
                    (#[trigger] kept@[j]).path@,
                ) && tree[kept@[j].path@] == placed(kept@[j]) && !doomed(
                    root@,
                    strict,
                    below,
                    kept@[j].path@,
                    kept@[j].layer as nat,
                ) by {
                    if j < kept_before.len() {
                        assert(kept@[j] == kept_before[j]);
                    }
                }
            }
        }
    }
    proof {
        let want = prune_spec(tree, root@, strict, below);
        assert forall|q: Seq<Seq<u8>>| (#[trigger] model_of(kept@).dom().contains(q)) == want.dom().contains(q)
            && (want.dom().contains(q) ==> model_of(kept@)[q] == want[q]) by {
            if has_path(kept@, q) {
                let j = index_of(kept@, q);
                lemma_model_index(kept@, j);
            }
            if tree.contains_key(q) && !doomed(root@, strict, below, q, tree[q].layer) {
                let i = index_of(given, q);
                lemma_model_index(given, i);
                assert(has_path(kept@, given[i].path@));
            }
        }
        assert(model_of(kept@) =~= want);
    }
    kept
}

/// Puts a node at a path, in place of what the table holds there.
pub(crate) fn place(entries: &mut Vec<TreeEntry>, path: RelPath, node: Node, layer: usize)
    requires
        distinct(old(entries)@),
    ensures
        distinct(final(entries)@),
        model_of(final(entries)@) == model_of(old(entries)@).insert(
            path@,
            Placed { node: node@, layer: layer as nat },
        ),
{
    let found = find(entries, &path);
    let entry = TreeEntry { path, node, layer };
    match found {
        Some(at) => {
            proof {
                lemma_model_update(entries@, at as int, entry);
            }
            entries.set(at, entry);
        },
        None => {
            proof {
                lemma_model_push(entries@, entry);
            }
            entries.push(entry);
        },
    }
}

/// Makes sure that a directory stands at a path, touched by `layer`.
pub(crate) fn place_dir(entries: &mut Vec<TreeEntry>, path: RelPath, layer: usize)
    requires
        distinct(old(entries)@),
    ensures
        distinct(final(entries)@),
        model_of(final(entries)@) == model_of(old(entries)@).insert(
            path@,
            dir_placed(model_of(old(entries)@), path@, layer as nat),
        ),
{
    let found = find(entries, &path);
    let ghost before = entries@;
    let mut entry = TreeEntry { path, node: Node::directory(), layer };
    match found {
        Some(at) => {
            proof {
                lemma_model_index(before, at as int);
                lemma_model_update(before, at as int, entry);
            }
            entries.set_and_swap(at, &mut entry);
            if entry.node.is_directory() {
                entry.layer = layer;
                proof {
                    lemma_model_update(entries@, at as int, entry);
                    assert(entries@.update(at as int, entry) =~= before.update(at as int, entry));
                    lemma_model_update(before, at as int, entry);
                }
                entries.set(at, entry);
            }
        },
        None => {
            proof {
                lemma_model_push(entries@, entry);
            }
            entries.push(entry);
        },
    }
}

/// Writes a node at a path below the root.
pub(crate) fn write_entry(entries: Vec<TreeEntry>, path: RelPath, node: Node, layer: usize) -> (r: Vec<TreeEntry>)
    requires
        distinct(entries@),
        path@.len() > 0,
    ensures
        distinct(r@),
        model_of(r@) == write_node(model_of(entries@), path@, node@, layer as nat),
{
    let ghost tree = model_of(entries@);
    let merge = node.is_directory() && match find(&entries, &path) {
        Some(at) => {
            proof {
                lemma_model_index(entries@, at as int);
            }
            entries[at].node.is_directory()
        },
        None => false,
    };
    let mut table = if merge {
        entries
    } else {
        let pruned = prune(entries, &path, false, None);
        proof {
            assert(prune_spec(tree, path@, false, None) =~= remove_subtree(tree, path@));
        }
        pruned
    };
    let ghost base = write_base(tree, path@, node@);
    assert(model_of(table@) == base);
    let mut depth: usize = 1;
    proof {
        assert(ensure_dirs(base, path@, 0, layer as nat) =~= base);
    }
    while depth < path.len()
        invariant
            1 <= depth <= path@.len(),
            distinct(table@),
            model_of(table@) == ensure_dirs(base, path@, depth - 1, layer as nat),
        decreases path@.len() - depth,
    {
        let ghost before = model_of(table@);
        let dir = path.prefix(depth);
        place_dir(&mut table, dir, layer);
        proof {
            let step = path@.subrange(0, depth as int);
            assert(within(step, path@)) by {
                assert(path@.subrange(0, step.len() as int) =~= step);
            }
            let want = ensure_dirs(base, path@, depth as int, layer as nat);
            assert forall|q: Seq<Seq<u8>>| (#[trigger] model_of(table@).dom().contains(q)) == want.dom().contains(
                q,
            ) && (want.dom().contains(q) ==> model_of(table@)[q] == want[q]) by {
                if q != step && q.len() == depth && within(q, path@) {
                    assert(q =~= step);
                }
            }
            assert(model_of(table@) =~= want);
        }
        depth += 1;
    }
    place(&mut table, path, node, layer);
    table
}

/// Whether every entry was touched by one of the first `layers` layers.
pub open spec fn tree_before(tree: Map<Seq<Seq<u8>>, Placed>, layers: nat) -> bool {
    forall|q: Seq<Seq<u8>>| #[trigger] tree.contains_key(q) ==> tree[q].layer < layers
}

/// Deleting an entry with all that is below it leaves a tree.
pub proof fn lemma_remove_keeps_tree(tree: Map<Seq<Seq<u8>>, Placed>, path: Seq<Seq<u8>>, layer: nat)
    requires
        tree_wf(tree),
        tree_below(tree, layer),
    ensures
        tree_wf(remove_subtree(tree, path)),
        tree_below(remove_subtree(tree, path), layer),
{
    let after = remove_subtree(tree, path);
    assert forall|q: Seq<Seq<u8>>| #[trigger] after.contains_key(q) implies {
        &&& q.len() > 0
        &&& valid_path(q)
        &&& q.len() > 1 ==> after.contains_key(q.drop_last()) && after[q.drop_last()].node.kind
            == EntryKind::Directory && after[q.drop_last()].layer >= after[q].layer
    } by {
        assert(tree.contains_key(q));
        if q.len() > 1 {
            let up = q.drop_last();
            assert(tree.contains_key(up));
            if within(path, up) {
                assert(q.subrange(0, path.len() as int) =~= up.subrange(0, path.len() as int));
            }
        }
    }
    assert forall|q: Seq<Seq<u8>>| #[trigger] after.contains_key(q) implies after[q].layer <= layer by {
        assert(tree.contains_key(q));
    }
}

/// Emptying a directory of what lower layers put there leaves a tree.
pub proof fn lemma_clear_keeps_tree(tree: Map<Seq<Seq<u8>>, Placed>, dir: Seq<Seq<u8>>, layer: nat)
    requires
        tree_wf(tree),
        tree_below(tree, layer),
    ensures
        tree_wf(clear_lower(tree, dir, layer)),
        tree_below(clear_lower(tree, dir, layer), layer),
{
    let after = clear_lower(tree, dir, layer);
    assert forall|q: Seq<Seq<u8>>| #[trigger] after.contains_key(q) implies {
        &&& q.len() > 0
        &&& valid_path(q)
        &&& q.len() > 1 ==> after.contains_key(q.drop_last()) && after[q.drop_last()].node.kind
            == EntryKind::Directory && after[q.drop_last()].layer >= after[q].layer
    } by {
        assert(tree.contains_key(q));
        if q.len() > 1 {
            let up = q.drop_last();
            assert(tree.contains_key(up));
            if is_ancestor(dir, up) {
                assert(q.subrange(0, dir.len() as int) =~= up.subrange(0, dir.len() as int));
            }
        }
    }
    assert forall|q: Seq<Seq<u8>>| #[trigger] after.contains_key(q) implies after[q].layer <= layer by {
        assert(tree.contains_key(q));
    }
}

/// Writing a node at a valid path leaves a tree.
pub proof fn lemma_write_keeps_tree(
    tree: Map<Seq<Seq<u8>>, Placed>,
    path: Seq<Seq<u8>>,
    node: NodeView,
    layer: nat,
)
    requires
        tree_wf(tree),
        tree_below(tree, layer),
        valid_path(path),
        path.len() > 0,
    ensures
        tree_wf(write_node(tree, path, node, layer)),
        tree_below(write_node(tree, path, node, layer), layer),
{
    let base = write_base(tree, path, node);
    let after = write_node(tree, path, node, layer);
    lemma_remove_keeps_tree(tree, path, layer);
    assert(tree_wf(base));
    assert(within(path, path)) by {
        assert(path.subrange(0, path.len() as int) =~= path);
    }
    assert forall|q: Seq<Seq<u8>>| #[trigger] after.contains_key(q) implies {
        &&& q.len() > 0
        &&& valid_path(q)
        &&& q.len() > 1 ==> after.contains_key(q.drop_last()) && after[q.drop_last()].node.kind
            == EntryKind::Directory && after[q.drop_last()].layer >= after[q].layer
    } by {
        let up = q.drop_last();
        if within(q, path) {
            assert(path.subrange(0, q.len() as int) == q);
            assert forall|i: int| 0 <= i < q.len() implies crate::path::valid_part(#[trigger] q[i]) by {
                assert(q[i] == path[i]);
            }
            if q.len() > 1 {
                assert(path.subrange(0, up.len() as int) =~= up);
                assert(within(up, path));
                assert(up != path);
                assert(after[up] == dir_placed(base, up, layer));
            }
        } else {
            assert(base.contains_key(q));
            assert(tree.contains_key(q));
            assert(after[q] == tree[q]);
            if q.len() > 1 {
                assert(base.contains_key(up));
                assert(tree.contains_key(up));
                if up == path {
                    assert(within(path, q)) by {
                        assert(q.subrange(0, path.len() as int) =~= path);
                    }
                    assert(base == tree);
                } else if within(up, path) {
                    assert(after[up] == dir_placed(base, up, layer));
                } else {
                    assert(after[up] == tree[up]);
                }
            }
        }
    }
    assert forall|q: Seq<Seq<u8>>| #[trigger] after.contains_key(q) implies after[q].layer <= layer by {
        if !within(q, path) {
            assert(base.contains_key(q));
            assert(tree.contains_key(q));
        }
    }
}

/// The root filesystem of an image, as far as its layers have been
/// applied.
///
/// The tree is always well formed (`tree_wf`): every path in it is a valid
/// path below the root, and every entry sits in a directory.  Lookups scan
/// the whole table.
#[derive(Debug)]
pub struct RootfsTree {
    pub(crate) entries: Vec<TreeEntry>,
    pub(crate) layers: usize,
}

impl View for RootfsTree {
    type V = Map<Seq<Seq<u8>>, Placed>;

    closed spec fn view(&self) -> Map<Seq<Seq<u8>>, Placed> {
        model_of(self.entries@)
    }
}

impl RootfsTree {
    #[verifier::type_invariant]
    pub(crate) closed spec fn is_tree(self) -> bool {
        &&& distinct(self.entries@)
        &&& tree_wf(model_of(self.entries@))
        &&& tree_before(model_of(self.entries@), self.layers as nat)
    }

    /// The number of layers applied so far.
    pub closed spec fn layers_spec(&self) -> nat {
        self.layers as nat
    }

    /// The paths of the tree, each once, in the order of the table.
    pub closed spec fn listing(&self) -> Seq<Seq<Seq<u8>>> {
        Seq::new(self.entries@.len(), |i: int| self.entries@[i].path@)
    }

    /// The tree before any layer: nothing but the root.  It holds no
    /// entry, lists no path, and no layer has been applied to it.
    pub fn new() -> (tree: RootfsTree)
        ensures
            tree@ == Map::<Seq<Seq<u8>>, Placed>::empty(),
            tree.listing() == Seq::<Seq<Seq<u8>>>::empty(),
            tree.layers_spec() == 0,
    {
        let entries: Vec<TreeEntry> = Vec::new();
        proof {
            lemma_model_empty(entries@);
        }
        let tree = RootfsTree { entries, layers: 0 };
        proof {
            assert(tree.listing() =~= Seq::<Seq<Seq<u8>>>::empty());
        }
        tree
    }

    pub(crate) fn from_parts(entries: Vec<TreeEntry>, layers: usize) -> (tree: RootfsTree)
        requires
            distinct(entries@),
            tree_wf(model_of(entries@)),
            tree_before(model_of(entries@), layers as nat),
        ensures
            tree@ == model_of(entries@),
            tree.layers_spec() == layers,
    {
        RootfsTree { entries, layers }
    }

    pub(crate) fn into_parts(self) -> (parts: (Vec<TreeEntry>, usize))
        ensures
            distinct(parts.0@),
            model_of(parts.0@) == self@,
            parts.1 == self.layers_spec(),
            tree_wf(self@),
            tree_before(self@, self.layers_spec()),
    {
        proof {
            use_type_invariant(&self);
        }
        (self.entries, self.layers)
    }

    /// The number of layers applied so far.
    pub fn layers(&self) -> (n: usize)
        ensures
            n == self.layers_spec(),
            tree_wf(self@),
            tree_before(self@, self.layers_spec()),
    {
        proof {
            use_type_invariant(self);
        }
        self.layers
    }

    /// The node at a path, if there is one.
    pub fn get(&self, path: &RelPath) -> (r: Option<&Node>)
        ensures
            match r {
                Some(node) => self@.contains_key(path@) && self@[path@].node == node@,
                None => !self@.contains_key(path@),
            },
    {
        proof {
            use_type_invariant(self);
        }
        match find(&self.entries, path) {
            Some(at) => {
                proof {
                    lemma_model_index(self.entries@, at as int);
                }
                Some(&self.entries[at].node)
            },
            None => None,
        }
    }

    /// The node that a name leads to, if the name stays inside the root
    /// and there is a node at its path.
    pub fn lookup(&self, name: &Vec<u8>) -> (r: Option<&Node>)
        ensures
            match r {
                Some(node) => crate::path::normalize_spec(name@) matches Some(path) && self@.contains_key(path)
                    && self@[path].node == node@,
                None => crate::path::normalize_spec(name@) matches Some(path) ==> !self@.contains_key(path),
            },
    {
        match RelPath::normalize(name) {
            Some(path) => self.get(&path),
            None => None,
        }
    }

    /// Whether there is a node at the path.
    pub fn contains(&self, path: &RelPath) -> (r: bool)
        ensures
            r == self@.contains_key(path@),
    {
        self.get(path).is_some()
    }

    /// The index of the layer that last wrote the node at a path, or
    /// anything below it.
    pub fn layer_of(&self, path: &RelPath) -> (r: Option<usize>)
        ensures
            match r {
                Some(layer) => self@.contains_key(path@) && self@[path@].layer == layer,
                None => !self@.contains_key(path@),
            },
    {
        proof {
            use_type_invariant(self);
        }
        match find(&self.entries, path) {
            Some(at) => {
                proof {
                    lemma_model_index(self.entries@, at as int);
                }
                Some(self.entries[at].layer)
            },
            None => None,
        }
    }

    /// The number of entries.  The paths of the tree are those of the
    /// listing, and no path is listed twice.
    pub fn len(&self) -> (n: usize)
        ensures
            n == self.listing().len(),
            forall|q: Seq<Seq<u8>>| self@.contains_key(q) <==> self.listing().contains(q),
            forall|i: int, j: int| 0 <= i < j < n ==> self.listing()[i] != self.listing()[j],
    {
        proof {
            use_type_invariant(self);
            assert forall|q: Seq<Seq<u8>>| self@.contains_key(q) <==> self.listing().contains(q) by {
                if self@.contains_key(q) {
                    let i = index_of(self.entries@, q);
                    assert(self.listing()[i] == q);
                }
                if self.listing().contains(q) {
                    let i = choose|i: int| 0 <= i < self.listing().len() && self.listing()[i] == q;
                    assert(self.entries@[i].path@ == q);
                }
            }
            assert forall|i: int, j: int| 0 <= i < j < self.entries@.len() implies self.listing()[i]
                != self.listing()[j] by {
                assert(self.entries@[i].path@ != self.entries@[j].path@);
            }
        }
        self.entries.len()
    }

    /// The path of the entry at a position of the listing.
    pub fn path_at(&self, at: usize) -> (path: &RelPath)
        requires
            at < self.listing().len(),
        ensures
            path@ == self.listing()[at as int],
            self@.contains_key(path@),
            path@.len() > 0,
            valid_path(path@),
    {
        proof {
            use_type_invariant(self);
            lemma_model_index(self.entries@, at as int);
        }
        &self.entries[at].path
    }

    /// The node of the entry at a position of the listing.
    pub fn node_at(&self, at: usize) -> (node: &Node)
        requires
            at < self.listing().len(),
        ensures
            self@.contains_key(self.listing()[at as int]),
            self@[self.listing()[at as int]].node == node@,
    {
        proof {
            use_type_invariant(self);
            lemma_model_index(self.entries@, at as int);
        }
        &self.entries[at].node
    }
}

} // verus!
