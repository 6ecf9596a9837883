//! Applying the layers of an image, base layer first, into one tree.

use crate::archive::{
    change_is_safe, classify, classify_spec, has_whiteout_prefix, layer_view, layers_view, opaque_marker,
    ArchiveEntry, Change, ChangeView, EntryView, Node, NodeView,
};
use crate::bytes::copy_bytes;
use crate::error::Error;
use crate::gzip::{gunzip, gzip_decoded};
use crate::tar::{parse_archive, parse_archive_spec, parsed_view};
use crate::path::{
    dot, dot_dot, is_ancestor, law_normalized_paths_stay_inside, normalize_spec, valid_part, valid_path, within,
};
use crate::rootfs::{
    clear_lower, distinct, lemma_clear_keeps_tree, lemma_remove_keeps_tree, lemma_write_keeps_tree, model_of,
    prune, prune_spec, remove_subtree, tree_before, tree_below, tree_wf, write_entry, write_node, Placed,
    RootfsTree,
    TreeEntry,
};
use vstd::prelude::*;

verus! {

/// Where applying the layers stopped, and why: the index of the layer, the
/// index of the entry in it that was refused with the name that the entry
/// goes by, and the error.  A layer that is no archive at all fails as a
/// whole, without an entry and without a name.
#[derive(Debug, PartialEq, Eq)]
pub struct LayerFailure {
    pub layer: usize,
    pub entry: Option<usize>,
    pub name: Vec<u8>,
    pub error: Error,
}

/// A failure as plain values.
pub struct FailureView {
    pub layer: nat,
    pub entry: Option<nat>,
    pub name: Seq<u8>,
    pub error: Error,
}

impl View for LayerFailure {
    type V = FailureView;

    open spec fn view(&self) -> FailureView {
        FailureView {
            layer: self.layer as nat,
            entry: match self.entry {
                Some(at) => Some(at as nat),
                None => None,
            },
            name: self.name@,
            error: self.error,
        }
    }
}

/// The tree after one change asked for by `layer`.
pub open spec fn apply_change_spec(tree: Map<Seq<Seq<u8>>, Placed>, change: ChangeView, layer: nat) -> Map<
    Seq<Seq<u8>>,
    Placed,
> {
    match change {
        ChangeView::Write { path, node } => write_node(tree, path, node, layer),
        ChangeView::Remove { path } => remove_subtree(tree, path),
        ChangeView::Clear { dir } => clear_lower(tree, dir, layer),
        ChangeView::Nothing => tree,
    }
}

/// The tree after the entries of the layer with index `layer`, applied in
/// archive order; or the first entry that is refused, with its error.
pub open spec fn apply_entries_spec(tree: Map<Seq<Seq<u8>>, Placed>, entries: Seq<EntryView>, layer: nat) -> Result<
    Map<Seq<Seq<u8>>, Placed>,
    FailureView,
>
    decreases entries.len(),
{
    if entries.len() == 0 {
        Ok(tree)
    } else {
        match apply_entries_spec(tree, entries.drop_last(), layer) {
            Err(failure) => Err(failure),
            Ok(before) => match classify_spec(entries.last()) {
                Err(error) => Err(
                    FailureView {
                        layer,
                        entry: Some((entries.len() - 1) as nat),
                        name: entries.last().path,
                        error,
                    },
                ),
                Ok(change) => Ok(apply_change_spec(before, change, layer)),
            },
        }
    }
}

/// The tree that the layers add up to, applied from the first to the last
/// onto nothing but a root; or the first entry that is refused.
pub open spec fn materialize_spec(layers: Seq<Seq<EntryView>>) -> Result<Map<Seq<Seq<u8>>, Placed>, FailureView>
    decreases layers.len(),
{
    if layers.len() == 0 {
        Ok(Map::empty())
    } else {
        match materialize_spec(layers.drop_last()) {
            Err(failure) => Err(failure),
            Ok(before) => apply_entries_spec(before, layers.last(), (layers.len() - 1) as nat),
        }
    }
}

/// How materializing ended, as plain values.
pub open spec fn outcome_view(r: Result<RootfsTree, LayerFailure>) -> Result<Map<Seq<Seq<u8>>, Placed>, FailureView> {
    match r {
        Ok(tree) => Ok(tree@),
        Err(failure) => Err(failure@),
    }
}

/// Once an entry is refused, the entries after it change nothing.
pub proof fn lemma_entry_failure_is_final(
    tree: Map<Seq<Seq<u8>>, Placed>,
    entries: Seq<EntryView>,
    layer: nat,
    upto: int,
)
    requires
        0 <= upto <= entries.len(),
        apply_entries_spec(tree, entries.subrange(0, upto), layer) is Err,
    ensures
        apply_entries_spec(tree, entries, layer) == apply_entries_spec(tree, entries.subrange(0, upto), layer),
    decreases entries.len() - upto,
{
    if upto == entries.len() {
        assert(entries.subrange(0, upto) =~= entries);
    } else {
        assert(entries.drop_last().subrange(0, upto) =~= entries.subrange(0, upto));
        lemma_entry_failure_is_final(tree, entries.drop_last(), layer, upto);
    }
}

/// Once a layer is refused, the layers after it change nothing.
pub proof fn lemma_layer_failure_is_final(layers: Seq<Seq<EntryView>>, upto: int)
    requires
        0 <= upto <= layers.len(),
        materialize_spec(layers.subrange(0, upto)) is Err,
    ensures
        materialize_spec(layers) == materialize_spec(layers.subrange(0, upto)),
    decreases layers.len() - upto,
{
    if upto == layers.len() {
        assert(layers.subrange(0, upto) =~= layers);
    } else {
        assert(layers.drop_last().subrange(0, upto) =~= layers.subrange(0, upto));
        lemma_layer_failure_is_final(layers.drop_last(), upto);
    }
}

/// Whatever an entry asks for, it asks for it inside the root.
pub proof fn lemma_changes_are_safe(entry: EntryView)
    ensures
        classify_spec(entry) matches Ok(change) ==> change_is_safe(change),
{
    law_normalized_paths_stay_inside(entry.path);
    if let Some(path) = normalize_spec(entry.path) {
        if path.len() > 0 {
            let dir = path.drop_last();
            let name = path.last();
            assert(valid_part(path[path.len() - 1]));
            assert(valid_path(dir)) by {
                assert forall|i: int| 0 <= i < dir.len() implies valid_part(#[trigger] dir[i]) by {
                    assert(dir[i] == path[i]);
                }
            }
            if name != opaque_marker() && has_whiteout_prefix(name) {
                let target = name.skip(4);
                if target != dot_dot() && target.len() != 0 && target != dot() {
                    assert(valid_part(target)) by {
                        assert forall|i: int| 0 <= i < target.len() implies target[i] != crate::path::SLASH by {
                            assert(target[i] == name[i + 4]);
                        }
                    }
                    let victim = dir.push(target);
                    assert forall|i: int| 0 <= i < victim.len() implies valid_part(#[trigger] victim[i]) by {
                        if i < dir.len() {
                            assert(victim[i] == dir[i]);
                        }
                    }
                }
            }
        }
    }
}

/// A safe change leaves a tree a tree.
pub proof fn lemma_change_keeps_tree(tree: Map<Seq<Seq<u8>>, Placed>, change: ChangeView, layer: nat)
    requires
        tree_wf(tree),
        tree_below(tree, layer),
        change_is_safe(change),
    ensures
        tree_wf(apply_change_spec(tree, change, layer)),
        tree_below(apply_change_spec(tree, change, layer), layer),
{
    match change {
        ChangeView::Write { path, node } => lemma_write_keeps_tree(tree, path, node, layer),
        ChangeView::Remove { path } => lemma_remove_keeps_tree(tree, path, layer),
        ChangeView::Clear { dir } => lemma_clear_keeps_tree(tree, dir, layer),
        ChangeView::Nothing => {},
    }
}

/// The entries of a layer leave a tree a tree.
pub proof fn lemma_entries_keep_tree(tree: Map<Seq<Seq<u8>>, Placed>, entries: Seq<EntryView>, layer: nat)
    requires
        tree_wf(tree),
        tree_below(tree, layer),
    ensures
        apply_entries_spec(tree, entries, layer) matches Ok(after) ==> tree_wf(after) && tree_below(after, layer),
    decreases entries.len(),
{
    if entries.len() > 0 {
        lemma_entries_keep_tree(tree, entries.drop_last(), layer);
        if let Ok(before) = apply_entries_spec(tree, entries.drop_last(), layer) {
            lemma_changes_are_safe(entries.last());
            if let Ok(change) = classify_spec(entries.last()) {
                lemma_change_keeps_tree(before, change, layer);
            }
        }
    }
}

fn apply_change(table: Vec<TreeEntry>, change: Change, layer: usize) -> (r: Vec<TreeEntry>)
    requires
        distinct(table@),
        change_is_safe(change@),
    ensures
        distinct(r@),
        model_of(r@) == apply_change_spec(model_of(table@), change@, layer as nat),
{
    let ghost tree = model_of(table@);
    match change {
        Change::Write { path, node } => write_entry(table, path, node, layer),
        Change::Remove { path } => {
            let r = prune(table, &path, false, None);
            proof {
                assert(prune_spec(tree, path@, false, None) =~= remove_subtree(tree, path@));
            }
            r
        },
        Change::Clear { dir } => {
            let r = prune(table, &dir, true, Some(layer));
            proof {
                assert(prune_spec(tree, dir@, true, Some(layer)) =~= clear_lower(tree, dir@, layer as nat));
            }
            r
        },
        Change::Nothing => table,
    }
}

/// Applies one more layer to a tree: its entries in archive order, each
/// overwriting, deleting or emptying as its name says.  The first entry
/// that is refused ends the run, and the tree is given up.
pub fn apply_layer(tree: RootfsTree, entries: Vec<ArchiveEntry>) -> (r: Result<RootfsTree, LayerFailure>)
    requires
        tree.layers_spec() < usize::MAX,
    ensures
        outcome_view(r) == apply_entries_spec(tree@, layer_view(entries@), tree.layers_spec()),
        r matches Ok(after) ==> after.layers_spec() == tree.layers_spec() + 1 && tree_wf(after@),
{
    let ghost start = tree@;
    let ghost given = layer_view(entries@);
    let (mut table, layer) = tree.into_parts();
    let mut rest = entries;
    let mut i: usize = 0;
    proof {
        assert(given.subrange(0, 0) =~= Seq::<EntryView>::empty());
        assert(tree_below(start, layer as nat));
    }
    while i < rest.len()
        invariant
            i <= rest@.len(),
            rest@.len() == given.len(),
            forall|j: int| i <= j < rest@.len() ==> (#[trigger] rest@[j])@ == given[j],
            distinct(table@),
            apply_entries_spec(start, given.subrange(0, i as int), layer as nat) == Ok::<
                Map<Seq<Seq<u8>>, Placed>,
                FailureView,
            >(model_of(table@)),
            tree_wf(start),
            tree_below(start, layer as nat),
            start == tree@,
            layer == tree.layers_spec(),
            given == layer_view(entries@),
        decreases rest@.len() - i,
    {
        let mut entry = ArchiveEntry { path: Vec::new(), node: Node::directory() };
        rest.set_and_swap(i, &mut entry);
        let name = copy_bytes(&entry.path);
        proof {
            let upto = given.subrange(0, i + 1);
            assert(upto.drop_last() =~= given.subrange(0, i as int));
            assert(upto.last() == given[i as int]);
            assert(entry@ == given[i as int]);
        }
        match classify(entry) {
            Err(error) => {
                proof {
                    let upto = given.subrange(0, i + 1);
                    assert(apply_entries_spec(start, upto, layer as nat) == Err::<
                        Map<Seq<Seq<u8>>, Placed>,
                        FailureView,
                    >((FailureView { layer: layer as nat, entry: Some(i as nat), name: name@, error })));
                    lemma_entry_failure_is_final(start, given, layer as nat, i + 1);
                }
                return Err(LayerFailure { layer, entry: Some(i), name, error });
            },
            Ok(change) => {
                table = apply_change(table, change, layer);
            },
        }
        i += 1;
    }
    proof {
        assert(given.subrange(0, i as int) =~= given);
        lemma_entries_keep_tree(start, given, layer as nat);
    }
    Ok(RootfsTree::from_parts(table, layer + 1))
}

/// Builds the root filesystem of an image from its layers, base layer
/// first.
///
/// The layers are applied strictly in order, and the entries of each layer
/// in archive order.  The result depends on nothing but what the layers
/// hold.  The first entry that is refused ends the run.
pub fn materialize(layers: Vec<Vec<ArchiveEntry>>) -> (r: Result<RootfsTree, LayerFailure>)
    ensures
        outcome_view(r) == materialize_spec(layers_view(layers@)),
        r matches Ok(tree) ==> tree.layers_spec() == layers@.len() && tree_wf(tree@),
{
    let ghost given = layers_view(layers@);
    let mut rest = layers;
    let mut tree = RootfsTree::new();
    let mut i: usize = 0;
    proof {
        assert(given.subrange(0, 0) =~= Seq::<Seq<EntryView>>::empty());
    }
    while i < rest.len()
        invariant
            i <= rest@.len(),
            rest@.len() == given.len(),
            forall|j: int| i <= j < rest@.len() ==> layer_view((#[trigger] rest@[j])@) == given[j],
            tree.layers_spec() == i,
            given == layers_view(layers@),
            materialize_spec(given.subrange(0, i as int)) == Ok::<Map<Seq<Seq<u8>>, Placed>, FailureView>(
                tree@,
            ),
        decreases rest@.len() - i,
    {
        let mut entries: Vec<ArchiveEntry> = Vec::new();
        let ghost taken = rest@[i as int];
        let ghost before = tree@;
        assert(layer_view(taken@) == given[i as int]);
        rest.set_and_swap(i, &mut entries);
        proof {
            let upto = given.subrange(0, i + 1);
            assert(upto.drop_last() =~= given.subrange(0, i as int));
            assert(upto.last() == given[i as int]);
            assert(entries == taken);
            assert(materialize_spec(upto) == apply_entries_spec(before, given[i as int], i as nat));
        }
        match apply_layer(tree, entries) {
            Err(failure) => {
                proof {
                    lemma_layer_failure_is_final(given, i + 1);
                }
                return Err(failure);
            },
            Ok(after) => {
                tree = after;
            },
        }
        i += 1;
    }
    proof {
        assert(given.subrange(0, i as int) =~= given);
    }
    let applied: usize = tree.layers();
    Ok(tree)
}

/// Well-formedness survives every layer: whatever the layers hold, the
/// tree they add up to has only valid paths below the root, each in a
/// directory, and nothing in it is newer than the last layer.
pub proof fn law_tree_stays_inside_root(layers: Seq<Seq<EntryView>>)
    ensures
        materialize_spec(layers) matches Ok(tree) ==> tree_wf(tree) && tree_before(tree, layers.len()),
    decreases layers.len(),
{
    if layers.len() > 0 {
        law_tree_stays_inside_root(layers.drop_last());
        if let Ok(before) = materialize_spec(layers.drop_last()) {
            let layer = (layers.len() - 1) as nat;
            assert(tree_below(before, layer));
            lemma_entries_keep_tree(before, layers.last(), layer);
        }
    }
}

/// Materializing is repeatable: two runs over layers that hold the same
/// entries end in the same tree, or stop at the same entry with the same
/// error.
pub proof fn law_materialize_is_repeatable(first: Seq<Vec<ArchiveEntry>>, second: Seq<Vec<ArchiveEntry>>)
    requires
        layers_view(first) == layers_view(second),
    ensures
        materialize_spec(layers_view(first)) == materialize_spec(layers_view(second)),
{
}

/// An entry named `.wh.` followed by a plain name, in a directory, asks
/// for the deletion of that name in that directory.
pub proof fn law_whiteout_names_its_target(entry: EntryView, dir: Seq<Seq<u8>>, name: Seq<u8>)
    requires
        normalize_spec(entry.path) == Some(dir.push(crate::archive::whiteout_prefix() + name)),
        valid_part(name),
        crate::archive::whiteout_prefix() + name != opaque_marker(),
    ensures
        classify_spec(entry) == Ok::<ChangeView, Error>((ChangeView::Remove { path: dir.push(name) })),
{
    let marker = crate::archive::whiteout_prefix() + name;
    let path = dir.push(marker);
    assert(path.last() == marker);
    assert(path.drop_last() =~= dir);
    assert(marker.subrange(0, 4) =~= crate::archive::whiteout_prefix());
    assert(marker.skip(4) =~= name);
}

/// A deletion takes the entry at its path and everything below it, and
/// nothing else: every other entry stays as it was.
pub proof fn law_whiteout_deletes_its_target_only(
    tree: Map<Seq<Seq<u8>>, Placed>,
    path: Seq<Seq<u8>>,
    layer: nat,
    q: Seq<Seq<u8>>,
)
    ensures
        !apply_change_spec(tree, ChangeView::Remove { path }, layer).contains_key(path),
        within(path, q) ==> !apply_change_spec(tree, ChangeView::Remove { path }, layer).contains_key(q),
        !within(path, q) ==> (apply_change_spec(tree, ChangeView::Remove { path }, layer).contains_key(q)
            <==> tree.contains_key(q)),
        !within(path, q) && tree.contains_key(q) ==> apply_change_spec(
            tree,
            ChangeView::Remove { path },
            layer,
        )[q] == tree[q],
{
    assert(path.subrange(0, path.len() as int) =~= path);
}

/// An opaque marker hides what lower layers put below its directory and
/// nothing else: below the directory only what this layer has touched
/// stays, and the directory itself and everything outside it stay as they
/// were.
pub proof fn law_opaque_marker_hides_lower_layers(
    tree: Map<Seq<Seq<u8>>, Placed>,
    dir: Seq<Seq<u8>>,
    layer: nat,
    q: Seq<Seq<u8>>,
)
    ensures
        is_ancestor(dir, q) ==> (apply_change_spec(tree, ChangeView::Clear { dir }, layer).contains_key(q) <==> (
        tree.contains_key(q) && tree[q].layer >= layer)),
        !is_ancestor(dir, q) ==> (apply_change_spec(tree, ChangeView::Clear { dir }, layer).contains_key(q)
            <==> tree.contains_key(q)),
        apply_change_spec(tree, ChangeView::Clear { dir }, layer).contains_key(q) ==> apply_change_spec(
            tree,
            ChangeView::Clear { dir },
            layer,
        )[q] == tree[q],
        tree_before(tree, layer) && is_ancestor(dir, q) ==> !apply_change_spec(
            tree,
            ChangeView::Clear { dir },
            layer,
        ).contains_key(q),
{
}

/// After a layer has emptied a directory that only lower layers had
/// filled, and has then written one entry straight into it, that entry is
/// all there is below the directory.
pub proof fn law_opaque_directory_holds_only_new_entries(
    tree: Map<Seq<Seq<u8>>, Placed>,
    dir: Seq<Seq<u8>>,
    name: Seq<u8>,
    node: NodeView,
    layer: nat,
    q: Seq<Seq<u8>>,
)
    requires
        tree_before(tree, layer),
        is_ancestor(dir, q),
    ensures
        write_node(clear_lower(tree, dir, layer), dir.push(name), node, layer).contains_key(q) <==> q == dir.push(
            name,
        ),
{
    let cleared = clear_lower(tree, dir, layer);
    let path = dir.push(name);
    let after = write_node(cleared, path, node, layer);
    assert(path.subrange(0, path.len() as int) =~= path);
    if after.contains_key(q) && q != path {
        assert(!cleared.contains_key(q));
        assert(within(q, path));
        assert(q.len() == path.len());
        assert(q =~= path);
    }
}

/// A write is local: an entry that is neither at or below the path that
/// is written, nor on the way to it, stays as it was, or stays absent.
pub proof fn law_write_leaves_other_entries(
    tree: Map<Seq<Seq<u8>>, Placed>,
    path: Seq<Seq<u8>>,
    node: NodeView,
    layer: nat,
    q: Seq<Seq<u8>>,
)
    requires
        !within(path, q),
        !within(q, path),
    ensures
        write_node(tree, path, node, layer).contains_key(q) <==> tree.contains_key(q),
        tree.contains_key(q) ==> write_node(tree, path, node, layer)[q] == tree[q],
{
    assert(path.subrange(0, path.len() as int) =~= path);
}

/// The last write wins: a node written at a path is what the path holds
/// afterwards, whatever was there, and so of two writes to one path the
/// later one shows.
pub proof fn law_last_write_wins(
    tree: Map<Seq<Seq<u8>>, Placed>,
    path: Seq<Seq<u8>>,
    first: NodeView,
    second: NodeView,
    lower: nat,
    upper: nat,
)
    ensures
        write_node(tree, path, second, upper).contains_key(path),
        write_node(tree, path, second, upper)[path] == (Placed { node: second, layer: upper }),
        write_node(write_node(tree, path, first, lower), path, second, upper)[path] == (Placed {
            node: second,
            layer: upper,
        }),
{
}

/// The last entry of the last layer, if it is a write and nothing before
/// it is refused, is in the finished tree exactly as the layer gives it.
pub proof fn law_topmost_write_shows(layers: Seq<Seq<EntryView>>, path: Seq<Seq<u8>>, node: NodeView)
    requires
        layers.len() > 0,
        layers.last().len() > 0,
        classify_spec(layers.last().last()) == Ok::<ChangeView, Error>((ChangeView::Write { path, node })),
        materialize_spec(layers) is Ok,
    ensures
        materialize_spec(layers)->Ok_0.contains_key(path),
        materialize_spec(layers)->Ok_0[path] == (Placed { node, layer: (layers.len() - 1) as nat }),
{
    let before = materialize_spec(layers.drop_last())->Ok_0;
    let layer = (layers.len() - 1) as nat;
    let entries = layers.last();
    assert(materialize_spec(layers) == apply_entries_spec(before, entries, layer));
    let upto = apply_entries_spec(before, entries.drop_last(), layer)->Ok_0;
    assert(apply_entries_spec(before, entries, layer) == Ok::<Map<Seq<Seq<u8>>, Placed>, FailureView>(
        write_node(upto, path, node, layer),
    ));
}

/// An entry whose name would leave the root is refused with
/// `PathTraversal`, and with it the whole layer: no tree comes out.
pub proof fn law_escaping_entry_is_refused(
    tree: Map<Seq<Seq<u8>>, Placed>,
    entries: Seq<EntryView>,
    layer: nat,
    at: int,
)
    requires
        0 <= at < entries.len(),
        normalize_spec(entries[at].path) is None,
        apply_entries_spec(tree, entries.subrange(0, at), layer) is Ok,
    ensures
        apply_entries_spec(tree, entries, layer) == Err::<Map<Seq<Seq<u8>>, Placed>, FailureView>(
            (FailureView { layer, entry: Some(at as nat), name: entries[at].path, error: Error::PathTraversal }),
        ),
{
    let upto = entries.subrange(0, at + 1);
    assert(upto.drop_last() =~= entries.subrange(0, at));
    assert(upto.last() == entries[at]);
    lemma_entry_failure_is_final(tree, entries, layer, at + 1);
}

/// Whether a blob starts with the two bytes that mark gzip data.
pub open spec fn is_gzip(blob: Seq<u8>) -> bool {
    blob.len() >= 2 && blob[0] == 0x1f && blob[1] == 0x8b
}

/// The entries of a layer as it comes from the registry: of the archive
/// that the blob is, or, where the blob is gzip data, of the archive that
/// it unpacks to.  `None` for a blob that is neither.
pub open spec fn decode_layer_spec(blob: Seq<u8>) -> Option<Seq<EntryView>> {
    if is_gzip(blob) {
        match gzip_decoded(blob) {
            Some(archive) => parse_archive_spec(archive),
            None => None,
        }
    } else {
        parse_archive_spec(blob)
    }
}

/// Reads a layer as it comes from the registry, unpacking it first where
/// it is compressed.
pub fn decode_layer(blob: &Vec<u8>) -> (r: Result<Vec<ArchiveEntry>, Error>)
    ensures
        parsed_view(r) == decode_layer_spec(blob@),
        r matches Err(e) ==> e == Error::ArchiveParseError,
{
    if blob.len() >= 2 && blob[0] == 0x1f && blob[1] == 0x8b {
        match gunzip(blob) {
            Some(archive) => parse_archive(&archive),
            None => Err(Error::ArchiveParseError),
        }
    } else {
        parse_archive(blob)
    }
}

/// The tree that the blobs of the layers add up to, each blob read and
/// applied in its turn; or the first thing that is refused: a blob that is
/// no archive, or an entry.
pub open spec fn unpack_spec(blobs: Seq<Seq<u8>>) -> Result<Map<Seq<Seq<u8>>, Placed>, FailureView>
    decreases blobs.len(),
{
    if blobs.len() == 0 {
        Ok(Map::empty())
    } else {
        match unpack_spec(blobs.drop_last()) {
            Err(failure) => Err(failure),
            Ok(before) => match decode_layer_spec(blobs.last()) {
                None => Err(
                    FailureView {
                        layer: (blobs.len() - 1) as nat,
                        entry: None,
                        name: Seq::empty(),
                        error: Error::ArchiveParseError,
                    },
                ),
                Some(entries) => apply_entries_spec(before, entries, (blobs.len() - 1) as nat),
            },
        }
    }
}

/// Once a blob is refused, the blobs after it change nothing.
pub proof fn lemma_blob_failure_is_final(blobs: Seq<Seq<u8>>, upto: int)
    requires
        0 <= upto <= blobs.len(),
        unpack_spec(blobs.subrange(0, upto)) is Err,
    ensures
        unpack_spec(blobs) == unpack_spec(blobs.subrange(0, upto)),
    decreases blobs.len() - upto,
{
    if upto == blobs.len() {
        assert(blobs.subrange(0, upto) =~= blobs);
    } else {
        assert(blobs.drop_last().subrange(0, upto) =~= blobs.subrange(0, upto));
        lemma_blob_failure_is_final(blobs.drop_last(), upto);
    }
}

/// Builds the root filesystem of an image from the blobs of its layers,
/// base layer first.
pub fn unpack(blobs: &Vec<Vec<u8>>) -> (r: Result<RootfsTree, LayerFailure>)
    ensures
        outcome_view(r) == unpack_spec(crate::fetcher::blob_views(blobs@)),
        r matches Ok(tree) ==> tree.layers_spec() == blobs@.len() && tree_wf(tree@),
{
    let ghost views = crate::fetcher::blob_views(blobs@);
    let mut tree = RootfsTree::new();
    let mut i: usize = 0;
    proof {
        assert(views.subrange(0, 0) =~= Seq::<Seq<u8>>::empty());
    }
    while i < blobs.len()
        invariant
            i <= blobs@.len(),
            views == crate::fetcher::blob_views(blobs@),
            tree.layers_spec() == i,
            unpack_spec(views.subrange(0, i as int)) == Ok::<Map<Seq<Seq<u8>>, Placed>, FailureView>(tree@),
        decreases blobs@.len() - i,
    {
        proof {
            let upto = views.subrange(0, i + 1);
            assert(upto.drop_last() =~= views.subrange(0, i as int));
            assert(upto.last() == blobs@[i as int]@);
        }
        let entries = match decode_layer(&blobs[i]) {
            Ok(entries) => entries,
            Err(error) => {
                proof {
                    lemma_blob_failure_is_final(views, i + 1);
                }
                return Err(LayerFailure { layer: i, entry: None, name: Vec::new(), error });
            },
        };
        match apply_layer(tree, entries) {
            Err(failure) => {
                proof {
                    lemma_blob_failure_is_final(views, i + 1);
                }
                return Err(failure);
            },
            Ok(after) => {
                tree = after;
            },
        }
        i += 1;
    }
    proof {
        assert(views.subrange(0, i as int) =~= views);
    }
    let applied: usize = tree.layers();
    Ok(tree)
}

/// Unpacking blobs that can all be read gives what materializing their
/// entries gives.
pub proof fn law_unpack_is_decode_then_materialize(blobs: Seq<Seq<u8>>, layers: Seq<Seq<EntryView>>)
    requires
        layers.len() == blobs.len(),
        forall|i: int| 0 <= i < blobs.len() ==> decode_layer_spec(#[trigger] blobs[i]) == Some(layers[i]),
    ensures
        unpack_spec(blobs) == materialize_spec(layers),
    decreases blobs.len(),
{
    if blobs.len() > 0 {
        assert forall|i: int| 0 <= i < blobs.drop_last().len() implies decode_layer_spec(
            #[trigger] blobs.drop_last()[i],
        ) == Some(layers.drop_last()[i]) by {
            assert(blobs.drop_last()[i] == blobs[i]);
        }
        law_unpack_is_decode_then_materialize(blobs.drop_last(), layers.drop_last());
        assert(decode_layer_spec(blobs[blobs.len() - 1]) == Some(layers[blobs.len() - 1]));
    }
}

/// Whether a change asked for by `layer` can alter the entry at `path`
/// that `written` was the last layer to touch: a write at the path, below
/// it or on the way to it, a deletion at the path or above it, and the
/// emptying of a directory above it by a later layer.
pub open spec fn touches(change: ChangeView, layer: nat, path: Seq<Seq<u8>>, written: nat) -> bool {
    match change {
        ChangeView::Write { path: target, node } => within(target, path) || within(path, target),
        ChangeView::Remove { path: target } => within(target, path),
        ChangeView::Clear { dir } => is_ancestor(dir, path) && written < layer,
        ChangeView::Nothing => false,
    }
}

/// Whether none of the entries from position `from` on can alter the
/// entry at `path`.
pub open spec fn leave_alone(entries: Seq<EntryView>, from: int, layer: nat, path: Seq<Seq<u8>>, written: nat) -> bool {
    forall|i: int|
        from <= i < entries.len() ==> (classify_spec(#[trigger] entries[i]) matches Ok(change) ==> !touches(
            change,
            layer,
            path,
            written,
        ))
}

/// An entry changes only through a change that touches it: after any
/// other change it is in the tree as it was before.
pub proof fn law_untouched_entry_survives(
    tree: Map<Seq<Seq<u8>>, Placed>,
    change: ChangeView,
    layer: nat,
    path: Seq<Seq<u8>>,
)
    requires
        tree.contains_key(path),
        !touches(change, layer, path, tree[path].layer),
    ensures
        apply_change_spec(tree, change, layer).contains_key(path),
        apply_change_spec(tree, change, layer)[path] == tree[path],
{
    match change {
        ChangeView::Write { path: target, node } => {
            law_write_leaves_other_entries(tree, target, node, layer, path);
        },
        _ => {},
    }
}

/// What a layer has reached at some point stays to the end of the layer,
/// unless a later entry of the layer touches it: the content of a path is
/// always that of the last entry that wrote it and was not hidden since.
pub proof fn law_entry_survives_rest_of_layer(
    tree: Map<Seq<Seq<u8>>, Placed>,
    entries: Seq<EntryView>,
    layer: nat,
    from: int,
    path: Seq<Seq<u8>>,
)
    requires
        0 <= from <= entries.len(),
        apply_entries_spec(tree, entries, layer) is Ok,
        apply_entries_spec(tree, entries.subrange(0, from), layer) matches Ok(reached) && reached.contains_key(path)
            && leave_alone(entries, from, layer, path, reached[path].layer),
    ensures
        apply_entries_spec(tree, entries, layer)->Ok_0.contains_key(path),
        apply_entries_spec(tree, entries, layer)->Ok_0[path] == apply_entries_spec(
            tree,
            entries.subrange(0, from),
            layer,
        )->Ok_0[path],
    decreases entries.len() - from,
{
    if from == entries.len() {
        assert(entries.subrange(0, from) =~= entries);
    } else {
        let reached = apply_entries_spec(tree, entries.subrange(0, from), layer)->Ok_0;
        let shorter = entries.drop_last();
        assert(shorter.subrange(0, from) =~= entries.subrange(0, from));
        assert(leave_alone(shorter, from, layer, path, reached[path].layer)) by {
            assert forall|i: int| from <= i < shorter.len() implies (classify_spec(
                #[trigger] shorter[i],
            ) matches Ok(change) ==> !touches(change, layer, path, reached[path].layer)) by {
                assert(shorter[i] == entries[i]);
            }
        }
        law_entry_survives_rest_of_layer(tree, shorter, layer, from, path);
        let before = apply_entries_spec(tree, shorter, layer)->Ok_0;
        let last = entries[entries.len() - 1];
        assert(last == entries.last());
        let change = classify_spec(last)->Ok_0;
        law_untouched_entry_survives(before, change, layer, path);
    }
}

/// Whether none of the layers from position `from` on holds an entry that
/// can alter the entry at `path`.
pub open spec fn layers_leave_alone(
    layers: Seq<Seq<EntryView>>,
    from: int,
    path: Seq<Seq<u8>>,
    written: nat,
) -> bool {
    forall|k: int| from <= k < layers.len() ==> leave_alone(#[trigger] layers[k], 0, k as nat, path, written)
}

/// What the lower layers have reached stays in the finished tree, unless
/// an entry of a higher layer touches it: every path of the finished tree
/// holds what the highest layer that wrote it put there, as long as no
/// layer above that one has hidden it.
pub proof fn law_entry_survives_later_layers(layers: Seq<Seq<EntryView>>, from: int, path: Seq<Seq<u8>>)
    requires
        0 <= from <= layers.len(),
        materialize_spec(layers) is Ok,
        materialize_spec(layers.subrange(0, from)) matches Ok(reached) && reached.contains_key(path)
            && layers_leave_alone(layers, from, path, reached[path].layer),
    ensures
        materialize_spec(layers)->Ok_0.contains_key(path),
        materialize_spec(layers)->Ok_0[path] == materialize_spec(layers.subrange(0, from))->Ok_0[path],
    decreases layers.len() - from,
{
    if from == layers.len() {
        assert(layers.subrange(0, from) =~= layers);
    } else {
        let reached = materialize_spec(layers.subrange(0, from))->Ok_0;
        let lower = layers.drop_last();
        assert(lower.subrange(0, from) =~= layers.subrange(0, from));
        assert(layers_leave_alone(lower, from, path, reached[path].layer)) by {
            assert forall|k: int| from <= k < lower.len() implies leave_alone(
                #[trigger] lower[k],
                0,
                k as nat,
                path,
                reached[path].layer,
            ) by {
                assert(lower[k] == layers[k]);
            }
        }
        law_entry_survives_later_layers(lower, from, path);
        let before = materialize_spec(lower)->Ok_0;
        let top = layers[layers.len() - 1];
        let layer = (layers.len() - 1) as nat;
        assert(top == layers.last());
        assert(top.subrange(0, 0) =~= Seq::<EntryView>::empty());
        law_entry_survives_rest_of_layer(before, top, layer, 0, path);
    }
}

} // verus!
