//! What a layer holds: the entries of its archive, and what each entry
//! asks of the tree below it.

use crate::bytes::{copy_bytes, copy_range};
use crate::error::Error;
use crate::path::{dot, dot_dot, normalize_spec, valid_path, RelPath, DOT};
use vstd::prelude::*;

verus! {

/// What kind of thing an entry is.
#[derive(Debug, Clone, Copy, PartialEq, Eq, Structural)]
pub enum EntryKind {
    File,
    Directory,
    Symlink,
    HardLink,
    CharDevice,
    BlockDevice,
    Fifo,
}

/// Everything about an entry but its place: its kind, what it holds or
/// points at, and who owns it.
///
/// `content` is the data of a regular file, `link_target` what a symbolic
/// or hard link points at, exactly as the archive spells it, and
/// `dev_major` and `dev_minor` the numbers of a device node.  A field that
/// does not apply to the kind is carried along unread.
#[derive(Debug, PartialEq, Eq)]
pub struct Node {
    pub kind: EntryKind,
    pub content: Vec<u8>,
    pub link_target: Vec<u8>,
    pub dev_major: u32,
    pub dev_minor: u32,
    pub mode: u32,
    pub uid: u64,
    pub gid: u64,
    pub mtime: u64,
}

/// A node as plain values.
pub struct NodeView {
    pub kind: EntryKind,
    pub content: Seq<u8>,
    pub link_target: Seq<u8>,
    pub dev_major: u32,
    pub dev_minor: u32,
    pub mode: u32,
    pub uid: u64,
    pub gid: u64,
    pub mtime: u64,
}

impl View for Node {
    type V = NodeView;

    open spec fn view(&self) -> NodeView {
        NodeView {
            kind: self.kind,
            content: self.content@,
            link_target: self.link_target@,
            dev_major: self.dev_major,
            dev_minor: self.dev_minor,
            mode: self.mode,
            uid: self.uid,
            gid: self.gid,
            mtime: self.mtime,
        }
    }
}

/// The directory that is made where an entry needs one and the layer does
/// not describe it: owned by root, open to its owner, readable by all.
pub open spec fn implied_directory() -> NodeView {
    NodeView {
        kind: EntryKind::Directory,
        content: Seq::empty(),
        link_target: Seq::empty(),
        dev_major: 0,
        dev_minor: 0,
        mode: 0o755,
        uid: 0,
        gid: 0,
        mtime: 0,
    }
}

impl Node {
    /// The directory that is made where an entry needs one and the layer
    /// does not describe it.
    pub fn directory() -> (r: Node)
        ensures
            r@ == implied_directory(),
    {
        Node {
            kind: EntryKind::Directory,
            content: Vec::new(),
            link_target: Vec::new(),
            dev_major: 0,
            dev_minor: 0,
            mode: 0o755,
            uid: 0,
            gid: 0,
            mtime: 0,
        }
    }

    /// A regular file with the given content, owned by root.
    pub fn file(content: Vec<u8>, mode: u32) -> (r: Node)
        ensures
            r@ == (NodeView { kind: EntryKind::File, content: content@, mode, ..implied_directory() }),
    {
        Node {
            kind: EntryKind::File,
            content,
            link_target: Vec::new(),
            dev_major: 0,
            dev_minor: 0,
            mode,
            uid: 0,
            gid: 0,
            mtime: 0,
        }
    }

    /// A symbolic link to the given target, owned by root.
    pub fn symlink(link_target: Vec<u8>) -> (r: Node)
        ensures
            r@ == (NodeView {
                kind: EntryKind::Symlink,
                link_target: link_target@,
                mode: 0o777,
                ..implied_directory()
            }),
    {
        Node {
            kind: EntryKind::Symlink,
            content: Vec::new(),
            link_target,
            dev_major: 0,
            dev_minor: 0,
            mode: 0o777,
            uid: 0,
            gid: 0,
            mtime: 0,
        }
    }

    /// Whether the node is a directory.
    pub fn is_directory(&self) -> (r: bool)
        ensures
            r == (self@.kind == EntryKind::Directory),
    {
        match self.kind {
            EntryKind::Directory => true,
            _ => false,
        }
    }

    /// A copy of the node.
    pub fn duplicate(&self) -> (r: Node)
        ensures
            r@ == self@,
    {
        Node {
            kind: self.kind,
            content: copy_bytes(&self.content),
            link_target: copy_bytes(&self.link_target),
            dev_major: self.dev_major,
            dev_minor: self.dev_minor,
            mode: self.mode,
            uid: self.uid,
            gid: self.gid,
            mtime: self.mtime,
        }
    }
}

/// One entry of a layer's archive: the name it goes by, and the node.
#[derive(Debug, PartialEq, Eq)]
pub struct ArchiveEntry {
    pub path: Vec<u8>,
    pub node: Node,
}

/// An entry as plain values.
pub struct EntryView {
    pub path: Seq<u8>,
    pub node: NodeView,
}

impl View for ArchiveEntry {
    type V = EntryView;

    open spec fn view(&self) -> EntryView {
        EntryView { path: self.path@, node: self.node@ }
    }
}

/// The entries of a layer as plain values, in archive order.
pub open spec fn layer_view(entries: Seq<ArchiveEntry>) -> Seq<EntryView> {
    Seq::new(entries.len(), |i: int| entries[i]@)
}

/// The layers of an image as plain values, base layer first.
pub open spec fn layers_view(layers: Seq<Vec<ArchiveEntry>>) -> Seq<Seq<EntryView>> {
    Seq::new(layers.len(), |i: int| layer_view(layers[i]@))
}

/// The start of the name of every deletion marker: `.wh.`
pub open spec fn whiteout_prefix() -> Seq<u8> {
    seq![DOT, 119u8, 104u8, DOT]
}

/// The name of the marker that empties its directory: `.wh..wh..opq`
pub open spec fn opaque_marker() -> Seq<u8> {
    seq![DOT, 119u8, 104u8, DOT, DOT, 119u8, 104u8, DOT, DOT, 111u8, 112u8, 113u8]
}

/// Whether a name starts with `.wh.`
pub open spec fn has_whiteout_prefix(name: Seq<u8>) -> bool {
    name.len() >= 4 && name.subrange(0, 4) == whiteout_prefix()
}

/// What an entry asks of the tree.
#[derive(Debug, PartialEq, Eq)]
pub enum Change {
    /// Put the node at the path, in place of what is there.
    Write { path: RelPath, node: Node },
    /// Delete whatever is at the path, with all that is below it.
    Remove { path: RelPath },
    /// Delete from the directory all that lower layers put below it.
    Clear { dir: RelPath },
    /// The entry describes the root directory, which is there already.
    Nothing,
}

/// A change as plain values.
pub enum ChangeView {
    Write { path: Seq<Seq<u8>>, node: NodeView },
    Remove { path: Seq<Seq<u8>> },
    Clear { dir: Seq<Seq<u8>> },
    Nothing,
}

impl View for Change {
    type V = ChangeView;

    open spec fn view(&self) -> ChangeView {
        match *self {
            Change::Write { path, node } => ChangeView::Write { path: path@, node: node@ },
            Change::Remove { path } => ChangeView::Remove { path: path@ },
            Change::Clear { dir } => ChangeView::Clear { dir: dir@ },
            Change::Nothing => ChangeView::Nothing,
        }
    }
}

/// How reading an entry ended, as plain values.
pub open spec fn classified_view(r: Result<Change, Error>) -> Result<ChangeView, Error> {
    match r {
        Ok(change) => Ok(change@),
        Err(e) => Err(e),
    }
}

/// What a marker whose name is `.wh.` followed by `target` asks for, in
/// the directory `dir`: the deletion of `target` there.  A marker for `..`
/// reaches out of its directory and is refused as a traversal; one for
/// nothing or for `.` names no entry and makes the archive malformed.
pub open spec fn whiteout_spec(dir: Seq<Seq<u8>>, target: Seq<u8>) -> Result<ChangeView, Error> {
    if target == dot_dot() {
        Err(Error::PathTraversal)
    } else if target.len() == 0 || target == dot() {
        Err(Error::ArchiveParseError)
    } else {
        Ok(ChangeView::Remove { path: dir.push(target) })
    }
}

/// What an entry asks of the tree.
///
/// A name that would leave the root is refused with `PathTraversal`.  An
/// entry for the root itself is accepted if it is a directory.  Below the
/// root the last part of the name decides: `.wh..wh..opq` empties the
/// directory that holds it, any other name that starts with `.wh.` deletes
/// the entry named by the rest, and every other name is written.
pub open spec fn classify_spec(entry: EntryView) -> Result<ChangeView, Error> {
    match normalize_spec(entry.path) {
        None => Err(Error::PathTraversal),
        Some(path) => if path.len() == 0 {
            if entry.node.kind == EntryKind::Directory {
                Ok(ChangeView::Nothing)
            } else {
                Err(Error::ArchiveParseError)
            }
        } else if path.last() == opaque_marker() {
            Ok(ChangeView::Clear { dir: path.drop_last() })
        } else if has_whiteout_prefix(path.last()) {
            whiteout_spec(path.drop_last(), path.last().skip(4))
        } else {
            Ok(ChangeView::Write { path, node: entry.node })
        },
    }
}

/// Every path that a change names stays inside the root.
pub open spec fn change_is_safe(change: ChangeView) -> bool {
    match change {
        ChangeView::Write { path, node } => valid_path(path) && path.len() > 0,
        ChangeView::Remove { path } => valid_path(path) && path.len() > 0,
        ChangeView::Clear { dir } => valid_path(dir),
        ChangeView::Nothing => true,
    }
}

fn starts_with_whiteout(name: &Vec<u8>, from: usize) -> (r: bool)
    requires
        from + 4 <= usize::MAX,
    ensures
        r == (from + 4 <= name@.len() && name@.subrange(from as int, from + 4) == whiteout_prefix()),
{
    if name.len() < 4 || from > name.len() - 4 {
        return false;
    }
    let r = name[from] == DOT && name[from + 1] == 119 && name[from + 2] == 104 && name[from + 3] == DOT;
    proof {
        let part = name@.subrange(from as int, from + 4);
        if r {
            assert(part =~= whiteout_prefix());
        } else {
            assert(part[0] == name@[from as int]);
            assert(part[1] == name@[from + 1]);
            assert(part[2] == name@[from + 2]);
            assert(part[3] == name@[from + 3]);
        }
    }
    r
}

fn is_opaque_marker(name: &Vec<u8>) -> (r: bool)
    ensures
        r == (name@ == opaque_marker()),
{
    if name.len() != 12 {
        return false;
    }
    let r = starts_with_whiteout(name, 0) && starts_with_whiteout(name, 4) && name[8] == DOT && name[9] == 111
        && name[10] == 112 && name[11] == 113;
    proof {
        let first = name@.subrange(0, 4);
        let second = name@.subrange(4, 8);
        if r {
            assert(first[0] == name@[0] && first[1] == name@[1] && first[2] == name@[2] && first[3] == name@[3]);
            assert(second[0] == name@[4] && second[1] == name@[5] && second[2] == name@[6] && second[3]
                == name@[7]);
            assert(name@ =~= opaque_marker());
        } else if name@ == opaque_marker() {
            assert(first =~= whiteout_prefix());
            assert(second =~= whiteout_prefix());
        }
    }
    r
}

/// Reads what an entry asks of the tree.
pub fn classify(entry: ArchiveEntry) -> (r: Result<Change, Error>)
    ensures
        classified_view(r) == classify_spec(entry@),
        r matches Ok(change) ==> change_is_safe(change@),
{
    let path = match RelPath::normalize(&entry.path) {
        None => {
            return Err(Error::PathTraversal);
        },
        Some(path) => path,
    };
    let (name, dir) = match (path.file_name(), path.parent()) {
        (Some(name), Some(dir)) => (name, dir),
        _ => {
            return if entry.node.is_directory() {
                Ok(Change::Nothing)
            } else {
                Err(Error::ArchiveParseError)
            };
        },
    };
    proof {
        assert(valid_path(dir@)) by {
            assert forall|i: int| 0 <= i < dir@.len() implies crate::path::valid_part(#[trigger] dir@[i]) by {
                assert(dir@[i] == path@[i]);
            }
        }
    }
    if is_opaque_marker(name) {
        return Ok(Change::Clear { dir });
    }
    if starts_with_whiteout(name, 0) {
        let target = copy_range(name, 4, name.len());
        assert(target@ == name@.skip(4));
        return match dir.child(&target) {
            Some(victim) => {
                proof {
                    assert(valid_path(victim@)) by {
                        assert forall|i: int| 0 <= i < victim@.len() implies crate::path::valid_part(
                            #[trigger] victim@[i],
                        ) by {
                            if i < dir@.len() {
                                assert(victim@[i] == dir@[i]);
                            }
                        }
                    }
                }
                Ok(Change::Remove { path: victim })
            },
            None => {
                proof {
                    assert forall|i: int| 0 <= i < target@.len() implies target@[i] != crate::path::SLASH by {
                        assert(target@[i] == name@[i + 4]);
                    }
                }
                if target.len() == 2 && target[0] == DOT && target[1] == DOT {
                    assert(target@ =~= dot_dot());
                    Err(Error::PathTraversal)
                } else {
                    Err(Error::ArchiveParseError)
                }
            },
        };
    }
    Ok(Change::Write { path, node: entry.node })
}

} // verus!
