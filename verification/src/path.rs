//! Paths inside a root filesystem.
//!
//! An archive names its entries by byte strings such as `./usr/bin/env` or
//! `etc/`.  Inside the tree a path is the list of its parts, from the root
//! downwards, with the empty list standing for the root itself.  Turning a
//! name into such a list is where a name that would leave the root is
//! caught.

use crate::bytes::{bytes_equal, copy_bytes};
use vstd::prelude::*;

verus! {

/// The byte that separates the parts of a name.
pub const SLASH: u8 = 47;

/// The byte of which the names `.` and `..` are made.
pub const DOT: u8 = 46;

/// The name `.`, which stands for the directory itself.
pub open spec fn dot() -> Seq<u8> {
    seq![DOT]
}

/// The name `..`, which stands for the directory above.
pub open spec fn dot_dot() -> Seq<u8> {
    seq![DOT, DOT]
}

/// Whether a byte string can be one part of a path: it is not empty, holds
/// no separator, and is neither `.` nor `..`.
pub open spec fn valid_part(part: Seq<u8>) -> bool {
    &&& part.len() > 0
    &&& forall|i: int| 0 <= i < part.len() ==> part[i] != SLASH
    &&& part != dot()
    &&& part != dot_dot()
}

/// Whether every part of a path is valid.  A valid path names a place
/// below the root, or the root itself, and nothing else.
pub open spec fn valid_path(path: Seq<Seq<u8>>) -> bool {
    forall|i: int| 0 <= i < path.len() ==> valid_part(#[trigger] path[i])
}

/// Whether `dir` is `path` itself or a directory above it.
pub open spec fn within(dir: Seq<Seq<u8>>, path: Seq<Seq<u8>>) -> bool {
    dir.len() <= path.len() && path.subrange(0, dir.len() as int) == dir
}

/// Whether `dir` is a directory above `path`.
pub open spec fn is_ancestor(dir: Seq<Seq<u8>>, path: Seq<Seq<u8>>) -> bool {
    dir.len() < path.len() && path.subrange(0, dir.len() as int) == dir
}

/// The pieces between the separators of a name; a name without a separator
/// is one piece, and two separators in a row hold an empty piece.
pub open spec fn split_path(raw: Seq<u8>) -> Seq<Seq<u8>>
    decreases raw.len(),
{
    if raw.len() == 0 {
        seq![Seq::<u8>::empty()]
    } else {
        let before = split_path(raw.drop_last());
        if raw.last() == SLASH {
            before.push(Seq::<u8>::empty())
        } else {
            before.drop_last().push(before.last().push(raw.last()))
        }
    }
}

/// Walks one piece further from the place reached so far: an empty piece
/// and `.` stay there, `..` goes up and fails at the root, and any other
/// piece goes down.  A walk that has failed stays failed.
pub open spec fn step_segment(reached: Option<Seq<Seq<u8>>>, segment: Seq<u8>) -> Option<Seq<Seq<u8>>> {
    match reached {
        None => None,
        Some(parts) => if segment.len() == 0 || segment == dot() {
            Some(parts)
        } else if segment == dot_dot() {
            if parts.len() == 0 {
                None
            } else {
                Some(parts.drop_last())
            }
        } else {
            Some(parts.push(segment))
        },
    }
}

/// The place that a walk along the pieces, starting at the root, ends in;
/// `None` if the walk ever goes above the root.
pub open spec fn resolve_segments(segments: Seq<Seq<u8>>) -> Option<Seq<Seq<u8>>>
    decreases segments.len(),
{
    if segments.len() == 0 {
        Some(Seq::<Seq<u8>>::empty())
    } else {
        step_segment(resolve_segments(segments.drop_last()), segments.last())
    }
}

/// The path that a name stands for, or `None` for a name that would leave
/// the root: one that starts with a separator, or one whose `..` pieces go
/// above the root at any point.
pub open spec fn normalize_spec(raw: Seq<u8>) -> Option<Seq<Seq<u8>>> {
    if raw.len() > 0 && raw[0] == SLASH {
        None
    } else {
        resolve_segments(split_path(raw))
    }
}

/// The parts of a path, each as a plain byte string.
pub open spec fn parts_view(parts: Seq<Vec<u8>>) -> Seq<Seq<u8>> {
    Seq::new(parts.len(), |i: int| parts[i]@)
}

/// The name that the parts spell when joined by separators.
pub open spec fn join_spec(path: Seq<Seq<u8>>) -> Seq<u8>
    decreases path.len(),
{
    if path.len() == 0 {
        Seq::<u8>::empty()
    } else if path.len() == 1 {
        path[0]
    } else {
        join_spec(path.drop_last()).push(SLASH) + path.last()
    }
}

/// A path below a root: the names of the directories to go through, and
/// last the name of the entry itself.  The empty path is the root.
///
/// Every part of a path is a valid name, so no path leads out of the root.
#[derive(Debug, PartialEq, Eq)]
pub struct RelPath {
    parts: Vec<Vec<u8>>,
}

impl View for RelPath {
    type V = Seq<Seq<u8>>;

    closed spec fn view(&self) -> Seq<Seq<u8>> {
        parts_view(self.parts@)
    }
}

fn is_dot(segment: &Vec<u8>) -> (r: bool)
    ensures
        r == (segment@ == dot()),
{
    let r = segment.len() == 1 && segment[0] == DOT;
    proof {
        if r {
            assert(segment@ =~= dot());
        }
    }
    r
}

fn is_dot_dot(segment: &Vec<u8>) -> (r: bool)
    ensures
        r == (segment@ == dot_dot()),
{
    let r = segment.len() == 2 && segment[0] == DOT && segment[1] == DOT;
    proof {
        if r {
            assert(segment@ =~= dot_dot());
        }
    }
    r
}

/// Checks whether a byte string can be one part of a path.
pub fn is_valid_part(part: &Vec<u8>) -> (r: bool)
    ensures
        r == valid_part(part@),
{
    if part.len() == 0 || is_dot(part) || is_dot_dot(part) {
        return false;
    }
    let mut i: usize = 0;
    while i < part.len()
        invariant
            i <= part@.len(),
            forall|j: int| 0 <= j < i ==> part@[j] != SLASH,
        decreases part@.len() - i,
    {
        if part[i] == SLASH {
            return false;
        }
        i += 1;
    }
    true
}

/// Walks one piece further.  `escaped` says whether the walk has failed;
/// while it has not, `parts` is the place reached.
fn walk_segment(parts: &mut Vec<Vec<u8>>, segment: Vec<u8>, escaped: bool) -> (now_escaped: bool)
    requires
        forall|i: int| 0 <= i < segment@.len() ==> segment@[i] != SLASH,
        !escaped ==> valid_path(parts_view(old(parts)@)),
    ensures
        (if now_escaped {
            None
        } else {
            Some(parts_view(final(parts)@))
        }) == step_segment(
            if escaped {
                None
            } else {
                Some(parts_view(old(parts)@))
            },
            segment@,
        ),
        !now_escaped ==> valid_path(parts_view(final(parts)@)),
{
    if escaped {
        return true;
    }
    if segment.len() == 0 || is_dot(&segment) {
        return false;
    }
    if is_dot_dot(&segment) {
        if parts.len() == 0 {
            return true;
        }
        let ghost before = parts@;
        parts.pop();
        assert(parts_view(parts@) =~= parts_view(before).drop_last());
        return false;
    }
    let ghost before = parts@;
    parts.push(segment);
    assert(parts_view(parts@) =~= parts_view(before).push(segment@));
    false
}

impl RelPath {
    #[verifier::type_invariant]
    spec fn parts_are_valid(self) -> bool {
        valid_path(parts_view(self.parts@))
    }

    /// The root.
    pub fn root() -> (r: RelPath)
        ensures
            r@ == Seq::<Seq<u8>>::empty(),
    {
        let parts: Vec<Vec<u8>> = Vec::new();
        assert(parts_view(parts@) =~= Seq::<Seq<u8>>::empty());
        RelPath { parts }
    }

    /// Reads a name as a path below the root.  Empty pieces and `.` are
    /// dropped and `..` goes up one directory; a name that starts with a
    /// separator, or that goes above the root at any point, gives `None`.
    pub fn normalize(raw: &Vec<u8>) -> (r: Option<RelPath>)
        ensures
            match r {
                Some(path) => normalize_spec(raw@) == Some(path@) && valid_path(path@),
                None => normalize_spec(raw@) is None,
            },
    {
        if raw.len() > 0 && raw[0] == SLASH {
            return None;
        }
        let mut parts: Vec<Vec<u8>> = Vec::new();
        let mut current: Vec<u8> = Vec::new();
        let mut escaped = false;
        let ghost mut done: Seq<Seq<u8>> = Seq::empty();
        let mut i: usize = 0;
        proof {
            assert(raw@.subrange(0, 0) =~= Seq::<u8>::empty());
            assert(done.push(current@) =~= seq![Seq::<u8>::empty()]);
            assert(parts_view(parts@) =~= Seq::<Seq<u8>>::empty());
        }
        while i < raw.len()
            invariant
                i <= raw@.len(),
                split_path(raw@.subrange(0, i as int)) == done.push(current@),
                resolve_segments(done) == (if escaped {
                    None
                } else {
                    Some(parts_view(parts@))
                }),
                !escaped ==> valid_path(parts_view(parts@)),
                forall|j: int| 0 <= j < current@.len() ==> current@[j] != SLASH,
            decreases raw@.len() - i,
        {
            let byte = raw[i];
            proof {
                let upto = raw@.subrange(0, i + 1);
                assert(upto.drop_last() =~= raw@.subrange(0, i as int));
                assert(upto.last() == byte);
                assert(done.push(current@).drop_last() =~= done);
                assert(done.push(current@).last() == current@);
            }
            if byte == SLASH {
                let ghost segment = current@;
                let mut finished: Vec<u8> = Vec::new();
                core::mem::swap(&mut finished, &mut current);
                escaped = walk_segment(&mut parts, finished, escaped);
                proof {
                    assert(done.push(segment).drop_last() =~= done);
                    done = done.push(segment);
                }
            } else {
                let ghost before = current@;
                current.push(byte);
                proof {
                    assert(done.push(before).drop_last().push(before.push(byte)) =~= done.push(current@));
                }
            }
            i += 1;
        }
        proof {
            assert(raw@.subrange(0, i as int) =~= raw@);
            assert(done.push(current@).drop_last() =~= done);
        }
        escaped = walk_segment(&mut parts, current, escaped);
        if escaped {
            None
        } else {
            Some(RelPath { parts })
        }
    }

    /// The number of parts; zero for the root.
    pub fn len(&self) -> (n: usize)
        ensures
            n == self@.len(),
    {
        self.parts.len()
    }

    /// Whether this is the root.
    pub fn is_root(&self) -> (r: bool)
        ensures
            r == (self@.len() == 0),
    {
        self.parts.len() == 0
    }

    /// One part of the path, counted from the root.
    pub fn part(&self, i: usize) -> (r: &Vec<u8>)
        requires
            i < self@.len(),
        ensures
            r@ == self@[i as int],
            valid_part(r@),
    {
        proof {
            use_type_invariant(self);
            assert(valid_part(parts_view(self.parts@)[i as int]));
        }
        &self.parts[i]
    }

    /// The last part: the name of the entry in its directory.  The root has
    /// none.
    pub fn file_name(&self) -> (r: Option<&Vec<u8>>)
        ensures
            match r {
                Some(name) => self@.len() > 0 && name@ == self@.last() && valid_part(name@),
                None => self@.len() == 0,
            },
    {
        if self.parts.len() == 0 {
            None
        } else {
            Some(self.part(self.parts.len() - 1))
        }
    }

    /// Whether two paths name the same place.
    pub fn equals(&self, other: &RelPath) -> (r: bool)
        ensures
            r == (self@ == other@),
    {
        if self.parts.len() != other.parts.len() {
            assert(self@.len() != other@.len());
            return false;
        }
        let mut i: usize = 0;
        while i < self.parts.len()
            invariant
                i <= self.parts@.len(),
                self.parts@.len() == other.parts@.len(),
                forall|j: int| 0 <= j < i ==> self.parts@[j]@ == other.parts@[j]@,
            decreases self.parts@.len() - i,
        {
            if !bytes_equal(&self.parts[i], &other.parts[i]) {
                assert(self@[i as int] != other@[i as int]);
                return false;
            }
            i += 1;
        }
        assert(self@ =~= other@);
        true
    }

    /// Whether this path is `path` itself or a directory above it.
    pub fn contains(&self, path: &RelPath) -> (r: bool)
        ensures
            r == within(self@, path@),
    {
        if self.parts.len() > path.parts.len() {
            return false;
        }
        let mut i: usize = 0;
        while i < self.parts.len()
            invariant
                i <= self.parts@.len(),
                self.parts@.len() <= path.parts@.len(),
                forall|j: int| 0 <= j < i ==> self.parts@[j]@ == path.parts@[j]@,
            decreases self.parts@.len() - i,
        {
            if !bytes_equal(&self.parts[i], &path.parts[i]) {
                assert(path@.subrange(0, self@.len() as int)[i as int] != self@[i as int]);
                return false;
            }
            i += 1;
        }
        assert(path@.subrange(0, self@.len() as int) =~= self@);
        true
    }

    /// Whether this path is a directory above `path`.
    pub fn is_above(&self, path: &RelPath) -> (r: bool)
        ensures
            r == is_ancestor(self@, path@),
    {
        self.parts.len() < path.parts.len() && self.contains(path)
    }

    /// The first `n` parts as a path of their own.
    pub fn prefix(&self, n: usize) -> (r: RelPath)
        requires
            n <= self@.len(),
        ensures
            r@ == self@.subrange(0, n as int),
    {
        proof {
            use_type_invariant(self);
        }
        let mut parts: Vec<Vec<u8>> = Vec::new();
        let mut i: usize = 0;
        while i < n
            invariant
                i <= n <= self.parts@.len(),
                parts@.len() == i,
                forall|j: int| 0 <= j < i ==> parts@[j]@ == self.parts@[j]@,
            decreases n - i,
        {
            parts.push(copy_bytes(&self.parts[i]));
            i += 1;
        }
        proof {
            assert(parts_view(parts@) =~= parts_view(self.parts@).subrange(0, n as int));
            assert forall|j: int| 0 <= j < parts_view(parts@).len() implies valid_part(
                #[trigger] parts_view(parts@)[j],
            ) by {
                assert(valid_part(parts_view(self.parts@)[j]));
            }
        }
        RelPath { parts }
    }

    /// A copy of the path.
    pub fn duplicate(&self) -> (r: RelPath)
        ensures
            r@ == self@,
    {
        let r = self.prefix(self.parts.len());
        assert(self@.subrange(0, self@.len() as int) =~= self@);
        r
    }

    /// The directory that holds the entry.  The root has none.
    pub fn parent(&self) -> (r: Option<RelPath>)
        ensures
            match r {
                Some(dir) => self@.len() > 0 && dir@ == self@.drop_last(),
                None => self@.len() == 0,
            },
    {
        if self.parts.len() == 0 {
            None
        } else {
            let dir = self.prefix(self.parts.len() - 1);
            assert(self@.subrange(0, self@.len() - 1) =~= self@.drop_last());
            Some(dir)
        }
    }

    /// The entry called `name` in this directory, or `None` if `name` cannot
    /// be the name of an entry.
    pub fn child(&self, name: &Vec<u8>) -> (r: Option<RelPath>)
        ensures
            match r {
                Some(path) => valid_part(name@) && path@ == self@.push(name@),
                None => !valid_part(name@),
            },
    {
        if !is_valid_part(name) {
            return None;
        }
        proof {
            use_type_invariant(self);
        }
        let mut parts: Vec<Vec<u8>> = Vec::new();
        let mut i: usize = 0;
        while i < self.parts.len()
            invariant
                i <= self.parts@.len(),
                parts@.len() == i,
                forall|j: int| 0 <= j < i ==> parts@[j]@ == self.parts@[j]@,
            decreases self.parts@.len() - i,
        {
            parts.push(copy_bytes(&self.parts[i]));
            i += 1;
        }
        parts.push(copy_bytes(name));
        proof {
            assert(parts_view(parts@) =~= parts_view(self.parts@).push(name@));
            assert forall|j: int| 0 <= j < parts_view(parts@).len() implies valid_part(
                #[trigger] parts_view(parts@)[j],
            ) by {
                if j < self.parts@.len() {
                    assert(valid_part(parts_view(self.parts@)[j]));
                }
            }
        }
        Some(RelPath { parts })
    }

    /// The name that spells this path: its parts joined by separators, and
    /// nothing at all for the root.
    pub fn to_bytes(&self) -> (r: Vec<u8>)
        ensures
            r@ == join_spec(self@),
    {
        let mut out: Vec<u8> = Vec::new();
        let mut i: usize = 0;
        proof {
            assert(self@.subrange(0, 0) =~= Seq::<Seq<u8>>::empty());
        }
        while i < self.parts.len()
            invariant
                i <= self.parts@.len(),
                out@ == join_spec(self@.subrange(0, i as int)),
            decreases self.parts@.len() - i,
        {
            let ghost before = out@;
            if i > 0 {
                out.push(SLASH);
            }
            let part = &self.parts[i];
            let ghost joined = out@;
            let mut j: usize = 0;
            while j < part.len()
                invariant
                    j <= part@.len(),
                    out@ == joined + part@.subrange(0, j as int),
                decreases part@.len() - j,
            {
                out.push(part[j]);
                j += 1;
            }
            proof {
                let upto = self@.subrange(0, i + 1);
                assert(part@.subrange(0, part@.len() as int) =~= part@);
                assert(upto.drop_last() =~= self@.subrange(0, i as int));
                assert(upto.last() == part@);
                if i == 0 {
                    assert(upto[0] == part@);
                    assert(out@ =~= part@);
                }
            }
            i += 1;
        }
        proof {
            assert(self@.subrange(0, i as int) =~= self@);
        }
        out
    }
}

/// A name that is read as a path never leads out of the root: each of its
/// parts is a plain name.
pub proof fn law_normalized_paths_stay_inside(raw: Seq<u8>)
    ensures
        normalize_spec(raw) matches Some(path) ==> valid_path(path),
{
    lemma_split_has_no_separator(raw);
    lemma_resolve_is_valid(split_path(raw));
}

/// No piece of a split name holds a separator, and there is always at least
/// one piece.
pub proof fn lemma_split_has_no_separator(raw: Seq<u8>)
    ensures
        split_path(raw).len() > 0,
        forall|k: int, j: int|
            #![trigger split_path(raw)[k][j]]
            0 <= k < split_path(raw).len() && 0 <= j < split_path(raw)[k].len() ==> split_path(raw)[k][j]
                != SLASH,
    decreases raw.len(),
{
    if raw.len() > 0 {
        lemma_split_has_no_separator(raw.drop_last());
    }
}

/// A walk along pieces without separators ends at a valid path.
pub proof fn lemma_resolve_is_valid(segments: Seq<Seq<u8>>)
    requires
        forall|k: int, j: int|
            #![trigger segments[k][j]]
            0 <= k < segments.len() && 0 <= j < segments[k].len() ==> segments[k][j] != SLASH,
    ensures
        resolve_segments(segments) matches Some(path) ==> valid_path(path),
    decreases segments.len(),
{
    if segments.len() > 0 {
        let before = segments.drop_last();
        assert forall|k: int, j: int|
            #![trigger before[k][j]]
            0 <= k < before.len() && 0 <= j < before[k].len() implies before[k][j] != SLASH by {
            assert(before[k][j] == segments[k][j]);
        }
        lemma_resolve_is_valid(before);
        let last = segments.last();
        assert(last == segments[segments.len() - 1]);
    }
}

} // verus!
