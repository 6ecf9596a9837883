//! The blob cache: a store from content digest to bytes.

use vstd::prelude::*;

verus! {

#[derive(Debug)]
struct CacheEntry {
    digest: String,
    bytes: Vec<u8>,
}

/// A store of blobs, addressed by digest alone.
///
/// Nothing is ever evicted, and nothing checks that a digest fits the bytes
/// stored under it: whoever fills the cache answers for that.
#[derive(Debug)]
pub struct BlobCache {
    entries: Vec<CacheEntry>,
}

/// What a list of entries holds, a later entry for a digest replacing an
/// earlier one.
spec fn entries_map(entries: Seq<CacheEntry>) -> Map<Seq<char>, Seq<u8>>
    decreases entries.len(),
{
    if entries.len() == 0 {
        Map::empty()
    } else {
        entries_map(entries.drop_last()).insert(entries.last().digest@, entries.last().bytes@)
    }
}

proof fn lemma_absent(entries: Seq<CacheEntry>, digest: Seq<char>)
    requires
        forall|j: int| 0 <= j < entries.len() ==> (#[trigger] entries[j]).digest@ != digest,
    ensures
        !entries_map(entries).contains_key(digest),
    decreases entries.len(),
{
    if entries.len() > 0 {
        lemma_absent(entries.drop_last(), digest);
    }
}

proof fn lemma_present(entries: Seq<CacheEntry>, digest: Seq<char>, at: int)
    requires
        0 <= at < entries.len(),
        entries[at].digest@ == digest,
        forall|j: int| at < j < entries.len() ==> (#[trigger] entries[j]).digest@ != digest,
    ensures
        entries_map(entries).contains_key(digest),
        entries_map(entries)[digest] == entries[at].bytes@,
    decreases entries.len(),
{
    if at < entries.len() - 1 {
        lemma_present(entries.drop_last(), digest, at);
    }
}

proof fn lemma_replace(entries: Seq<CacheEntry>, at: int, entry: CacheEntry)
    requires
        0 <= at < entries.len(),
        entries[at].digest@ == entry.digest@,
        forall|j: int| at < j < entries.len() ==> (#[trigger] entries[j]).digest@ != entry.digest@,
    ensures
        entries_map(entries.update(at, entry)) == entries_map(entries).insert(entry.digest@, entry.bytes@),
    decreases entries.len(),
{
    let updated = entries.update(at, entry);
    if at < entries.len() - 1 {
        lemma_replace(entries.drop_last(), at, entry);
        assert(updated.drop_last() == entries.drop_last().update(at, entry));
        assert(updated.last() == entries.last());
        assert(entries_map(updated) == entries_map(entries).insert(entry.digest@, entry.bytes@));
    } else {
        assert(updated.drop_last() == entries.drop_last());
        assert(entries_map(updated) == entries_map(entries).insert(entry.digest@, entry.bytes@));
    }
}

impl View for BlobCache {
    type V = Map<Seq<char>, Seq<u8>>;

    closed spec fn view(&self) -> Map<Seq<char>, Seq<u8>> {
        entries_map(self.entries@)
    }
}

impl BlobCache {
    /// A cache that holds nothing.
    pub fn new() -> (cache: BlobCache)
        ensures
            cache@ == Map::<Seq<char>, Seq<u8>>::empty(),
    {
        BlobCache { entries: Vec::new() }
    }

    fn position(&self, digest: &String) -> (r: Option<usize>)
        ensures
            match r {
                Some(at) => at < self.entries@.len() && self.entries@[at as int].digest@ == digest@
                    && self@.contains_key(digest@) && self@[digest@] == self.entries@[at as int].bytes@
                    && forall|j: int|
                    at < j < self.entries@.len() ==> (#[trigger] self.entries@[j]).digest@ != digest@,
                None => !self@.contains_key(digest@),
            },
    {
        let mut i: usize = self.entries.len();
        while i > 0
            invariant
                i <= self.entries@.len(),
                forall|j: int| i <= j < self.entries@.len() ==> (#[trigger] self.entries@[j]).digest@ != digest@,
            decreases i,
        {
            i -= 1;
            if self.entries[i].digest == *digest {
                proof {
                    lemma_present(self.entries@, digest@, i as int);
                }
                return Some(i);
            }
        }
        proof {
            lemma_absent(self.entries@, digest@);
        }
        None
    }

    /// Whether a blob is stored under the digest.
    pub fn contains(&self, digest: &String) -> (r: bool)
        ensures
            r == self@.contains_key(digest@),
    {
        self.position(digest).is_some()
    }

    /// The blob stored under the digest, if there is one.
    pub fn get(&self, digest: &String) -> (r: Option<&Vec<u8>>)
        ensures
            match r {
                Some(bytes) => self@.contains_key(digest@) && bytes@ == self@[digest@],
                None => !self@.contains_key(digest@),
            },
    {
        match self.position(digest) {
            Some(at) => Some(&self.entries[at].bytes),
            None => None,
        }
    }

    /// Stores a blob under a digest, in place of whatever was stored under
    /// that digest before.  Every other digest keeps its blob.
    pub fn put(&mut self, digest: String, bytes: Vec<u8>)
        ensures
            final(self)@ == old(self)@.insert(digest@, bytes@),
    {
        let found = self.position(&digest);
        let entry = CacheEntry { digest, bytes };
        match found {
            Some(at) => {
                proof {
                    lemma_replace(self.entries@, at as int, entry);
                }
                self.entries.set(at, entry);
            },
            None => {
                proof {
                    assert(self.entries@.push(entry).drop_last() == self.entries@);
                }
                self.entries.push(entry);
            },
        }
    }
}

/// Storing the same blob under the same digest a second time changes
/// nothing.
pub proof fn law_put_is_idempotent(cache: Map<Seq<char>, Seq<u8>>, digest: Seq<char>, bytes: Seq<u8>)
    ensures
        cache.insert(digest, bytes).insert(digest, bytes) == cache.insert(digest, bytes),
{
    assert(cache.insert(digest, bytes).insert(digest, bytes) =~= cache.insert(digest, bytes));
}

/// A digest holds a blob exactly if something was stored under it: a store
/// under one digest makes that digest present with those bytes and leaves
/// the presence and the bytes of every other digest as they were.
pub proof fn law_get_follows_put(
    cache: Map<Seq<char>, Seq<u8>>,
    digest: Seq<char>,
    bytes: Seq<u8>,
    other: Seq<char>,
)
    ensures
        cache.insert(digest, bytes).contains_key(digest),
        cache.insert(digest, bytes)[digest] == bytes,
        other != digest ==> (cache.insert(digest, bytes).contains_key(other) <==> cache.contains_key(other)),
        other != digest && cache.contains_key(other) ==> cache.insert(digest, bytes)[other] == cache[other],
        !Map::<Seq<char>, Seq<u8>>::empty().contains_key(other),
{
}

} // verus!
