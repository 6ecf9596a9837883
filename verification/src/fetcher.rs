//! Fetching the layers of an image around the blob cache.
//!
//! The caller does the transfers.  This module decides which digests have to
//! be transferred at all, takes the results in whatever order the transfers
//! end, and hands the blobs back in the order of the manifest.

use crate::bytes::copy_bytes;
use crate::cache::BlobCache;
use crate::error::Error;
use vstd::prelude::*;

verus! {

/// How the transfer of one blob ended.
#[derive(Debug, PartialEq, Eq)]
pub struct FetchOutcome {
    /// The digest that was asked for.
    pub digest: String,
    /// The bytes received, or `None` if the transfer failed or the registry
    /// does not hold the blob.
    pub bytes: Option<Vec<u8>>,
}

/// The digests as plain texts.
pub open spec fn texts(digests: Seq<String>) -> Seq<Seq<char>> {
    Seq::new(digests.len(), |i: int| digests[i]@)
}

/// The blobs as plain byte strings.
pub open spec fn blob_views(blobs: Seq<Vec<u8>>) -> Seq<Seq<u8>> {
    Seq::new(blobs.len(), |i: int| blobs[i]@)
}

/// The digests that the cache does not hold, each once, in the order in
/// which they first appear.
pub open spec fn missing_spec(digests: Seq<Seq<char>>, cache: Map<Seq<char>, Seq<u8>>) -> Seq<Seq<char>>
    decreases digests.len(),
{
    if digests.len() == 0 {
        Seq::empty()
    } else {
        let before = missing_spec(digests.drop_last(), cache);
        let digest = digests.last();
        if cache.contains_key(digest) || before.contains(digest) {
            before
        } else {
            before.push(digest)
        }
    }
}

/// Whether the cache holds every one of the digests.
pub open spec fn all_cached(digests: Seq<String>, cache: Map<Seq<char>, Seq<u8>>) -> bool {
    forall|i: int| 0 <= i < digests.len() ==> cache.contains_key(#[trigger] digests[i]@)
}

/// Whether `at` is the first position whose digest the cache does not hold.
pub open spec fn is_first_absent(digests: Seq<String>, cache: Map<Seq<char>, Seq<u8>>, at: int) -> bool {
    &&& 0 <= at < digests.len()
    &&& !cache.contains_key(digests[at]@)
    &&& forall|j: int| 0 <= j < at ==> cache.contains_key(#[trigger] digests[j]@)
}

/// The blobs that the cache holds for the digests, position by position.
pub open spec fn cached_blobs(digests: Seq<String>, cache: Map<Seq<char>, Seq<u8>>) -> Seq<Seq<u8>> {
    Seq::new(digests.len(), |i: int| cache[digests[i]@])
}

/// What reading the digests out of the cache gives: the blobs in the order
/// of the digests, or the first digest that the cache does not hold.
pub open spec fn collect_spec(digests: Seq<String>, cache: Map<Seq<char>, Seq<u8>>) -> Result<
    Seq<Seq<u8>>,
    Error,
> {
    if all_cached(digests, cache) {
        Ok(cached_blobs(digests, cache))
    } else {
        Err(Error::BlobFetchFailed { digest: digests[choose|at: int| is_first_absent(digests, cache, at)] })
    }
}

/// What taking in the outcomes, in the order in which the transfers ended,
/// does to the cache: every blob that arrived before the first failure is
/// stored, and the digest of the first failure, if any, is reported.
pub open spec fn record_spec(cache: Map<Seq<char>, Seq<u8>>, outcomes: Seq<FetchOutcome>) -> (
    Map<Seq<char>, Seq<u8>>,
    Option<String>,
)
    decreases outcomes.len(),
{
    if outcomes.len() == 0 {
        (cache, None)
    } else {
        match outcomes[0].bytes {
            None => (cache, Some(outcomes[0].digest)),
            Some(bytes) => record_spec(cache.insert(outcomes[0].digest@, bytes@), outcomes.skip(1)),
        }
    }
}

/// What the cache holds once it has taken in what a search of the durable
/// store found: every blob that was found, and nothing for a digest that
/// was not.
pub open spec fn preload_spec(cache: Map<Seq<char>, Seq<u8>>, found: Seq<FetchOutcome>) -> Map<
    Seq<char>,
    Seq<u8>,
>
    decreases found.len(),
{
    if found.len() == 0 {
        cache
    } else {
        match found[0].bytes {
            None => preload_spec(cache, found.skip(1)),
            Some(bytes) => preload_spec(cache.insert(found[0].digest@, bytes@), found.skip(1)),
        }
    }
}

/// What fetching the digests gives, and what it leaves in the cache, once
/// the transfers that were needed have ended with the given outcomes.
pub open spec fn fetch_all_spec(
    digests: Seq<String>,
    cache: Map<Seq<char>, Seq<u8>>,
    outcomes: Seq<FetchOutcome>,
) -> (Map<Seq<char>, Seq<u8>>, Result<Seq<Seq<u8>>, Error>) {
    let (stored, failed) = record_spec(cache, outcomes);
    match failed {
        Some(digest) => (stored, Err(Error::BlobFetchFailed { digest })),
        None => (stored, collect_spec(digests, stored)),
    }
}

/// How a fetch ended, with the blobs taken as plain byte strings.
pub open spec fn result_view(r: Result<Vec<Vec<u8>>, Error>) -> Result<Seq<Seq<u8>>, Error> {
    match r {
        Ok(blobs) => Ok(blob_views(blobs@)),
        Err(e) => Err(e),
    }
}

fn holds_text(list: &Vec<String>, text: &String) -> (r: bool)
    ensures
        r == texts(list@).contains(text@),
{
    let mut i: usize = 0;
    while i < list.len()
        invariant
            i <= list@.len(),
            forall|j: int| 0 <= j < i ==> list@[j]@ != text@,
        decreases list@.len() - i,
    {
        if list[i] == *text {
            assert(texts(list@)[i as int] == text@);
            return true;
        }
        i += 1;
    }
    false
}

/// The digests that have to be transferred: those that the cache does not
/// hold, each once, in the order in which they first appear.
pub fn missing_digests(digests: &Vec<String>, cache: &BlobCache) -> (r: Vec<String>)
    ensures
        texts(r@) == missing_spec(texts(digests@), cache@),
{
    let mut out: Vec<String> = Vec::new();
    let mut i: usize = 0;
    assert(texts(digests@).subrange(0, 0) == Seq::<Seq<char>>::empty());
    assert(texts(out@) == Seq::<Seq<char>>::empty());
    while i < digests.len()
        invariant
            i <= digests@.len(),
            texts(out@) == missing_spec(texts(digests@).subrange(0, i as int), cache@),
        decreases digests@.len() - i,
    {
        let ghost seen = texts(digests@).subrange(0, i as int);
        let ghost next = texts(digests@).subrange(0, i + 1);
        assert(next.drop_last() == seen);
        assert(next.last() == digests@[i as int]@);
        if !cache.contains(&digests[i]) && !holds_text(&out, &digests[i]) {
            let ghost before = texts(out@);
            out.push(digests[i].clone());
            assert(texts(out@) == before.push(digests@[i as int]@));
        }
        i += 1;
    }
    assert(texts(digests@).subrange(0, i as int) == texts(digests@));
    out
}

/// Reads the blobs of the digests out of the cache, in the order of the
/// digests.  Fails with the first digest that the cache does not hold.
pub fn collect_layers(digests: &Vec<String>, cache: &BlobCache) -> (r: Result<Vec<Vec<u8>>, Error>)
    ensures
        result_view(r) == collect_spec(digests@, cache@),
{
    let mut out: Vec<Vec<u8>> = Vec::new();
    let mut i: usize = 0;
    while i < digests.len()
        invariant
            i <= digests@.len(),
            out@.len() == i,
            forall|j: int| 0 <= j < i ==> cache@.contains_key(#[trigger] digests@[j]@),
            forall|j: int| 0 <= j < i ==> (#[trigger] out@[j])@ == cache@[digests@[j]@],
        decreases digests@.len() - i,
    {
        match cache.get(&digests[i]) {
            Some(bytes) => {
                out.push(copy_bytes(bytes));
            },
            None => {
                proof {
                    assert(is_first_absent(digests@, cache@, i as int));
                    lemma_first_absent_is_unique(digests@, cache@, i as int);
                }
                return Err(Error::BlobFetchFailed { digest: digests[i].clone() });
            },
        }
        i += 1;
    }
    assert(blob_views(out@) == cached_blobs(digests@, cache@));
    Ok(out)
}

/// A position found by a scan is the one that `collect_spec` reports.
pub proof fn lemma_first_absent_is_unique(digests: Seq<String>, cache: Map<Seq<char>, Seq<u8>>, at: int)
    requires
        is_first_absent(digests, cache, at),
    ensures
        !all_cached(digests, cache),
        (choose|k: int| is_first_absent(digests, cache, k)) == at,
{
    let other = choose|k: int| is_first_absent(digests, cache, k);
    assert(is_first_absent(digests, cache, other));
    if other < at {
        assert(cache.contains_key(digests[other]@));
    } else if at < other {
        assert(cache.contains_key(digests[at]@));
    }
}

/// Takes in the outcomes of the transfers, in the order in which they
/// ended: stores each blob that arrived, and stops at the first failure.
pub fn record_outcomes(cache: &mut BlobCache, outcomes: Vec<FetchOutcome>) -> (r: Result<(), Error>)
    ensures
        final(cache)@ == record_spec(old(cache)@, outcomes@).0,
        match record_spec(old(cache)@, outcomes@).1 {
            Some(digest) => r == Err::<(), Error>(Error::BlobFetchFailed { digest }),
            None => r == Ok::<(), Error>(()),
        },
{
    let mut rest = outcomes;
    while rest.len() > 0
        invariant
            record_spec(cache@, rest@) == record_spec(old(cache)@, outcomes@),
        decreases rest@.len(),
    {
        let ghost before = rest@;
        let outcome = rest.remove(0);
        assert(rest@ == before.skip(1));
        match outcome.bytes {
            None => {
                return Err(Error::BlobFetchFailed { digest: outcome.digest });
            },
            Some(bytes) => {
                cache.put(outcome.digest, bytes);
            },
        }
    }
    Ok(())
}

/// Takes in what a search of the durable store found: stores each blob
/// that was found, and passes over each digest that was not.
pub fn preload(cache: &mut BlobCache, found: Vec<FetchOutcome>)
    ensures
        final(cache)@ == preload_spec(old(cache)@, found@),
{
    let mut rest = found;
    while rest.len() > 0
        invariant
            preload_spec(cache@, rest@) == preload_spec(old(cache)@, found@),
        decreases rest@.len(),
    {
        let ghost before = rest@;
        let outcome = rest.remove(0);
        assert(rest@ == before.skip(1));
        match outcome.bytes {
            None => {},
            Some(bytes) => {
                cache.put(outcome.digest, bytes);
            },
        }
    }
}

/// Completes a fetch: takes in the outcomes of the transfers that were
/// needed, then reads the blobs of all the digests out of the cache.
///
/// The blobs come back in the order of the digests, whatever the order of
/// the outcomes.  One failed transfer fails the whole fetch.
pub fn fetch_all(digests: &Vec<String>, cache: &mut BlobCache, outcomes: Vec<FetchOutcome>) -> (r: Result<
    Vec<Vec<u8>>,
    Error,
>)
    ensures
        final(cache)@ == fetch_all_spec(digests@, old(cache)@, outcomes@).0,
        result_view(r) == fetch_all_spec(digests@, old(cache)@, outcomes@).1,
{
    match record_outcomes(cache, outcomes) {
        Err(e) => Err(e),
        Ok(()) => collect_layers(digests, cache),
    }
}

/// Whether every transfer succeeded and no digest was transferred twice.
pub open spec fn clean_outcomes(outcomes: Seq<FetchOutcome>) -> bool {
    &&& forall|j: int| 0 <= j < outcomes.len() ==> (#[trigger] outcomes[j]).bytes is Some
    &&& forall|j: int, k: int|
        0 <= j < k < outcomes.len() ==> (#[trigger] outcomes[j]).digest@ != (#[trigger] outcomes[k]).digest@
}

/// Whether every blob that `a` delivers is delivered by `b` as well.
pub open spec fn delivers_all_of(b: Seq<FetchOutcome>, a: Seq<FetchOutcome>) -> bool {
    forall|j: int|
        0 <= j < a.len() ==> exists|k: int|
            0 <= k < b.len() && (#[trigger] b[k]).digest@ == (#[trigger] a[j]).digest@ && b[k].bytes == a[j].bytes
}

/// After clean outcomes were taken in, a digest that was delivered holds
/// what was delivered, and any other digest holds what it held before.
pub proof fn lemma_record_pointwise(cache: Map<Seq<char>, Seq<u8>>, outcomes: Seq<FetchOutcome>, key: Seq<char>)
    requires
        clean_outcomes(outcomes),
    ensures
        record_spec(cache, outcomes).1 is None,
        forall|j: int|
            0 <= j < outcomes.len() && (#[trigger] outcomes[j]).digest@ == key ==> record_spec(
                cache,
                outcomes,
            ).0.contains_key(key) && record_spec(cache, outcomes).0[key] == outcomes[j].bytes->Some_0@,
        (forall|j: int| 0 <= j < outcomes.len() ==> (#[trigger] outcomes[j]).digest@ != key) ==> (record_spec(
            cache,
            outcomes,
        ).0.contains_key(key) <==> cache.contains_key(key)) && (cache.contains_key(key) ==> record_spec(
            cache,
            outcomes,
        ).0[key] == cache[key]),
    decreases outcomes.len(),
{
    if outcomes.len() > 0 {
        let first = outcomes[0];
        let rest = outcomes.skip(1);
        let stored = cache.insert(first.digest@, first.bytes->Some_0@);
        assert(clean_outcomes(rest)) by {
            assert forall|j: int| 0 <= j < rest.len() implies (#[trigger] rest[j]).bytes is Some by {
                assert(rest[j] == outcomes[j + 1]);
            }
            assert forall|j: int, k: int| 0 <= j < k < rest.len() implies (#[trigger] rest[j]).digest@ != (
            #[trigger] rest[k]).digest@ by {
                assert(rest[j] == outcomes[j + 1]);
                assert(rest[k] == outcomes[k + 1]);
            }
        }
        lemma_record_pointwise(stored, rest, key);
        assert forall|j: int| 0 <= j < outcomes.len() && (#[trigger] outcomes[j]).digest@ == key implies record_spec(
            cache,
            outcomes,
        ).0.contains_key(key) && record_spec(cache, outcomes).0[key] == outcomes[j].bytes->Some_0@ by {
            if j == 0 {
                assert forall|k: int| 0 <= k < rest.len() implies (#[trigger] rest[k]).digest@ != key by {
                    assert(rest[k] == outcomes[k + 1]);
                }
            } else {
                assert(rest[j - 1] == outcomes[j]);
            }
        }
        if forall|j: int| 0 <= j < outcomes.len() ==> (#[trigger] outcomes[j]).digest@ != key {
            assert(first.digest@ != key);
            assert forall|k: int| 0 <= k < rest.len() implies (#[trigger] rest[k]).digest@ != key by {
                assert(rest[k] == outcomes[k + 1]);
            }
        }
    }
}

/// The blobs come back in the order of the digests: whenever the transfers
/// all succeed and the fetch does, the blob at each position is the one
/// delivered for the digest at that position, wherever among the outcomes it
/// arrived, or the one the cache held for that digest if none was delivered.
pub proof fn law_blobs_follow_digest_order(
    digests: Seq<String>,
    cache: Map<Seq<char>, Seq<u8>>,
    outcomes: Seq<FetchOutcome>,
)
    requires
        clean_outcomes(outcomes),
        fetch_all_spec(digests, cache, outcomes).1 is Ok,
    ensures
        fetch_all_spec(digests, cache, outcomes).1->Ok_0.len() == digests.len(),
        forall|i: int, j: int|
            0 <= i < digests.len() && 0 <= j < outcomes.len() && (#[trigger] outcomes[j]).digest@
                == (#[trigger] digests[i])@ ==> fetch_all_spec(digests, cache, outcomes).1->Ok_0[i]
                == outcomes[j].bytes->Some_0@,
        forall|i: int|
            0 <= i < digests.len() && (forall|j: int|
                0 <= j < outcomes.len() ==> (#[trigger] outcomes[j]).digest@ != digests[i]@)
                ==> cache.contains_key((#[trigger] digests[i])@) && fetch_all_spec(
                digests,
                cache,
                outcomes,
            ).1->Ok_0[i] == cache[digests[i]@],
{
    let stored = record_spec(cache, outcomes).0;
    lemma_record_pointwise(cache, outcomes, Seq::<char>::empty());
    assert(all_cached(digests, stored));
    assert forall|i: int, j: int|
        0 <= i < digests.len() && 0 <= j < outcomes.len() && (#[trigger] outcomes[j]).digest@ == (
        #[trigger] digests[i])@ implies fetch_all_spec(digests, cache, outcomes).1->Ok_0[i]
        == outcomes[j].bytes->Some_0@ by {
        lemma_record_pointwise(cache, outcomes, digests[i]@);
    }
    assert forall|i: int|
        0 <= i < digests.len() && (forall|j: int|
            0 <= j < outcomes.len() ==> (#[trigger] outcomes[j]).digest@ != digests[i]@) implies cache.contains_key(
        (#[trigger] digests[i])@,
    ) && fetch_all_spec(digests, cache, outcomes).1->Ok_0[i] == cache[digests[i]@] by {
        lemma_record_pointwise(cache, outcomes, digests[i]@);
        assert(stored.contains_key(digests[i]@));
    }
}

/// The order in which the transfers end does not matter: two runs in which
/// the same blobs arrive, in any two orders, leave the same cache and give
/// the same result.
pub proof fn law_completion_order_is_irrelevant(
    digests: Seq<String>,
    cache: Map<Seq<char>, Seq<u8>>,
    a: Seq<FetchOutcome>,
    b: Seq<FetchOutcome>,
)
    requires
        clean_outcomes(a),
        clean_outcomes(b),
        delivers_all_of(b, a),
        delivers_all_of(a, b),
    ensures
        fetch_all_spec(digests, cache, a) == fetch_all_spec(digests, cache, b),
{
    let ma = record_spec(cache, a).0;
    let mb = record_spec(cache, b).0;
    assert forall|key: Seq<char>|
        (#[trigger] ma.dom().contains(key)) == mb.dom().contains(key) && (ma.dom().contains(key) ==> ma[key]
            == mb[key]) by {
        lemma_record_pointwise(cache, a, key);
        lemma_record_pointwise(cache, b, key);
        if exists|j: int| 0 <= j < a.len() && (#[trigger] a[j]).digest@ == key {
            let j = choose|j: int| 0 <= j < a.len() && (#[trigger] a[j]).digest@ == key;
            let k = choose|k: int|
                0 <= k < b.len() && (#[trigger] b[k]).digest@ == a[j].digest@ && b[k].bytes == a[j].bytes;
            assert(b[k].digest@ == key);
        } else if exists|k: int| 0 <= k < b.len() && (#[trigger] b[k]).digest@ == key {
            let k = choose|k: int| 0 <= k < b.len() && (#[trigger] b[k]).digest@ == key;
            let j = choose|j: int|
                0 <= j < a.len() && (#[trigger] a[j]).digest@ == b[k].digest@ && a[j].bytes == b[k].bytes;
            assert(a[j].digest@ == key);
        }
    }
    assert(ma =~= mb);
    lemma_record_pointwise(cache, a, Seq::<char>::empty());
    lemma_record_pointwise(cache, b, Seq::<char>::empty());
}

/// With every digest in the cache, nothing is left to transfer.
pub proof fn lemma_nothing_missing(digests: Seq<String>, cache: Map<Seq<char>, Seq<u8>>)
    requires
        all_cached(digests, cache),
    ensures
        missing_spec(texts(digests), cache) == Seq::<Seq<char>>::empty(),
    decreases digests.len(),
{
    if digests.len() > 0 {
        assert(all_cached(digests.drop_last(), cache)) by {
            assert forall|i: int| 0 <= i < digests.drop_last().len() implies cache.contains_key(
                #[trigger] digests.drop_last()[i]@,
            ) by {
                assert(digests.drop_last()[i] == digests[i]);
            }
        }
        lemma_nothing_missing(digests.drop_last(), cache);
        assert(texts(digests).drop_last() == texts(digests.drop_last()));
        assert(texts(digests).last() == digests[digests.len() - 1]@);
    }
}

/// A second fetch of the same digests against the cache that a successful
/// first fetch left behind transfers nothing, leaves the cache as it is, and
/// gives the same blobs as the first.
pub proof fn law_second_fetch_needs_no_transfer(
    digests: Seq<String>,
    cache: Map<Seq<char>, Seq<u8>>,
    outcomes: Seq<FetchOutcome>,
)
    requires
        fetch_all_spec(digests, cache, outcomes).1 is Ok,
    ensures
        missing_spec(texts(digests), fetch_all_spec(digests, cache, outcomes).0) == Seq::<Seq<char>>::empty(),
        fetch_all_spec(digests, fetch_all_spec(digests, cache, outcomes).0, Seq::<FetchOutcome>::empty())
            == fetch_all_spec(digests, cache, outcomes),
{
    let stored = record_spec(cache, outcomes).0;
    assert(all_cached(digests, stored));
    lemma_nothing_missing(digests, stored);
}

} // verus!
