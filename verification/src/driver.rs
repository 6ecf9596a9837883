//! One run of the pipeline, from the empty destination to the finished
//! tree.
//!
//! The pipeline does no I/O.  It says what to do next, is told how that
//! went, and decides again: inspect the destination, pull the manifest,
//! follow a platform list, search the cache, fetch what is missing, and at
//! last write the tree.  The first failure ends the run.

use crate::cache::BlobCache;
use crate::error::Error;
use crate::fetcher::{
    fetch_all, fetch_all_spec, missing_digests, missing_spec, preload, preload_spec, texts, FetchOutcome,
};
use crate::manifest::{Manifest, Platform, ResolvedManifest};
use crate::materializer::{unpack, unpack_spec, LayerFailure};
use crate::resolver::{resolve_selected, resolve_selected_spec, resolve_top, resolve_top_spec, Resolution};
use crate::rootfs::RootfsTree;
use vstd::prelude::*;

verus! {

/// What has happened outside since the last action.
#[derive(Debug)]
pub enum Event {
    /// The destination directory exists and holds this many entries.
    DestinationInspected { entries: usize },
    /// The registry has handed out the manifest that was asked for.
    ManifestPulled(Manifest),
    /// The durable cache has been searched for the digests: what was
    /// found of each, with `None` for a digest that is not there.
    CacheSearched(Vec<FetchOutcome>),
    /// The transfers have ended, in this order.
    BlobsFetched(Vec<FetchOutcome>),
}

/// What the caller has to do next.
#[derive(Debug)]
pub enum Action {
    /// Create the destination directory if it is not there, and count what
    /// it holds.
    InspectDestination,
    /// Pull the manifest that the image reference names.
    PullManifest,
    /// Pull the manifest with this digest.
    PullManifestByDigest { digest: String },
    /// Look these digests up in the durable cache, if there is one.
    SearchCache { digests: Vec<String> },
    /// Transfer the blobs with these digests, all at once if possible, and
    /// store each in the durable cache as it arrives.
    FetchBlobs { digests: Vec<String> },
    /// Write this tree into the destination: the run has succeeded.
    WriteTree(RootfsTree),
    /// Give up with this error.
    Fail(Error),
    /// Give up: a layer was refused.
    FailAt(LayerFailure),
}

/// Where a run stands.
#[derive(Debug)]
pub enum Pipeline {
    AwaitingDestination { platform: Option<Platform> },
    AwaitingManifest { platform: Option<Platform> },
    AwaitingSelected,
    AwaitingCache { digests: Vec<String> },
    AwaitingBlobs { digests: Vec<String>, cache: BlobCache },
    Finished,
}

/// Whether the digests are those of the layers of the image, in layer
/// order.
pub open spec fn digests_of(image: ResolvedManifest, digests: Seq<String>) -> bool {
    &&& digests.len() == image@.len()
    &&& forall|i: int| 0 <= i < digests.len() ==> (#[trigger] digests[i])@ == image@[i].digest@
}

/// Whether a run that has resolved its image goes on to search the cache
/// for the layers of that image.
pub open spec fn searches_for(image: ResolvedManifest, after: Pipeline, action: Option<Action>) -> bool {
    &&& after matches Pipeline::AwaitingCache { digests }
    &&& digests_of(image, digests@)
    &&& action matches Some(Action::SearchCache { digests: asked })
    &&& texts(asked@) == texts(digests@)
}

/// Whether the action ends the run as the fetch went: with the error of
/// the fetch, or else with what unpacking the blobs gives, the tree or the
/// layer that was refused.
pub open spec fn concludes(action: Option<Action>, fetched: Result<Seq<Seq<u8>>, Error>) -> bool {
    match fetched {
        Err(error) => action == Some(Action::Fail(error)),
        Ok(blobs) => match unpack_spec(blobs) {
            Ok(tree) => action matches Some(Action::WriteTree(written)) && written@ == tree,
            Err(failure) => action matches Some(Action::FailAt(refused)) && refused@ == failure,
        },
    }
}

/// Whether `after` and `action` are what the event leads to from `before`.
///
/// An event that is not the answer to the last action leads nowhere: the
/// run stays where it is, and there is no action.
pub open spec fn leads_to(before: Pipeline, event: Event, after: Pipeline, action: Option<Action>) -> bool {
    match (before, event) {
        (Pipeline::AwaitingDestination { platform }, Event::DestinationInspected { entries }) => if entries
            > 0 {
            after == Pipeline::Finished && action == Some(Action::Fail(Error::DestinationNotEmpty))
        } else {
            after == (Pipeline::AwaitingManifest { platform }) && action == Some(Action::PullManifest)
        },
        (Pipeline::AwaitingManifest { platform }, Event::ManifestPulled(manifest)) => match resolve_top_spec(
            manifest,
            platform,
        ) {
            Err(error) => after == Pipeline::Finished && action == Some(Action::Fail(error)),
            Ok(Resolution::Follow { digest }) => after == Pipeline::AwaitingSelected && action == Some(
                Action::PullManifestByDigest { digest },
            ),
            Ok(Resolution::Done(image)) => searches_for(image, after, action),
        },
        (Pipeline::AwaitingSelected, Event::ManifestPulled(manifest)) => match resolve_selected_spec(manifest) {
            Err(error) => after == Pipeline::Finished && action == Some(Action::Fail(error)),
            Ok(image) => searches_for(image, after, action),
        },
        (Pipeline::AwaitingCache { digests }, Event::CacheSearched(found)) => {
            let cache = preload_spec(Map::empty(), found@);
            let missing = missing_spec(texts(digests@), cache);
            if missing.len() == 0 {
                after == Pipeline::Finished && concludes(
                    action,
                    fetch_all_spec(digests@, cache, Seq::empty()).1,
                )
            } else {
                &&& after matches Pipeline::AwaitingBlobs { digests: kept, cache: loaded }
                &&& kept == digests
                &&& loaded@ == cache
                &&& action matches Some(Action::FetchBlobs { digests: asked })
                &&& texts(asked@) == missing
            }
        },
        (Pipeline::AwaitingBlobs { digests, cache }, Event::BlobsFetched(outcomes)) => after
            == Pipeline::Finished && concludes(action, fetch_all_spec(digests@, cache@, outcomes@).1),
        _ => after == before && action is None,
    }
}

fn search_cache(image: ResolvedManifest) -> (r: (Pipeline, Option<Action>))
    ensures
        searches_for(image, r.0, r.1),
{
    let digests = image.digests();
    let asked = image.digests();
    assert(texts(asked@) =~= texts(digests@));
    (Pipeline::AwaitingCache { digests }, Some(Action::SearchCache { digests: asked }))
}

fn conclude(digests: &Vec<String>, cache: BlobCache, outcomes: Vec<FetchOutcome>) -> (action: Option<Action>)
    ensures
        concludes(action, fetch_all_spec(digests@, cache@, outcomes@).1),
{
    let mut cache = cache;
    match fetch_all(digests, &mut cache, outcomes) {
        Err(error) => Some(Action::Fail(error)),
        Ok(blobs) => match unpack(&blobs) {
            Ok(tree) => Some(Action::WriteTree(tree)),
            Err(failure) => Some(Action::FailAt(failure)),
        },
    }
}

impl Pipeline {
    /// Starts a run for the given platform, if any: the first thing to do
    /// is to look at the destination.
    pub fn start(platform: Option<Platform>) -> (r: (Pipeline, Action))
        ensures
            r.0 == (Pipeline::AwaitingDestination { platform }),
            r.1 == Action::InspectDestination,
    {
        (Pipeline::AwaitingDestination { platform }, Action::InspectDestination)
    }

    /// Whether the run is over.
    pub fn is_finished(&self) -> (r: bool)
        ensures
            r == (*self == Pipeline::Finished),
    {
        match self {
            Pipeline::Finished => true,
            _ => false,
        }
    }

    /// Takes in what has happened and says what to do next.
    pub fn step(self, event: Event) -> (r: (Pipeline, Option<Action>))
        ensures
            leads_to(self, event, r.0, r.1),
    {
        match (self, event) {
            (Pipeline::AwaitingDestination { platform }, Event::DestinationInspected { entries }) => {
                if entries > 0 {
                    (Pipeline::Finished, Some(Action::Fail(Error::DestinationNotEmpty)))
                } else {
                    (Pipeline::AwaitingManifest { platform }, Some(Action::PullManifest))
                }
            },
            (Pipeline::AwaitingManifest { platform }, Event::ManifestPulled(manifest)) => {
                let resolved = match &platform {
                    Some(requested) => resolve_top(manifest, Some(requested)),
                    None => resolve_top(manifest, None),
                };
                match resolved {
                    Err(error) => (Pipeline::Finished, Some(Action::Fail(error))),
                    Ok(Resolution::Follow { digest }) => (
                        Pipeline::AwaitingSelected,
                        Some(Action::PullManifestByDigest { digest }),
                    ),
                    Ok(Resolution::Done(image)) => search_cache(image),
                }
            },
            (Pipeline::AwaitingSelected, Event::ManifestPulled(manifest)) => {
                match resolve_selected(manifest) {
                    Err(error) => (Pipeline::Finished, Some(Action::Fail(error))),
                    Ok(image) => search_cache(image),
                }
            },
            (Pipeline::AwaitingCache { digests }, Event::CacheSearched(found)) => {
                let mut cache = BlobCache::new();
                preload(&mut cache, found);
                let missing = missing_digests(&digests, &cache);
                if missing.len() == 0 {
                    let action = conclude(&digests, cache, Vec::new());
                    (Pipeline::Finished, action)
                } else {
                    (Pipeline::AwaitingBlobs { digests, cache }, Some(Action::FetchBlobs { digests: missing }))
                }
            },
            (Pipeline::AwaitingBlobs { digests, cache }, Event::BlobsFetched(outcomes)) => {
                let action = conclude(&digests, cache, outcomes);
                (Pipeline::Finished, action)
            },
            (state, _) => (state, None),
        }
    }
}

/// A run that is over stays over: whatever is reported to it afterwards
/// leads to no action, so nothing is ever tried again.
pub proof fn law_finished_run_stays_finished(event: Event, after: Pipeline, action: Option<Action>)
    requires
        leads_to(Pipeline::Finished, event, after, action),
    ensures
        after == Pipeline::Finished,
        action is None,
{
}

/// A destination that holds anything ends the run at once with
/// `DestinationNotEmpty`, before anything is asked of the registry.
pub proof fn law_destination_must_be_empty(
    platform: Option<Platform>,
    entries: usize,
    after: Pipeline,
    action: Option<Action>,
)
    requires
        entries > 0,
        leads_to(
            Pipeline::AwaitingDestination { platform },
            Event::DestinationInspected { entries },
            after,
            action,
        ),
    ensures
        after == Pipeline::Finished,
        action == Some(Action::Fail(Error::DestinationNotEmpty)),
{
}

} // verus!
