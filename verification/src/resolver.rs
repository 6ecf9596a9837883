//! Picking the one platform-specific manifest an image reference stands for.

use crate::error::Error;
use crate::manifest::{Manifest, ManifestDescriptor, Platform, ResolvedManifest};
use vstd::prelude::*;

verus! {

/// Whether an optional text required by a request is met by what an entry
/// declares: a request that names nothing is met by anything.
pub open spec fn field_matches_spec(declared: Option<String>, requested: Option<String>) -> bool {
    match requested {
        None => true,
        Some(want) => match declared {
            None => false,
            Some(have) => have@ == want@,
        },
    }
}

/// Whether a declared platform is the requested one: the architectures are
/// equal, and so are the operating system and the variant wherever the
/// request names them.
pub open spec fn platform_matches_spec(declared: Platform, requested: Platform) -> bool {
    &&& declared.architecture@ == requested.architecture@
    &&& field_matches_spec(declared.os, requested.os)
    &&& field_matches_spec(declared.variant, requested.variant)
}

/// Whether an entry of a platform list is for the requested platform.  An
/// entry that declares no platform is for none.
pub open spec fn entry_matches_spec(entry: ManifestDescriptor, requested: Platform) -> bool {
    match entry.platform {
        None => false,
        Some(declared) => platform_matches_spec(declared, requested),
    }
}

/// Whether `at` is the position of the first entry for the requested
/// platform.
pub open spec fn is_first_match(entries: Seq<ManifestDescriptor>, requested: Platform, at: int) -> bool {
    &&& 0 <= at < entries.len()
    &&& entry_matches_spec(entries[at], requested)
    &&& forall|j: int| 0 <= j < at ==> !entry_matches_spec(#[trigger] entries[j], requested)
}

/// Whether no entry is for the requested platform.
pub open spec fn no_match(entries: Seq<ManifestDescriptor>, requested: Platform) -> bool {
    forall|j: int| 0 <= j < entries.len() ==> !entry_matches_spec(#[trigger] entries[j], requested)
}

fn field_matches(declared: &Option<String>, requested: &Option<String>) -> (r: bool)
    ensures
        r == field_matches_spec(*declared, *requested),
{
    match requested {
        None => true,
        Some(want) => match declared {
            None => false,
            Some(have) => *have == *want,
        },
    }
}

/// Whether a declared platform is the requested one.
pub fn platform_matches(declared: &Platform, requested: &Platform) -> (r: bool)
    ensures
        r == platform_matches_spec(*declared, *requested),
{
    declared.architecture == requested.architecture
        && field_matches(&declared.os, &requested.os)
        && field_matches(&declared.variant, &requested.variant)
}

/// Whether an entry of a platform list is for the requested platform.
pub fn entry_matches(entry: &ManifestDescriptor, requested: &Platform) -> (r: bool)
    ensures
        r == entry_matches_spec(*entry, *requested),
{
    match &entry.platform {
        None => false,
        Some(declared) => platform_matches(declared, requested),
    }
}

/// Finds the first entry for the requested platform; later entries for the
/// same platform are never looked at.
pub fn select_entry(entries: &Vec<ManifestDescriptor>, requested: &Platform) -> (r: Option<usize>)
    ensures
        match r {
            Some(at) => is_first_match(entries@, *requested, at as int),
            None => no_match(entries@, *requested),
        },
{
    let mut i: usize = 0;
    while i < entries.len()
        invariant
            i <= entries@.len(),
            forall|j: int| 0 <= j < i ==> !entry_matches_spec(#[trigger] entries@[j], *requested),
        decreases entries@.len() - i,
    {
        if entry_matches(&entries[i], requested) {
            return Some(i);
        }
        i += 1;
    }
    None
}

/// The position of the first entry for the requested platform, if any.
pub open spec fn first_match(entries: Seq<ManifestDescriptor>, requested: Platform) -> Option<int> {
    if no_match(entries, requested) {
        None
    } else {
        Some(choose|at: int| is_first_match(entries, requested, at))
    }
}

/// What a first look at an image's manifest leads to.
#[derive(Debug, PartialEq, Eq)]
pub enum Resolution {
    /// The manifest is the one to use.
    Done(ResolvedManifest),
    /// The manifest is a platform list; the one to use has this digest and
    /// has to be fetched next.
    Follow { digest: String },
}

/// What the manifest behind an image reference leads to.
///
/// A single image is the answer, whatever platform was asked for.  A
/// platform list needs a platform, and leads on to the digest of its first
/// entry for that platform.
pub open spec fn resolve_top_spec(manifest: Manifest, platform: Option<Platform>) -> Result<Resolution, Error> {
    match manifest {
        Manifest::Image(image) => Ok(Resolution::Done(image)),
        Manifest::Index(entries) => match platform {
            None => Err(Error::AmbiguousPlatform),
            Some(requested) => match first_match(entries@, requested) {
                None => Err(Error::NoMatchingPlatform),
                Some(at) => Ok(Resolution::Follow { digest: entries@[at].digest }),
            },
        },
    }
}

/// What the manifest that a platform list pointed at leads to: it has to be
/// a single image, since a list inside a list breaks the protocol.
pub open spec fn resolve_selected_spec(manifest: Manifest) -> Result<ResolvedManifest, Error> {
    match manifest {
        Manifest::Image(image) => Ok(image),
        Manifest::Index(_) => Err(Error::MalformedManifest),
    }
}

/// The whole resolution, against a registry that answers `by_digest` when
/// asked for a manifest by digest and `top` when asked for the image itself.
pub open spec fn resolve_spec(
    top: Manifest,
    platform: Option<Platform>,
    by_digest: spec_fn(String) -> Manifest,
) -> Result<ResolvedManifest, Error> {
    match resolve_top_spec(top, platform) {
        Err(e) => Err(e),
        Ok(Resolution::Done(image)) => Ok(image),
        Ok(Resolution::Follow { digest }) => resolve_selected_spec(by_digest(digest)),
    }
}

/// A position found by a scan is the one `first_match` names.
pub proof fn lemma_first_match_is_unique(entries: Seq<ManifestDescriptor>, requested: Platform, at: int)
    requires
        is_first_match(entries, requested, at),
    ensures
        first_match(entries, requested) == Some(at),
{
    let other = choose|k: int| is_first_match(entries, requested, k);
    assert(is_first_match(entries, requested, other));
    if other < at {
        assert(!entry_matches_spec(entries[other], requested));
    } else if at < other {
        assert(!entry_matches_spec(entries[at], requested));
    }
}

/// Decides what to do with the manifest that the image reference itself
/// names.
pub fn resolve_top(manifest: Manifest, platform: Option<&Platform>) -> (r: Result<Resolution, Error>)
    ensures
        r == resolve_top_spec(
            manifest,
            match platform {
                Some(p) => Some(*p),
                None => None,
            },
        ),
{
    match manifest {
        Manifest::Image(image) => Ok(Resolution::Done(image)),
        Manifest::Index(entries) => match platform {
            None => Err(Error::AmbiguousPlatform),
            Some(requested) => match select_entry(&entries, requested) {
                None => Err(Error::NoMatchingPlatform),
                Some(at) => {
                    proof {
                        lemma_first_match_is_unique(entries@, *requested, at as int);
                    }
                    Ok(Resolution::Follow { digest: entries[at].digest.clone() })
                },
            },
        },
    }
}

/// Decides what to do with the manifest that a platform list pointed at.
pub fn resolve_selected(manifest: Manifest) -> (r: Result<ResolvedManifest, Error>)
    ensures
        r == resolve_selected_spec(manifest),
{
    match manifest {
        Manifest::Image(image) => Ok(image),
        Manifest::Index(_) => Err(Error::MalformedManifest),
    }
}

/// A manifest that is not a platform list is returned as it is, whatever
/// platform was asked for and whatever else the registry holds.
pub proof fn law_single_image_is_returned_unchanged(
    image: ResolvedManifest,
    platform: Option<Platform>,
    by_digest: spec_fn(String) -> Manifest,
)
    ensures
        resolve_top_spec(Manifest::Image(image), platform) == Ok::<Resolution, Error>(Resolution::Done(image)),
        resolve_spec(Manifest::Image(image), platform, by_digest) == Ok::<ResolvedManifest, Error>(image),
{
}

/// A platform list asked about without a platform always ends in
/// `AmbiguousPlatform`, whatever the list and the registry hold.
pub proof fn law_platform_list_needs_platform(
    entries: Vec<ManifestDescriptor>,
    by_digest: spec_fn(String) -> Manifest,
)
    ensures
        resolve_top_spec(Manifest::Index(entries), None) == Err::<Resolution, Error>(Error::AmbiguousPlatform),
        resolve_spec(Manifest::Index(entries), None, by_digest) == Err::<ResolvedManifest, Error>(
            Error::AmbiguousPlatform,
        ),
{
}

/// In a platform list the entry followed is the first one for the requested
/// platform: entries before it, being for other platforms, are passed over,
/// and the result is whatever image the registry holds under that entry's
/// digest.
pub proof fn law_requested_platform_is_followed(
    entries: Vec<ManifestDescriptor>,
    requested: Platform,
    at: int,
    by_digest: spec_fn(String) -> Manifest,
)
    requires
        is_first_match(entries@, requested, at),
    ensures
        resolve_top_spec(Manifest::Index(entries), Some(requested)) == Ok::<Resolution, Error>(
            (Resolution::Follow { digest: entries@[at].digest }),
        ),
        resolve_spec(Manifest::Index(entries), Some(requested), by_digest) == resolve_selected_spec(
            by_digest(entries@[at].digest),
        ),
        forall|image: ResolvedManifest|
            by_digest(entries@[at].digest) == Manifest::Image(image) ==> resolve_spec(
                Manifest::Index(entries),
                Some(requested),
                by_digest,
            ) == Ok::<ResolvedManifest, Error>(image),
{
    lemma_first_match_is_unique(entries@, requested, at);
}

/// A platform list without an entry for the requested platform ends in
/// `NoMatchingPlatform`.
pub proof fn law_missing_platform_fails(
    entries: Vec<ManifestDescriptor>,
    requested: Platform,
    by_digest: spec_fn(String) -> Manifest,
)
    requires
        no_match(entries@, requested),
    ensures
        resolve_spec(Manifest::Index(entries), Some(requested), by_digest) == Err::<ResolvedManifest, Error>(
            Error::NoMatchingPlatform,
        ),
{
}

} // verus!
