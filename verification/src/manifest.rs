//! What a registry says about an image: references, platforms, manifests.

use crate::error::Error;
use vstd::prelude::*;

verus! {

/// Where an image lives: registry host, image name, and a tag or digest.
/// A reference never changes once it is made.
#[derive(Debug, Clone, PartialEq, Eq)]
pub struct ImageReference {
    registry: String,
    image: String,
    reference: String,
}

impl ImageReference {
    /// The registry host.
    pub closed spec fn registry_spec(&self) -> Seq<char> {
        self.registry@
    }

    /// The name of the image.
    pub closed spec fn image_spec(&self) -> Seq<char> {
        self.image@
    }

    /// The tag or digest.
    pub closed spec fn reference_spec(&self) -> Seq<char> {
        self.reference@
    }

    /// Makes a reference to an image.
    pub fn new(registry: String, image: String, reference: String) -> (r: ImageReference)
        ensures
            r.registry_spec() == registry@,
            r.image_spec() == image@,
            r.reference_spec() == reference@,
    {
        ImageReference { registry, image, reference }
    }

    /// The registry host.
    pub fn registry(&self) -> (r: &String)
        ensures
            r@ == self.registry_spec(),
    {
        &self.registry
    }

    /// The name of the image.
    pub fn image(&self) -> (r: &String)
        ensures
            r@ == self.image_spec(),
    {
        &self.image
    }

    /// The tag or digest.
    pub fn reference(&self) -> (r: &String)
        ensures
            r@ == self.reference_spec(),
    {
        &self.reference
    }
}

/// A target platform: the architecture, and the operating system and CPU
/// variant where they matter.
#[derive(Debug, Clone, PartialEq, Eq)]
pub struct Platform {
    pub architecture: String,
    pub os: Option<String>,
    pub variant: Option<String>,
}

/// One entry of a platform list: the digest of a manifest and the platform
/// that manifest is for, if the list declares one.
#[derive(Debug, Clone, PartialEq, Eq)]
pub struct ManifestDescriptor {
    pub digest: String,
    pub platform: Option<Platform>,
}

/// One layer of an image: the digest of its blob, the size the manifest
/// declares for it, and its media type.
#[derive(Debug, Clone, PartialEq, Eq)]
pub struct LayerDescriptor {
    pub digest: String,
    pub size: u64,
    pub media_type: String,
}

/// The layers of one platform-specific image, base layer first.
///
/// A value of this type always holds at least one layer.
#[derive(Debug, PartialEq, Eq)]
pub struct ResolvedManifest {
    layers: Vec<LayerDescriptor>,
}

/// A manifest as the registry hands it out.
#[derive(Debug, Clone, PartialEq, Eq)]
pub enum Manifest {
    /// The manifest of a single image.
    Image(ResolvedManifest),
    /// A platform list: one entry per platform-specific image.
    Index(Vec<ManifestDescriptor>),
}

impl LayerDescriptor {
    /// Checks a layer entry as it stands in a manifest document, where the
    /// size is a signed number: a negative size makes the manifest malformed.
    pub fn new(digest: String, size: i64, media_type: String) -> (r: Result<LayerDescriptor, Error>)
        ensures
            size < 0 ==> r == Err::<LayerDescriptor, Error>(Error::MalformedManifest),
            size >= 0 ==> r == Ok::<LayerDescriptor, Error>(
                (LayerDescriptor { digest, size: size as u64, media_type }),
            ),
    {
        if size < 0 {
            Err(Error::MalformedManifest)
        } else {
            Ok(LayerDescriptor { digest, size: size as u64, media_type })
        }
    }
}

impl View for ResolvedManifest {
    type V = Seq<LayerDescriptor>;

    closed spec fn view(&self) -> Seq<LayerDescriptor> {
        self.layers@
    }
}

impl Clone for ResolvedManifest {
    fn clone(&self) -> (r: Self)
        ensures
            r@ == self@,
    {
        proof {
            use_type_invariant(self);
        }
        let mut layers: Vec<LayerDescriptor> = Vec::new();
        let mut i: usize = 0;
        while i < self.layers.len()
            invariant
                i <= self.layers@.len(),
                layers@ == self.layers@.subrange(0, i as int),
            decreases self.layers@.len() - i,
        {
            let layer = &self.layers[i];
            layers.push(
                LayerDescriptor {
                    digest: layer.digest.clone(),
                    size: layer.size,
                    media_type: layer.media_type.clone(),
                },
            );
            proof {
                assert(layers@ =~= self.layers@.subrange(0, i + 1));
            }
            i += 1;
        }
        proof {
            assert(layers@ =~= self.layers@);
        }
        ResolvedManifest { layers }
    }
}

impl ResolvedManifest {
    #[verifier::type_invariant]
    spec fn non_empty(self) -> bool {
        self.layers@.len() > 0
    }

    /// Makes a manifest of the given layers, base layer first.  A manifest
    /// without layers is malformed.
    pub fn new(layers: Vec<LayerDescriptor>) -> (r: Result<ResolvedManifest, Error>)
        ensures
            layers@.len() == 0 ==> r == Err::<ResolvedManifest, Error>(Error::MalformedManifest),
            layers@.len() > 0 ==> r is Ok && r->Ok_0@ == layers@,
    {
        if layers.len() == 0 {
            Err(Error::MalformedManifest)
        } else {
            Ok(ResolvedManifest { layers })
        }
    }

    /// The layers, base layer first.
    pub fn layers(&self) -> (r: &Vec<LayerDescriptor>)
        ensures
            r@ == self@,
            r@.len() > 0,
    {
        proof {
            use_type_invariant(self);
        }
        &self.layers
    }

    /// The number of layers; never zero.
    pub fn len(&self) -> (n: usize)
        ensures
            n == self@.len(),
            n > 0,
    {
        proof {
            use_type_invariant(self);
        }
        self.layers.len()
    }

    /// The digests of the layers, in layer order.
    pub fn digests(&self) -> (r: Vec<String>)
        ensures
            r@.len() == self@.len(),
            forall|i: int| 0 <= i < r@.len() ==> (#[trigger] r@[i])@ == self@[i].digest@,
    {
        let mut out: Vec<String> = Vec::new();
        let mut i: usize = 0;
        while i < self.layers.len()
            invariant
                i <= self.layers@.len(),
                out@.len() == i,
                forall|j: int| 0 <= j < i ==> (#[trigger] out@[j])@ == self.layers@[j].digest@,
            decreases self.layers@.len() - i,
        {
            out.push(self.layers[i].digest.clone());
            i += 1;
        }
        out
    }
}

} // verus!
