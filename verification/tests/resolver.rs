use docker2rootfs::error::{Error, Stage};
use docker2rootfs::manifest::{
    ImageReference, LayerDescriptor, Manifest, ManifestDescriptor, Platform, ResolvedManifest,
};
use docker2rootfs::resolver::{
    entry_matches, platform_matches, resolve_selected, resolve_top, select_entry, Resolution,
};

fn layer(digest: &str) -> LayerDescriptor {
    LayerDescriptor::new(
        digest.to_string(),
        10,
        "application/vnd.oci.image.layer.v1.tar+gzip".to_string(),
    )
    .unwrap()
}

fn image(digests: &[&str]) -> ResolvedManifest {
    ResolvedManifest::new(digests.iter().map(|d| layer(d)).collect()).unwrap()
}

fn arch(architecture: &str) -> Platform {
    Platform { architecture: architecture.to_string(), os: None, variant: None }
}

fn declared(architecture: &str, os: &str, variant: Option<&str>) -> Platform {
    Platform {
        architecture: architecture.to_string(),
        os: Some(os.to_string()),
        variant: variant.map(|v| v.to_string()),
    }
}

fn entry(digest: &str, platform: Option<Platform>) -> ManifestDescriptor {
    ManifestDescriptor { digest: digest.to_string(), platform }
}

#[test]
fn single_image_is_returned_unchanged_without_platform() {
    let r = resolve_top(Manifest::Image(image(&["sha256:l0", "sha256:l1"])), None);
    assert_eq!(r, Ok(Resolution::Done(image(&["sha256:l0", "sha256:l1"]))));
}

#[test]
fn single_image_is_returned_unchanged_with_any_platform() {
    let wanted = arch("riscv64");
    let r = resolve_top(Manifest::Image(image(&["sha256:l0"])), Some(&wanted));
    assert_eq!(r, Ok(Resolution::Done(image(&["sha256:l0"]))));
    let layers = match r.unwrap() {
        Resolution::Done(m) => m.digests(),
        Resolution::Follow { .. } => panic!("a single image is never followed"),
    };
    assert_eq!(layers, vec!["sha256:l0".to_string()]);
}

#[test]
fn requested_platform_is_followed_never_the_other() {
    let index = Manifest::Index(vec![
        entry("sha256:for-a", Some(declared("amd64", "linux", None))),
        entry("sha256:for-b", Some(declared("arm64", "linux", None))),
    ]);
    let wanted = arch("arm64");
    let r = resolve_top(index, Some(&wanted));
    assert_eq!(r, Ok(Resolution::Follow { digest: "sha256:for-b".to_string() }));
    let resolved = resolve_selected(Manifest::Image(image(&["sha256:b0", "sha256:b1"])));
    assert_eq!(resolved, Ok(image(&["sha256:b0", "sha256:b1"])));
}

#[test]
fn platform_list_without_platform_is_ambiguous() {
    let index = Manifest::Index(vec![
        entry("sha256:for-a", Some(declared("amd64", "linux", None))),
        entry("sha256:for-b", Some(declared("arm64", "linux", None))),
    ]);
    assert_eq!(resolve_top(index, None), Err(Error::AmbiguousPlatform));
    assert_eq!(resolve_top(Manifest::Index(vec![]), None), Err(Error::AmbiguousPlatform));
}

#[test]
fn platform_list_without_match_fails() {
    let index = Manifest::Index(vec![
        entry("sha256:for-a", Some(declared("amd64", "linux", None))),
        entry("sha256:nobody", None),
    ]);
    let wanted = arch("s390x");
    assert_eq!(resolve_top(index, Some(&wanted)), Err(Error::NoMatchingPlatform));
    assert_eq!(resolve_top(Manifest::Index(vec![]), Some(&wanted)), Err(Error::NoMatchingPlatform));
}

#[test]
fn first_matching_entry_wins() {
    let entries = vec![
        entry("sha256:other", Some(declared("amd64", "linux", None))),
        entry("sha256:first", Some(declared("arm", "linux", Some("v6")))),
        entry("sha256:second", Some(declared("arm", "linux", Some("v7")))),
    ];
    let wanted = arch("arm");
    assert_eq!(select_entry(&entries, &wanted), Some(1));
    let r = resolve_top(Manifest::Index(entries), Some(&wanted));
    assert_eq!(r, Ok(Resolution::Follow { digest: "sha256:first".to_string() }));
}

#[test]
fn os_and_variant_count_where_the_request_names_them() {
    let entries = vec![
        entry("sha256:v6", Some(declared("arm", "linux", Some("v6")))),
        entry("sha256:win", Some(declared("arm", "windows", Some("v7")))),
        entry("sha256:v7", Some(declared("arm", "linux", Some("v7")))),
    ];
    let wanted = Platform {
        architecture: "arm".to_string(),
        os: Some("linux".to_string()),
        variant: Some("v7".to_string()),
    };
    assert_eq!(select_entry(&entries, &wanted), Some(2));
    assert!(platform_matches(&declared("arm", "linux", Some("v7")), &wanted));
    assert!(!platform_matches(&declared("arm", "linux", None), &wanted));
    assert!(!platform_matches(&declared("arm64", "linux", Some("v7")), &wanted));
    assert!(platform_matches(&declared("arm", "linux", Some("v7")), &arch("arm")));
}

#[test]
fn entry_without_platform_matches_nothing() {
    assert!(!entry_matches(&entry("sha256:x", None), &arch("amd64")));
    assert!(entry_matches(&entry("sha256:x", Some(declared("amd64", "linux", None))), &arch("amd64")));
    assert_eq!(select_entry(&vec![], &arch("amd64")), None);
}

#[test]
fn list_inside_a_list_is_malformed() {
    let nested = Manifest::Index(vec![entry("sha256:deeper", Some(declared("amd64", "linux", None)))]);
    assert_eq!(resolve_selected(nested), Err(Error::MalformedManifest));
}

#[test]
fn manifest_needs_layers_and_sizes() {
    assert_eq!(ResolvedManifest::new(vec![]), Err(Error::MalformedManifest));
    assert_eq!(
        LayerDescriptor::new("sha256:x".to_string(), -1, "t".to_string()),
        Err(Error::MalformedManifest)
    );
    let ok = LayerDescriptor::new("sha256:x".to_string(), 0, "t".to_string()).unwrap();
    assert_eq!(ok.size, 0);
    let m = image(&["sha256:a", "sha256:a"]);
    assert_eq!(m.len(), 2);
    assert_eq!(m.layers()[1].digest, "sha256:a");
    assert_eq!(m.clone(), m);
}

#[test]
fn every_error_has_its_stage() {
    assert_eq!(Error::DestinationNotEmpty.stage(), Some(Stage::Preflight));
    assert_eq!(Error::AmbiguousPlatform.stage(), Some(Stage::Resolve));
    assert_eq!(Error::NoMatchingPlatform.stage(), Some(Stage::Resolve));
    assert_eq!(Error::MalformedManifest.stage(), Some(Stage::Resolve));
    assert_eq!(Error::BlobFetchFailed { digest: "sha256:x".to_string() }.stage(), Some(Stage::Fetch));
    assert_eq!(Error::PathTraversal.stage(), Some(Stage::Materialize));
    assert_eq!(Error::ArchiveParseError.stage(), Some(Stage::Materialize));
    assert_eq!(Error::IOFailure.stage(), None);
}

#[test]
fn image_reference_keeps_its_parts() {
    let r = ImageReference::new("ghcr.io".to_string(), "owner/image".to_string(), "latest".to_string());
    assert_eq!(r.registry(), "ghcr.io");
    assert_eq!(r.image(), "owner/image");
    assert_eq!(r.reference(), "latest");
    assert_eq!(r.clone(), r);
}
