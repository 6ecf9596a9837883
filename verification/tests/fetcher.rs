use docker2rootfs::bytes::{bytes_equal, copy_bytes, copy_range};
use docker2rootfs::cache::BlobCache;
use docker2rootfs::error::Error;
use docker2rootfs::fetcher::{
    collect_layers, fetch_all, missing_digests, preload, record_outcomes, FetchOutcome,
};

fn digests(names: &[&str]) -> Vec<String> {
    names.iter().map(|n| n.to_string()).collect()
}

fn arrived(digest: &str, bytes: &[u8]) -> FetchOutcome {
    FetchOutcome { digest: digest.to_string(), bytes: Some(bytes.to_vec()) }
}

fn failed(digest: &str) -> FetchOutcome {
    FetchOutcome { digest: digest.to_string(), bytes: None }
}

#[test]
fn cache_returns_what_was_put() {
    let mut cache = BlobCache::new();
    let d = "sha256:aa".to_string();
    assert_eq!(cache.get(&d), None);
    assert!(!cache.contains(&d));
    cache.put(d.clone(), vec![1, 2, 3]);
    assert_eq!(cache.get(&d), Some(&vec![1, 2, 3]));
    assert!(cache.contains(&d));
    assert_eq!(cache.get(&"sha256:a".to_string()), None);
    assert_eq!(cache.get(&"sha256:aaa".to_string()), None);
}

#[test]
fn cache_put_is_idempotent_and_replaces() {
    let mut cache = BlobCache::new();
    let d = "sha256:aa".to_string();
    let e = "sha256:bb".to_string();
    cache.put(d.clone(), vec![1]);
    cache.put(e.clone(), vec![2]);
    cache.put(d.clone(), vec![1]);
    assert_eq!(cache.get(&d), Some(&vec![1]));
    assert_eq!(cache.get(&e), Some(&vec![2]));
    cache.put(d.clone(), vec![9, 9]);
    assert_eq!(cache.get(&d), Some(&vec![9, 9]));
    assert_eq!(cache.get(&e), Some(&vec![2]));
}

#[test]
fn missing_digests_are_distinct_and_in_order() {
    let mut cache = BlobCache::new();
    cache.put("d2".to_string(), vec![2]);
    let wanted = digests(&["d3", "d1", "d2", "d3", "d1", "d4"]);
    assert_eq!(missing_digests(&wanted, &cache), digests(&["d3", "d1", "d4"]));
    assert_eq!(missing_digests(&vec![], &cache), Vec::<String>::new());
}

#[test]
fn blobs_come_back_in_digest_order_whatever_completes_first() {
    let wanted = digests(&["d1", "d2", "d3"]);
    let orders: Vec<Vec<&str>> = vec![
        vec!["d1", "d2", "d3"],
        vec!["d3", "d2", "d1"],
        vec!["d2", "d3", "d1"],
        vec!["d3", "d1", "d2"],
    ];
    for order in orders {
        let mut cache = BlobCache::new();
        let outcomes: Vec<FetchOutcome> =
            order.iter().map(|d| arrived(d, format!("bytes of {}", d).as_bytes())).collect();
        let blobs = fetch_all(&wanted, &mut cache, outcomes).unwrap();
        assert_eq!(
            blobs,
            vec![b"bytes of d1".to_vec(), b"bytes of d2".to_vec(), b"bytes of d3".to_vec()]
        );
    }
}

#[test]
fn repeated_digest_is_served_once_fetched() {
    let wanted = digests(&["base", "top", "base"]);
    let mut cache = BlobCache::new();
    assert_eq!(missing_digests(&wanted, &cache), digests(&["base", "top"]));
    let blobs =
        fetch_all(&wanted, &mut cache, vec![arrived("top", b"T"), arrived("base", b"B")]).unwrap();
    assert_eq!(blobs, vec![b"B".to_vec(), b"T".to_vec(), b"B".to_vec()]);
}

#[test]
fn second_fetch_needs_no_transfer_and_gives_the_same() {
    let wanted = digests(&["d1", "d2", "d3"]);
    let mut cache = BlobCache::new();
    let first = fetch_all(
        &wanted,
        &mut cache,
        vec![arrived("d2", b"two"), arrived("d3", b"three"), arrived("d1", b"one")],
    )
    .unwrap();
    assert_eq!(missing_digests(&wanted, &cache), Vec::<String>::new());
    let second = fetch_all(&wanted, &mut cache, vec![]).unwrap();
    assert_eq!(first, second);
    assert_eq!(second, vec![b"one".to_vec(), b"two".to_vec(), b"three".to_vec()]);
}

#[test]
fn one_failed_transfer_fails_the_fetch() {
    let wanted = digests(&["d1", "d2", "d3"]);
    let mut cache = BlobCache::new();
    let r = fetch_all(
        &wanted,
        &mut cache,
        vec![arrived("d1", b"one"), failed("d3"), failed("d2")],
    );
    assert_eq!(r, Err(Error::BlobFetchFailed { digest: "d3".to_string() }));
    assert!(cache.contains(&"d1".to_string()));
    assert!(!cache.contains(&"d2".to_string()));
}

#[test]
fn digest_that_never_arrived_fails_the_fetch() {
    let wanted = digests(&["d1", "d2", "d3"]);
    let mut cache = BlobCache::new();
    let r = fetch_all(&wanted, &mut cache, vec![arrived("d1", b"one"), arrived("d3", b"three")]);
    assert_eq!(r, Err(Error::BlobFetchFailed { digest: "d2".to_string() }));
    assert_eq!(collect_layers(&wanted, &cache), Err(Error::BlobFetchFailed { digest: "d2".to_string() }));
}

#[test]
fn record_stops_at_first_failure() {
    let mut cache = BlobCache::new();
    let r = record_outcomes(&mut cache, vec![arrived("a", b"A"), failed("b"), arrived("c", b"C")]);
    assert_eq!(r, Err(Error::BlobFetchFailed { digest: "b".to_string() }));
    assert!(cache.contains(&"a".to_string()));
    assert!(!cache.contains(&"c".to_string()));
    assert_eq!(record_outcomes(&mut cache, vec![arrived("c", b"C")]), Ok(()));
    assert_eq!(cache.get(&"c".to_string()), Some(&b"C".to_vec()));
}

#[test]
fn preload_takes_what_was_found() {
    let mut cache = BlobCache::new();
    preload(&mut cache, vec![arrived("a", b"A"), failed("b"), arrived("c", b"C")]);
    assert_eq!(cache.get(&"a".to_string()), Some(&b"A".to_vec()));
    assert_eq!(cache.get(&"b".to_string()), None);
    assert_eq!(cache.get(&"c".to_string()), Some(&b"C".to_vec()));
    assert_eq!(
        collect_layers(&digests(&["c", "a"]), &cache),
        Ok(vec![b"C".to_vec(), b"A".to_vec()])
    );
}

#[test]
fn byte_helpers() {
    let v = vec![1u8, 2, 3, 4];
    assert_eq!(copy_bytes(&v), v);
    assert_eq!(copy_range(&v, 1, 3), vec![2, 3]);
    assert_eq!(copy_range(&v, 2, 2), Vec::<u8>::new());
    assert!(bytes_equal(&v, &vec![1, 2, 3, 4]));
    assert!(!bytes_equal(&v, &vec![1, 2, 3]));
    assert!(!bytes_equal(&v, &vec![1, 2, 3, 5]));
}
