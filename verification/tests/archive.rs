use docker2rootfs::archive::{ArchiveEntry, EntryKind, Node};
use docker2rootfs::driver::{Action, Event, Pipeline};
use docker2rootfs::error::Error;
use docker2rootfs::fetcher::FetchOutcome;
use docker2rootfs::manifest::{LayerDescriptor, Manifest, ManifestDescriptor, Platform, ResolvedManifest};
use docker2rootfs::materializer::{decode_layer, unpack, LayerFailure};
use docker2rootfs::rootfs::RootfsTree;
use docker2rootfs::tar::{
    block_is_zero, parse_archive, parse_header, read_attributes, read_number, read_text,
};

fn put_octal(block: &mut [u8], at: usize, width: usize, value: u64) {
    let text = format!("{:0digits$o}", value, digits = width - 1);
    block[at..at + width - 1].copy_from_slice(text.as_bytes());
    block[at + width - 1] = 0;
}

fn seal(block: &mut [u8]) {
    for b in block[148..156].iter_mut() {
        *b = b' ';
    }
    let sum: u64 = block.iter().map(|b| *b as u64).sum();
    let text = format!("{:06o}", sum);
    block[148..154].copy_from_slice(text.as_bytes());
    block[154] = 0;
    block[155] = b' ';
}

fn header(name: &[u8], typeflag: u8, size: u64, link: &[u8]) -> Vec<u8> {
    let mut block = vec![0u8; 512];
    block[..name.len()].copy_from_slice(name);
    put_octal(&mut block, 100, 8, 0o644);
    put_octal(&mut block, 108, 8, 1000);
    put_octal(&mut block, 116, 8, 100);
    put_octal(&mut block, 124, 12, size);
    put_octal(&mut block, 136, 12, 1_700_000_000);
    block[156] = typeflag;
    block[157..157 + link.len()].copy_from_slice(link);
    block[257..263].copy_from_slice(b"ustar\0");
    block[263..265].copy_from_slice(b"00");
    seal(&mut block);
    block
}

fn member(name: &[u8], typeflag: u8, data: &[u8], link: &[u8]) -> Vec<u8> {
    let mut out = header(name, typeflag, data.len() as u64, link);
    out.extend_from_slice(data);
    while out.len() % 512 != 0 {
        out.push(0);
    }
    out
}

fn archive(members: &[Vec<u8>]) -> Vec<u8> {
    let mut out: Vec<u8> = Vec::new();
    for m in members {
        out.extend_from_slice(m);
    }
    out.extend_from_slice(&[0u8; 1024]);
    out
}

fn node(kind: EntryKind, content: &[u8], link: &[u8]) -> Node {
    Node {
        kind,
        content: content.to_vec(),
        link_target: link.to_vec(),
        dev_major: 0,
        dev_minor: 0,
        mode: 0o644,
        uid: 1000,
        gid: 100,
        mtime: 1_700_000_000,
    }
}

fn entry(name: &[u8], kind: EntryKind, content: &[u8], link: &[u8]) -> ArchiveEntry {
    ArchiveEntry { path: name.to_vec(), node: node(kind, content, link) }
}

fn gzip(data: &[u8]) -> Vec<u8> {
    let mut encoder = flate2::write::GzEncoder::new(Vec::new(), flate2::Compression::default());
    std::io::Write::write_all(&mut encoder, data).unwrap();
    encoder.finish().unwrap()
}

fn tree_paths(tree: &RootfsTree) -> Vec<String> {
    let mut out: Vec<String> = Vec::new();
    for i in 0..tree.len() {
        out.push(String::from_utf8(tree.path_at(i).to_bytes()).unwrap());
    }
    out.sort();
    out
}

#[test]
fn archive_entries_are_read_in_order() {
    let bytes = archive(&[
        member(b"etc/", b'5', b"", b""),
        member(b"etc/hostname", b'0', b"box\n", b""),
        member(b"bin", b'2', b"", b"usr/bin"),
        member(b"etc/alias", b'1', b"", b"etc/hostname"),
        member(b"run/pipe", b'6', b"", b""),
        member(b"old", 0, b"old style", b""),
        member(b"contiguous", b'7', b"c", b""),
    ]);
    assert_eq!(
        parse_archive(&bytes),
        Ok(vec![
            entry(b"etc/", EntryKind::Directory, b"", b""),
            entry(b"etc/hostname", EntryKind::File, b"box\n", b""),
            entry(b"bin", EntryKind::Symlink, b"", b"usr/bin"),
            entry(b"etc/alias", EntryKind::HardLink, b"", b"etc/hostname"),
            entry(b"run/pipe", EntryKind::Fifo, b"", b""),
            entry(b"old", EntryKind::File, b"old style", b""),
            entry(b"contiguous", EntryKind::File, b"c", b""),
        ])
    );
}

#[test]
fn archive_data_is_padded_to_blocks() {
    let exact = vec![7u8; 512];
    let more = vec![9u8; 513];
    let bytes = archive(&[
        member(b"empty", b'0', b"", b""),
        member(b"exact", b'0', &exact, b""),
        member(b"more", b'0', &more, b""),
    ]);
    assert_eq!(bytes.len(), 512 + 1024 + 512 + 1024 + 1024);
    let entries = parse_archive(&bytes).unwrap();
    assert_eq!(entries.len(), 3);
    assert_eq!(entries[0].node.content, Vec::<u8>::new());
    assert_eq!(entries[1].node.content, exact);
    assert_eq!(entries[2].node.content, more);
}

#[test]
fn archive_may_end_without_end_mark() {
    assert_eq!(parse_archive(&vec![]), Ok(vec![]));
    assert_eq!(parse_archive(&vec![0u8; 512]), Ok(vec![]));
    let one = member(b"f", b'0', b"data", b"");
    assert_eq!(parse_archive(&one), Ok(vec![entry(b"f", EntryKind::File, b"data", b"")]));
    let mut cut = header(b"f", b'0', 4, b"");
    cut.extend_from_slice(b"data");
    assert_eq!(parse_archive(&cut), Ok(vec![entry(b"f", EntryKind::File, b"data", b"")]));
}

#[test]
fn archive_ends_at_zero_block() {
    let mut bytes = member(b"f", b'0', b"data", b"");
    bytes.extend_from_slice(&[0u8; 512]);
    bytes.extend_from_slice(&member(b"after", b'0', b"x", b""));
    bytes.extend_from_slice(b"garbage");
    assert_eq!(parse_archive(&bytes), Ok(vec![entry(b"f", EntryKind::File, b"data", b"")]));
}

#[test]
fn broken_archives_are_refused() {
    assert_eq!(parse_archive(&b"not a tar file".to_vec()), Err(Error::ArchiveParseError));
    let mut bad_sum = member(b"f", b'0', b"data", b"");
    bad_sum[0] = b'g';
    assert_eq!(parse_archive(&bad_sum), Err(Error::ArchiveParseError));
    let mut short_data = header(b"f", b'0', 600, b"");
    short_data.extend_from_slice(&[1u8; 599]);
    assert_eq!(parse_archive(&short_data), Err(Error::ArchiveParseError));
    let mut short_header = member(b"f", b'0', b"data", b"");
    short_header.extend_from_slice(&header(b"g", b'0', 0, b"")[..511]);
    assert_eq!(parse_archive(&short_header), Err(Error::ArchiveParseError));
    assert_eq!(parse_archive(&archive(&[member(b"sparse", b'S', b"", b"")])), Err(Error::ArchiveParseError));
    let mut bad_mode = header(b"f", b'0', 0, b"");
    bad_mode[100..107].copy_from_slice(b"0000648");
    seal(&mut bad_mode);
    assert_eq!(parse_archive(&bad_mode), Err(Error::ArchiveParseError));
}

#[test]
fn long_names_use_the_prefix_field() {
    let mut block = header(b"name", b'0', 0, b"");
    block[345..345 + 10].copy_from_slice(b"some/where");
    seal(&mut block);
    assert_eq!(
        parse_archive(&block),
        Ok(vec![entry(b"some/where/name", EntryKind::File, b"", b"")])
    );
    let mut old = header(b"name", b'0', 0, b"");
    old[345..345 + 10].copy_from_slice(b"some/where");
    old[257..265].copy_from_slice(b"ustar  \0");
    seal(&mut old);
    assert_eq!(parse_archive(&old), Ok(vec![entry(b"name", EntryKind::File, b"", b"")]));
    let full = vec![b'n'; 100];
    assert_eq!(
        parse_archive(&header(&full, b'0', 0, b"")),
        Ok(vec![entry(&full, EntryKind::File, b"", b"")])
    );
}

#[test]
fn long_names_come_in_headers_of_their_own() {
    let long: Vec<u8> = format!("{}/file", "d".repeat(150)).into_bytes();
    let target: Vec<u8> = format!("{}/target", "t".repeat(120)).into_bytes();
    let mut name_data = long.clone();
    name_data.push(0);
    let mut link_data = target.clone();
    link_data.push(0);
    let bytes = archive(&[
        member(b"././@LongLink", b'K', &link_data, b""),
        member(b"././@LongLink", b'L', &name_data, b""),
        member(b"short", b'2', b"", b"cut"),
        member(b"next", b'0', b"n", b""),
    ]);
    assert_eq!(
        parse_archive(&bytes),
        Ok(vec![
            entry(&long, EntryKind::Symlink, b"", &target),
            entry(b"next", EntryKind::File, b"n", b""),
        ])
    );
}

fn record(key: &str, value: &str) -> Vec<u8> {
    let body = format!(" {}={}\n", key, value);
    let mut length = body.len() + 1;
    while format!("{}{}", length, body).len() != length {
        length += 1;
    }
    format!("{}{}", length, body).into_bytes()
}

#[test]
fn attributes_set_name_and_link_target() {
    assert_eq!(record("path", "abc"), b"12 path=abc\n".to_vec());
    let long = format!("{}/file", "p".repeat(200));
    let mut attributes = record("mtime", "1700000000.123");
    attributes.extend_from_slice(&record("path", &long));
    attributes.extend_from_slice(&record("linkpath", "to=here"));
    let bytes = archive(&[
        member(b"pax_global_header", b'g', &record("comment", "ignored"), b""),
        member(b"PaxHeaders/file", b'x', &attributes, b""),
        member(b"cut", b'2', b"", b"short"),
        member(b"next", b'0', b"n", b""),
    ]);
    assert_eq!(
        parse_archive(&bytes),
        Ok(vec![
            entry(long.as_bytes(), EntryKind::Symlink, b"", b"to=here"),
            entry(b"next", EntryKind::File, b"n", b""),
        ])
    );
    let data = record("path", "x/y");
    assert_eq!(
        read_attributes(&data, 0, data.len(), None, Some(b"kept".to_vec())),
        Some((Some(b"x/y".to_vec()), Some(b"kept".to_vec())))
    );
    assert_eq!(read_attributes(&data, 0, 0, None, None), Some((None, None)));
}

#[test]
fn broken_attributes_are_refused() {
    for bad in [&b"12 path=abc"[..], b"11 path=abc\n", b"13 path=abc\n", b" path=abc\n", b"9 pathabc\n", b"x path=a\n", b"3 \n"] {
        let data = bad.to_vec();
        assert_eq!(read_attributes(&data, 0, data.len(), None, None), None, "{:?}", bad);
        let bytes = archive(&[member(b"PaxHeaders/f", b'x', bad, b""), member(b"f", b'0', b"", b"")]);
        assert_eq!(parse_archive(&bytes), Err(Error::ArchiveParseError));
    }
}

#[test]
fn file_named_like_a_directory_is_one() {
    let bytes = archive(&[member(b"dir/", b'0', b"", b""), member(b"odd/", 0, b"", b"")]);
    assert_eq!(
        parse_archive(&bytes),
        Ok(vec![
            entry(b"dir/", EntryKind::Directory, b"", b""),
            entry(b"odd/", EntryKind::Directory, b"", b""),
        ])
    );
}

#[test]
fn device_numbers_are_read_for_devices() {
    let mut block = header(b"dev/null", b'3', 0, b"");
    put_octal(&mut block, 329, 8, 1);
    put_octal(&mut block, 337, 8, 3);
    seal(&mut block);
    let mut disk = header(b"dev/sda", b'4', 0, b"");
    put_octal(&mut disk, 329, 8, 8);
    seal(&mut disk);
    let mut expected = node(EntryKind::CharDevice, b"", b"");
    expected.dev_major = 1;
    expected.dev_minor = 3;
    let entries = parse_archive(&archive(&[block, disk])).unwrap();
    assert_eq!(entries[0], ArchiveEntry { path: b"dev/null".to_vec(), node: expected });
    assert_eq!((entries[1].node.kind, entries[1].node.dev_major, entries[1].node.dev_minor), (EntryKind::BlockDevice, 8, 0));
}

#[test]
fn numbers_are_octal_or_binary() {
    let field = |text: &[u8]| text.to_vec();
    assert_eq!(read_number(&field(b"0000644\0"), 0, 8), Some(0o644));
    assert_eq!(read_number(&field(b"   644 \0"), 0, 8), Some(0o644));
    assert_eq!(read_number(&field(b"644"), 0, 3), Some(0o644));
    assert_eq!(read_number(&field(b"\0\0\0\0"), 0, 4), Some(0));
    assert_eq!(read_number(&field(b"    "), 0, 4), Some(0));
    assert_eq!(read_number(&field(b""), 0, 0), Some(0));
    assert_eq!(read_number(&field(b"12 34"), 0, 5), Some(0o12));
    assert_eq!(read_number(&field(b"xx17yy"), 2, 4), Some(0o17));
    assert_eq!(read_number(&field(b"0000648\0"), 0, 8), None);
    assert_eq!(read_number(&field(b"-1"), 0, 2), None);
    assert_eq!(read_number(&field(b"1777777777777777777777"), 0, 22), Some(u64::MAX));
    assert_eq!(read_number(&field(b"2000000000000000000000"), 0, 22), None);
    assert_eq!(read_number(&vec![0x80, 0, 0, 0, 0, 1, 0, 0], 0, 8), Some(65536));
    assert_eq!(read_number(&vec![0x81, 0], 0, 2), Some(256));
    assert_eq!(read_number(&vec![0x80, 0xff, 0xff, 0xff, 0xff, 0xff, 0xff, 0xff, 0xff], 0, 9), Some(u64::MAX));
    assert_eq!(read_number(&vec![0x80, 1, 0, 0, 0, 0, 0, 0, 0, 0], 0, 10), None);
    assert_eq!(read_number(&vec![0xff, 0xff], 0, 2), None);
}

#[test]
fn large_owner_ids_are_read() {
    let mut block = header(b"f", b'0', 0, b"");
    block[108..116].copy_from_slice(&[0x80, 0, 0, 0, 0x7f, 0xff, 0xff, 0xff]);
    seal(&mut block);
    let h = parse_header(&block).unwrap();
    assert_eq!(h.uid, 0x7fff_ffff);
    assert_eq!((h.mode, h.gid, h.size, h.mtime, h.typeflag), (0o644, 100, 0, 1_700_000_000, b'0'));
    assert_eq!(h.name, b"f".to_vec());
}

#[test]
fn header_fields_are_read() {
    let block = header(b"some/name", b'2', 0, b"the/target");
    let h = parse_header(&block).unwrap();
    assert_eq!(h.name, b"some/name".to_vec());
    assert_eq!(h.link, b"the/target".to_vec());
    assert_eq!(read_text(&block, 0, 100), b"some/name".to_vec());
    assert_eq!(read_text(&block, 0, 4), b"some".to_vec());
    assert_eq!(read_text(&block, 257, 263), b"ustar".to_vec());
    assert_eq!(read_text(&block, 300, 300), Vec::<u8>::new());
    assert!(parse_header(&block[..511].to_vec()).is_none());
    assert!(parse_header(&vec![0u8; 512]).is_none());
    assert!(block_is_zero(&vec![0u8; 512]));
    assert!(block_is_zero(&vec![]));
    assert!(!block_is_zero(&block));
}

#[test]
fn compressed_layers_are_unpacked() {
    let plain = archive(&[member(b"etc/hostname", b'0', b"box\n", b""), member(b"bin", b'2', b"", b"usr/bin")]);
    let packed = gzip(&plain);
    assert_ne!(packed, plain);
    assert_eq!(&packed[..2], &[0x1f, 0x8b]);
    let expected = vec![
        entry(b"etc/hostname", EntryKind::File, b"box\n", b""),
        entry(b"bin", EntryKind::Symlink, b"", b"usr/bin"),
    ];
    assert_eq!(decode_layer(&plain).as_ref(), Ok(&expected));
    assert_eq!(decode_layer(&packed).as_ref(), Ok(&expected));
    let mut two_members = gzip(&plain[..512]);
    two_members.extend_from_slice(&gzip(&plain[512..]));
    assert_eq!(decode_layer(&two_members).as_ref(), Ok(&expected));
}

#[test]
fn broken_compressed_layers_are_refused() {
    let plain = archive(&[member(b"f", b'0', b"data", b"")]);
    let packed = gzip(&plain);
    assert_eq!(decode_layer(&packed[..packed.len() - 5].to_vec()), Err(Error::ArchiveParseError));
    let mut corrupt = packed.clone();
    let middle = corrupt.len() / 2;
    corrupt[middle] ^= 0xff;
    corrupt[middle + 1] ^= 0xff;
    assert_eq!(decode_layer(&corrupt), Err(Error::ArchiveParseError));
    assert_eq!(decode_layer(&vec![0x1f, 0x8b]), Err(Error::ArchiveParseError));
    assert_eq!(decode_layer(&gzip(b"packed, but no archive")), Err(Error::ArchiveParseError));
    assert_eq!(decode_layer(&gzip(b"")), Ok(vec![]));
}

#[test]
fn blobs_are_unpacked_into_a_tree() {
    let base = archive(&[
        member(b"a/", b'5', b"", b""),
        member(b"a/file1", b'0', b"one", b""),
        member(b"a/file2", b'0', b"two", b""),
    ]);
    let top = gzip(&archive(&[member(b"a/.wh.file1", b'0', b"", b""), member(b"a/file3", b'0', b"three", b"")]));
    let tree = unpack(&vec![base.clone(), top.clone()]).unwrap();
    assert_eq!(tree_paths(&tree), vec!["a", "a/file2", "a/file3"]);
    assert_eq!(tree.lookup(&b"a/file3".to_vec()), Some(&node(EntryKind::File, b"three", b"")));
    assert_eq!(tree.layers(), 2);
    assert_eq!(unpack(&vec![]).unwrap().len(), 0);
    let r = unpack(&vec![base.clone(), b"junk".to_vec(), top.clone()]);
    assert_eq!(r.unwrap_err(), LayerFailure { layer: 1, entry: None, name: vec![], error: Error::ArchiveParseError });
    let escaping = archive(&[member(b"fine", b'0', b"", b""), member(b"../../etc/passwd", b'0', b"x", b"")]);
    let r = unpack(&vec![base, top, escaping]);
    assert_eq!(r.unwrap_err(), LayerFailure { layer: 2, entry: Some(1), name: b"../../etc/passwd".to_vec(), error: Error::PathTraversal });
}

fn layer(digest: &str) -> LayerDescriptor {
    LayerDescriptor::new(digest.to_string(), 1, "application/vnd.oci.image.layer.v1.tar".to_string()).unwrap()
}

fn arrived(digest: &str, bytes: &[u8]) -> FetchOutcome {
    FetchOutcome { digest: digest.to_string(), bytes: Some(bytes.to_vec()) }
}

fn absent(digest: &str) -> FetchOutcome {
    FetchOutcome { digest: digest.to_string(), bytes: None }
}

#[test]
fn run_follows_platform_list_and_fetches_what_is_missing() {
    let base = archive(&[member(b"f", b'0', b"lower", b""), member(b"g", b'0', b"g", b"")]);
    let top = gzip(&archive(&[member(b"f", b'0', b"upper", b"")]));
    let wanted = Platform { architecture: "arm64".to_string(), os: None, variant: None };
    let (run, action) = Pipeline::start(Some(wanted));
    assert!(matches!(action, Action::InspectDestination));
    assert!(!run.is_finished());
    let (run, action) = run.step(Event::DestinationInspected { entries: 0 });
    assert!(matches!(action, Some(Action::PullManifest)));
    let index = Manifest::Index(vec![
        ManifestDescriptor {
            digest: "sha256:amd".to_string(),
            platform: Some(Platform { architecture: "amd64".to_string(), os: Some("linux".to_string()), variant: None }),
        },
        ManifestDescriptor {
            digest: "sha256:arm".to_string(),
            platform: Some(Platform { architecture: "arm64".to_string(), os: Some("linux".to_string()), variant: None }),
        },
    ]);
    let (run, action) = run.step(Event::ManifestPulled(index));
    match action {
        Some(Action::PullManifestByDigest { digest }) => assert_eq!(digest, "sha256:arm"),
        other => panic!("unexpected {:?}", other),
    }
    let image = ResolvedManifest::new(vec![layer("sha256:base"), layer("sha256:top"), layer("sha256:base")]).unwrap();
    let (run, action) = run.step(Event::ManifestPulled(Manifest::Image(image)));
    match action {
        Some(Action::SearchCache { digests }) => assert_eq!(digests, vec!["sha256:base", "sha256:top", "sha256:base"]),
        other => panic!("unexpected {:?}", other),
    }
    let (run, action) = run.step(Event::CacheSearched(vec![arrived("sha256:top", &top), absent("sha256:base")]));
    match action {
        Some(Action::FetchBlobs { digests }) => assert_eq!(digests, vec!["sha256:base"]),
        other => panic!("unexpected {:?}", other),
    }
    assert!(!run.is_finished());
    let (run, action) = run.step(Event::BlobsFetched(vec![arrived("sha256:base", &base)]));
    assert!(run.is_finished());
    match action {
        Some(Action::WriteTree(tree)) => {
            assert_eq!(tree_paths(&tree), vec!["f", "g"]);
            assert_eq!(tree.lookup(&b"f".to_vec()).unwrap().content, b"lower".to_vec());
            assert_eq!(tree.layers(), 3);
        },
        other => panic!("unexpected {:?}", other),
    }
    let (run, action) = run.step(Event::DestinationInspected { entries: 0 });
    assert!(run.is_finished());
    assert!(action.is_none());
}

#[test]
fn run_with_everything_cached_fetches_nothing() {
    let only = archive(&[member(b"f", b'0', b"cached", b"")]);
    let (run, _) = Pipeline::start(None);
    let (run, _) = run.step(Event::DestinationInspected { entries: 0 });
    let image = ResolvedManifest::new(vec![layer("sha256:only")]).unwrap();
    let (run, action) = run.step(Event::ManifestPulled(Manifest::Image(image)));
    assert!(matches!(action, Some(Action::SearchCache { .. })));
    let (run, action) = run.step(Event::CacheSearched(vec![arrived("sha256:only", &only)]));
    assert!(run.is_finished());
    match action {
        Some(Action::WriteTree(tree)) => assert_eq!(tree.lookup(&b"f".to_vec()).unwrap().content, b"cached".to_vec()),
        other => panic!("unexpected {:?}", other),
    }
}

#[test]
fn run_refuses_a_destination_that_is_not_empty() {
    let (run, _) = Pipeline::start(None);
    let (run, action) = run.step(Event::DestinationInspected { entries: 1 });
    assert!(matches!(action, Some(Action::Fail(Error::DestinationNotEmpty))));
    assert!(run.is_finished());
}

#[test]
fn run_stops_at_the_first_failure() {
    let index = || Manifest::Index(vec![ManifestDescriptor { digest: "sha256:x".to_string(), platform: None }]);
    let (run, _) = Pipeline::start(None);
    let (run, _) = run.step(Event::DestinationInspected { entries: 0 });
    let (run, action) = run.step(Event::ManifestPulled(index()));
    assert!(matches!(action, Some(Action::Fail(Error::AmbiguousPlatform))));
    assert!(run.is_finished());

    let wanted = Platform { architecture: "arm64".to_string(), os: None, variant: None };
    let (run, _) = Pipeline::start(Some(wanted));
    let (run, _) = run.step(Event::DestinationInspected { entries: 0 });
    let (run, action) = run.step(Event::ManifestPulled(index()));
    assert!(matches!(action, Some(Action::Fail(Error::NoMatchingPlatform))));
    assert!(run.is_finished());

    let (run, _) = Pipeline::start(None);
    let (run, _) = run.step(Event::DestinationInspected { entries: 0 });
    let image = ResolvedManifest::new(vec![layer("sha256:a"), layer("sha256:b")]).unwrap();
    let (run, _) = run.step(Event::ManifestPulled(Manifest::Image(image)));
    let (run, action) = run.step(Event::CacheSearched(vec![]));
    match action {
        Some(Action::FetchBlobs { digests }) => assert_eq!(digests, vec!["sha256:a", "sha256:b"]),
        other => panic!("unexpected {:?}", other),
    }
    let (run, action) = run.step(Event::BlobsFetched(vec![absent("sha256:b"), arrived("sha256:a", b"")]));
    match action {
        Some(Action::Fail(Error::BlobFetchFailed { digest })) => assert_eq!(digest, "sha256:b"),
        other => panic!("unexpected {:?}", other),
    }
    assert!(run.is_finished());

    let (run, _) = Pipeline::start(None);
    let (run, _) = run.step(Event::DestinationInspected { entries: 0 });
    let image = ResolvedManifest::new(vec![layer("sha256:a")]).unwrap();
    let (run, _) = run.step(Event::ManifestPulled(Manifest::Image(image)));
    let (run, _) = run.step(Event::CacheSearched(vec![absent("sha256:a")]));
    let (run, action) = run.step(Event::BlobsFetched(vec![arrived("sha256:a", b"no archive")]));
    match action {
        Some(Action::FailAt(failure)) => {
            assert_eq!(failure, LayerFailure { layer: 0, entry: None, name: vec![], error: Error::ArchiveParseError })
        },
        other => panic!("unexpected {:?}", other),
    }
    assert!(run.is_finished());
}

#[test]
fn run_ignores_what_it_did_not_ask_for() {
    let (run, _) = Pipeline::start(None);
    let (run, action) = run.step(Event::BlobsFetched(vec![]));
    assert!(action.is_none());
    let (run, action) = run.step(Event::ManifestPulled(Manifest::Index(vec![])));
    assert!(action.is_none());
    let (run, action) = run.step(Event::DestinationInspected { entries: 0 });
    assert!(matches!(action, Some(Action::PullManifest)));
    let (run, action) = run.step(Event::CacheSearched(vec![]));
    assert!(action.is_none());
    assert!(!run.is_finished());
}
