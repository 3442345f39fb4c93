//! The manifest text format: export, parse, and the round trip.

use xxhash_verify::{export_all_hash, read_hash_file, strip_root, DigestMap};

fn map_of(entries: &[(&[u8], u128)]) -> DigestMap {
    let mut m = DigestMap::new();
    for (path, digest) in entries {
        m.insert(path.to_vec(), *digest);
    }
    m
}

#[test]
fn exports_one_line_per_file_in_discovery_order() {
    let root = b"/tree";
    let paths = vec![b"/tree/a.txt".to_vec(), b"/tree/sub/b.bin".to_vec()];
    let hashes = map_of(&[(b"/tree/a.txt", 0xdeadbeef), (b"/tree/sub/b.bin", 10)]);
    let text = export_all_hash(&hashes, &paths, root).unwrap();
    assert_eq!(text, b"[a.txt | deadbeef]\n[sub/b.bin | a]\n".to_vec());
}

#[test]
fn export_fails_on_a_file_without_a_digest() {
    let root = b"/tree";
    let paths = vec![b"/tree/a.txt".to_vec(), b"/tree/b.txt".to_vec()];
    let hashes = map_of(&[(b"/tree/a.txt", 1)]);
    let err = export_all_hash(&hashes, &paths, root).unwrap_err();
    assert_eq!(err.path, b"/tree/b.txt".to_vec());
}

#[test]
fn decodes_what_it_exports() {
    let root = b"/tree";
    let paths = vec![
        b"/tree/a.txt".to_vec(),
        b"/tree/sub/b.bin".to_vec(),
        b"/tree/c c.txt".to_vec(),
    ];
    let hashes = map_of(&[
        (b"/tree/a.txt", 0xdeadbeef),
        (b"/tree/sub/b.bin", 0),
        (b"/tree/c c.txt", u128::MAX),
    ]);
    let text = export_all_hash(&hashes, &paths, root).unwrap();
    let decoded = read_hash_file(root, &text).unwrap();
    assert_eq!(decoded.len(), 3);
    assert_eq!(decoded.get(&b"/tree/a.txt".to_vec()), Some(0xdeadbeef));
    assert_eq!(decoded.get(&b"/tree/sub/b.bin".to_vec()), Some(0));
    assert_eq!(decoded.get(&b"/tree/c c.txt".to_vec()), Some(u128::MAX));
}

#[test]
fn skips_lines_without_two_fields() {
    let root = b"/r";
    let text = b"not a manifest line\n[a.txt | ff]\n\n[one|field]\n";
    let decoded = read_hash_file(root, text).unwrap();
    assert_eq!(decoded.len(), 1);
    assert_eq!(decoded.get(&b"/r/a.txt".to_vec()), Some(255));
}

#[test]
fn aborts_on_a_bad_digest_naming_the_token() {
    let root = b"/r";
    let text = b"[a.txt | ff]\n[b.txt | xyz]\n[c.txt | 1]\n";
    let err = read_hash_file(root, text).unwrap_err();
    assert_eq!(err.token, b"xyz".to_vec());
}

#[test]
fn reports_the_first_bad_digest() {
    let root = b"/r";
    let text = b"[b.txt | first]\n[c.txt | second]\n";
    let err = read_hash_file(root, text).unwrap_err();
    assert_eq!(err.token, b"first".to_vec());
}

#[test]
fn later_duplicate_paths_overwrite_earlier_ones() {
    let root = b"/r";
    let text = b"[a.txt | 1]\n[a.txt | 2]\n";
    let decoded = read_hash_file(root, text).unwrap();
    assert_eq!(decoded.len(), 1);
    assert_eq!(decoded.get(&b"/r/a.txt".to_vec()), Some(2));
}

#[test]
fn trims_brackets_and_spaces_around_the_line() {
    let root = b"/r";
    let text = b"  [[a.txt | ff]]  \n";
    let decoded = read_hash_file(root, text).unwrap();
    assert_eq!(decoded.get(&b"/r/a.txt".to_vec()), Some(255));
}

#[test]
fn accepts_a_manifest_without_a_final_newline() {
    let root = b"/r";
    let text = b"[a.txt | ff]";
    let decoded = read_hash_file(root, text).unwrap();
    assert_eq!(decoded.get(&b"/r/a.txt".to_vec()), Some(255));
}

#[test]
fn uppercase_digests_decode_too() {
    let root = b"/r";
    let text = b"[a.txt | DEADBEEF]\n";
    let decoded = read_hash_file(root, text).unwrap();
    assert_eq!(decoded.get(&b"/r/a.txt".to_vec()), Some(0xdeadbeef));
}

#[test]
fn strip_root_mirrors_the_join() {
    assert_eq!(strip_root(b"/tree/a.txt", b"/tree"), Some(b"a.txt".to_vec()));
    assert_eq!(strip_root(b"/tree/sub/b", b"/tree"), Some(b"sub/b".to_vec()));
    assert_eq!(strip_root(b"/elsewhere/a", b"/tree"), None);
    assert_eq!(strip_root(b"/tree", b"/tree"), None);
}

#[test]
fn digest_map_overwrites_and_keeps_order() {
    let mut m = DigestMap::new();
    m.insert(b"a".to_vec(), 1);
    m.insert(b"b".to_vec(), 2);
    m.insert(b"a".to_vec(), 3);
    assert_eq!(m.len(), 2);
    assert_eq!(m.get(&b"a".to_vec()), Some(3));
    assert_eq!(m.get(&b"b".to_vec()), Some(2));
    assert_eq!(m.get(&b"c".to_vec()), None);
    assert_eq!(m.path_at(0), &b"a".to_vec());
    assert_eq!(m.digest_at(0), 3);
    assert_eq!(m.path_at(1), &b"b".to_vec());
}
