//! The coordination models and the two flows end to end, on in-memory
//! trees.

use xxhash_verify::{
    classify_outcome, compute_hash, export_all_hash, outcome_is_fatal, read_hash_file, Aggregator,
    ArgError, Args, HashFailure, Mode, Outcome, ResultQueue, TokenPool, DEFAULT_TOKENS,
    RESULT_CAPACITY,
};

#[test]
fn token_pool_grants_at_most_its_capacity() {
    let mut pool = TokenPool::new(3);
    assert!(pool.try_acquire());
    assert!(pool.try_acquire());
    assert!(pool.try_acquire());
    // The pool is exhausted: a fourth unit must wait.
    assert!(!pool.try_acquire());
    pool.release();
    assert!(pool.try_acquire());
    assert!(!pool.try_acquire());
}

#[test]
fn default_token_pool_bounds_sixteen_units() {
    let mut pool = TokenPool::new(DEFAULT_TOKENS);
    for _ in 0..DEFAULT_TOKENS {
        assert!(pool.try_acquire());
    }
    assert!(!pool.try_acquire());
}

#[test]
fn result_queue_bounds_pending_pairs() {
    let mut q = ResultQueue::new(2);
    assert!(q.try_send(b"a".to_vec(), 1));
    assert!(q.try_send(b"b".to_vec(), 2));
    // The queue is full: the producer suspends instead of buffering more.
    assert!(!q.try_send(b"c".to_vec(), 3));
    assert_eq!(q.try_recv(), Some((b"a".to_vec(), 1)));
    assert!(q.try_send(b"c".to_vec(), 3));
    assert_eq!(q.try_recv(), Some((b"b".to_vec(), 2)));
    assert_eq!(q.try_recv(), Some((b"c".to_vec(), 3)));
    assert_eq!(q.try_recv(), None);
}

#[test]
fn default_result_queue_holds_sixty_four() {
    let mut q = ResultQueue::new(RESULT_CAPACITY);
    for i in 0..RESULT_CAPACITY {
        assert!(q.try_send(vec![b'f', i as u8], i as u128));
    }
    assert!(!q.try_send(b"overflow".to_vec(), 0));
}

#[test]
fn aggregator_stops_after_exactly_n_reads() {
    let mut agg = Aggregator::new(2);
    assert!(agg.wants_more());
    agg.accept(b"a".to_vec(), 1);
    assert!(agg.wants_more());
    agg.accept(b"b".to_vec(), 2);
    // Both expected pairs are in: the consumer does not wait for more.
    assert!(!agg.wants_more());
    let m = agg.into_map();
    assert_eq!(m.get(&b"a".to_vec()), Some(1));
    assert_eq!(m.get(&b"b".to_vec()), Some(2));
}

#[test]
fn classifies_every_outcome() {
    assert_eq!(classify_outcome(7, &Ok(7)), Outcome::Success);
    assert_eq!(classify_outcome(7, &Ok(8)), Outcome::Mismatch);
    assert_eq!(classify_outcome(7, &Err(HashFailure::NotFound)), Outcome::Missing);
    assert_eq!(classify_outcome(7, &Err(HashFailure::Io)), Outcome::IoFailure);
}

#[test]
fn only_success_lets_the_run_continue() {
    assert!(!outcome_is_fatal(Outcome::Success));
    assert!(outcome_is_fatal(Outcome::Mismatch));
    assert!(outcome_is_fatal(Outcome::Missing));
    assert!(outcome_is_fatal(Outcome::IoFailure));
}

#[test]
fn parses_the_three_arguments() {
    let argv = vec![b"prog".to_vec(), b"-g".to_vec(), b"/tree".to_vec(), b"/m.txt".to_vec()];
    let args = Args::parse_args(&argv).unwrap();
    assert!(matches!(args.mode, Mode::Generate));
    assert_eq!(args.folder_path, b"/tree".to_vec());
    assert_eq!(args.hash_file_path, b"/m.txt".to_vec());

    let argv = vec![b"prog".to_vec(), b"-c".to_vec(), b"/tree".to_vec(), b"/m.txt".to_vec()];
    let args = Args::parse_args(&argv).unwrap();
    assert!(matches!(args.mode, Mode::Check));
}

#[test]
fn rejects_bad_or_missing_arguments() {
    let r = Args::parse_args(&vec![b"prog".to_vec()]);
    assert!(matches!(r, Err(ArgError::MissingMode)));

    let r = Args::parse_args(&vec![b"prog".to_vec(), b"-x".to_vec()]);
    match r {
        Err(ArgError::BadMode(m)) => assert_eq!(m, b"-x".to_vec()),
        _ => panic!("expected a bad-mode error"),
    }

    let r = Args::parse_args(&vec![b"prog".to_vec(), b"-g".to_vec()]);
    assert!(matches!(r, Err(ArgError::MissingFolder)));

    let r = Args::parse_args(&vec![b"prog".to_vec(), b"-c".to_vec(), b"/tree".to_vec()]);
    assert!(matches!(r, Err(ArgError::MissingManifest)));
}

/// An in-memory tree: paths with their contents.
fn tree(n: usize) -> Vec<(Vec<u8>, Vec<u8>)> {
    let mut files = Vec::new();
    for i in 0..n {
        let path = format!("/tree/file_{}", i).into_bytes();
        let mut content = format!("content {}", i).into_bytes();
        content.extend(std::iter::repeat((i % 256) as u8).take(i));
        files.push((path, content));
    }
    files
}

#[test]
fn an_unchanged_tree_checks_clean() {
    let root = b"/tree";
    let files = vec![(b"/tree/a.txt".to_vec(), b"hello".to_vec())];

    // Generate: hash every file, aggregate, export.
    let mut agg = Aggregator::new(files.len());
    for (path, content) in &files {
        agg.accept(path.clone(), compute_hash(content));
    }
    let hashes = agg.into_map();
    let paths: Vec<Vec<u8>> = files.iter().map(|(p, _)| p.clone()).collect();
    let text = export_all_hash(&hashes, &paths, root).unwrap();

    // Check: decode and re-hash the unchanged contents.
    let recorded = read_hash_file(root, &text).unwrap();
    for i in 0..recorded.len() {
        let path = recorded.path_at(i).clone();
        let content = &files.iter().find(|(p, _)| *p == path).unwrap().1;
        let outcome = classify_outcome(recorded.digest_at(i), &Ok(compute_hash(content)));
        assert_eq!(outcome, Outcome::Success);
    }
}

#[test]
fn a_modified_file_is_a_mismatch() {
    let root = b"/tree";
    let path = b"/tree/a.txt".to_vec();
    let mut hashes = xxhash_verify::DigestMap::new();
    hashes.insert(path.clone(), compute_hash(b"hello"));
    let text = export_all_hash(&hashes, &vec![path.clone()], root).unwrap();

    let recorded = read_hash_file(root, &text).unwrap();
    let outcome = classify_outcome(recorded.digest_at(0), &Ok(compute_hash(b"hello!")));
    assert_eq!(outcome, Outcome::Mismatch);
    assert!(outcome_is_fatal(outcome));
}

#[test]
fn a_vanished_file_is_missing() {
    let root = b"/tree";
    let path = b"/tree/a.txt".to_vec();
    let mut hashes = xxhash_verify::DigestMap::new();
    hashes.insert(path.clone(), compute_hash(b"hello"));
    let text = export_all_hash(&hashes, &vec![path.clone()], root).unwrap();

    let recorded = read_hash_file(root, &text).unwrap();
    let outcome = classify_outcome(recorded.digest_at(0), &Err(HashFailure::NotFound));
    assert_eq!(outcome, Outcome::Missing);
    assert!(outcome_is_fatal(outcome));
}

#[test]
fn a_hundred_files_round_trip() {
    let root = b"/tree";
    let files = tree(100);
    let mut agg = Aggregator::new(files.len());
    for (path, content) in &files {
        agg.accept(path.clone(), compute_hash(content));
    }
    let hashes = agg.into_map();
    let paths: Vec<Vec<u8>> = files.iter().map(|(p, _)| p.clone()).collect();
    let text = export_all_hash(&hashes, &paths, root).unwrap();

    let recorded = read_hash_file(root, &text).unwrap();
    assert_eq!(recorded.len(), 100);
    for (path, content) in &files {
        let digest = recorded.get(path).unwrap();
        assert_eq!(classify_outcome(digest, &Ok(compute_hash(content))), Outcome::Success);
    }
}

#[test]
fn a_bad_manifest_stops_the_check_before_hashing() {
    let root = b"/tree";
    let text = b"[a.txt | nothex]\n";
    let err = read_hash_file(root, text).unwrap_err();
    assert_eq!(err.token, b"nothex".to_vec());
}
