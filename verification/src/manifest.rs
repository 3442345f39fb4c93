//! Whole-manifest encoding and decoding.
//!
//! A manifest is a newline-delimited text: one encoded line per recorded
//! file, in discovery order, each followed by a newline. Paths are recorded
//! relative to the tree root; the codec joins and strips the root as
//! `root`, one `/`, then the relative path.
//!
//! Decoding walks the lines in order: an entry line inserts into the
//! mapping (a later duplicate path overwrites an earlier one), a line
//! without exactly two fields is skipped, and a line whose digest field is
//! not hexadecimal aborts the whole decode, naming the offending token.
//!
//! Encoding requires a digest for every listed file; the first file without
//! one aborts the export.

use vstd::prelude::*;
use vstd::slice::{slice_subrange, slice_to_vec};
use crate::bytes::{push_all, starts_with};
use crate::codec::{
    decode_line, encode_line, lemma_line_round_trip, line_is_entry, line_is_malformed,
    rel_path_encodable, spec_encode_line, spec_line_digest, spec_line_fields, spec_line_path,
    LineParse,
};
use crate::digest_map::{entries_to_map, DigestMap};

verus! {

/// The lines of `s`, split on the newline byte, scanning from `cur`, the
/// current line having begun at `start`.
pub open spec fn spec_lines_at(s: Seq<u8>, start: int, cur: int) -> Seq<Seq<u8>>
    recommends
        0 <= start <= cur <= s.len(),
    decreases s.len() - cur,
{
    if cur < s.len() {
        if s[cur] == 10 {
            seq![s.subrange(start, cur)] + spec_lines_at(s, cur + 1, cur + 1)
        } else {
            spec_lines_at(s, start, cur + 1)
        }
    } else {
        seq![s.subrange(start, s.len() as int)]
    }
}

/// The lines of a manifest text: the parts between newline bytes. A text
/// without a newline is one line, possibly empty; a trailing newline yields
/// a final empty line, which no decoder treats as an entry.
pub open spec fn spec_lines(s: Seq<u8>) -> Seq<Seq<u8>> {
    spec_lines_at(s, 0, 0)
}

/// Splits a manifest text into its lines.
pub fn split_text_lines(s: &[u8]) -> (lines: Vec<Vec<u8>>)
    ensures
        lines@.len() == spec_lines(s@).len(),
        forall|i: int| 0 <= i < lines@.len() ==> lines@[i]@ == spec_lines(s@)[i],
{
    let mut lines: Vec<Vec<u8>> = Vec::new();
    let mut start: usize = 0;
    let mut cur: usize = 0;
    proof {
        assert(lines.deep_view() + spec_lines_at(s@, 0, 0) =~= spec_lines_at(s@, 0, 0));
    }
    while cur < s.len()
        invariant
            0 <= start <= cur <= s@.len(),
            spec_lines(s@) == lines.deep_view() + spec_lines_at(s@, start as int, cur as int),
        decreases s@.len() - cur,
    {
        if s[cur] == 10 {
            let ghost pre = lines.deep_view();
            lines.push(slice_to_vec(slice_subrange(s, start, cur)));
            proof {
                assert(lines.deep_view() =~~= pre + seq![s@.subrange(start as int, cur as int)]);
                assert(pre + seq![s@.subrange(start as int, cur as int)] + spec_lines_at(
                    s@,
                    cur + 1,
                    cur + 1,
                ) =~= pre + (seq![s@.subrange(start as int, cur as int)] + spec_lines_at(
                    s@,
                    cur + 1,
                    cur + 1,
                )));
            }
            start = cur + 1;
            cur = cur + 1;
        } else {
            cur = cur + 1;
        }
    }
    let ghost pre = lines.deep_view();
    lines.push(slice_to_vec(slice_subrange(s, start, s.len())));
    proof {
        assert(lines.deep_view() =~~= pre + seq![s@.subrange(start as int, s@.len() as int)]);
        assert(forall|i: int|
            0 <= i < lines@.len() ==> lines@[i]@ =~= #[trigger] lines.deep_view()[i]);
    }
    lines
}

/// The absolute path of a file recorded under `rel`: the root, `/`, the
/// relative path.
pub open spec fn spec_join(root: Seq<u8>, rel: Seq<u8>) -> Seq<u8> {
    root + seq![47u8] + rel
}

/// Whether `path` lies under `root`: it begins with the root and a `/`.
pub open spec fn under_root(root: Seq<u8>, path: Seq<u8>) -> bool {
    path.len() > root.len() && path.take(root.len() as int + 1) == root + seq![47u8]
}

/// The relative part of a path under a root.
pub open spec fn spec_rel(root: Seq<u8>, path: Seq<u8>) -> Seq<u8> {
    path.skip(root.len() as int + 1)
}

/// Joins the tree root and a relative path with a `/`.
pub fn join_path(root: &[u8], rel: &[u8]) -> (out: Vec<u8>)
    ensures
        out@ == spec_join(root@, rel@),
{
    let mut out: Vec<u8> = Vec::new();
    push_all(&mut out, root);
    out.push(47);
    push_all(&mut out, rel);
    proof {
        assert(out@ =~= spec_join(root@, rel@));
    }
    out
}

/// Strips the tree root and its `/` from an absolute path.
///
/// Returns the relative remainder exactly when the path begins with the
/// root followed by a `/`.
pub fn strip_root(path: &[u8], root: &[u8]) -> (r: Option<Vec<u8>>)
    ensures
        r is Some <==> under_root(root@, path@),
        r is Some ==> path@ == spec_join(root@, r->0@) && r->0@ == spec_rel(root@, path@),
{
    let mut prefix: Vec<u8> = Vec::new();
    push_all(&mut prefix, root);
    prefix.push(47);
    proof {
        assert(prefix@ =~= root@ + seq![47u8]);
    }
    if starts_with(path, prefix.as_slice()) {
        let rel = slice_to_vec(slice_subrange(path, prefix.len(), path.len()));
        proof {
            assert(path@ =~= path@.take(root@.len() as int + 1) + path@.skip(root@.len() as int + 1));
            assert(path@ =~= spec_join(root@, rel@));
        }
        Some(rel)
    } else {
        None
    }
}

/// Decoding aborted: a line's digest field, carried here, was not a
/// 128-bit hexadecimal number.
#[derive(Debug)]
pub struct ManifestParseError {
    pub token: Vec<u8>,
}

/// The mapping described by the given manifest lines under `root`, walking
/// the lines in order, or the offending token of the first line whose
/// digest field does not parse. Entry lines insert (later duplicates
/// overwrite earlier ones); lines without exactly two fields are skipped.
pub open spec fn spec_decode_manifest(root: Seq<u8>, lines: Seq<Seq<u8>>) -> Result<
    Map<Seq<u8>, u128>,
    Seq<u8>,
>
    decreases lines.len(),
{
    if lines.len() == 0 {
        Ok(Map::empty())
    } else {
        match spec_decode_manifest(root, lines.drop_last()) {
            Err(t) => Err(t),
            Ok(m) => {
                let line = lines.last();
                if line_is_entry(line) {
                    Ok(m.insert(spec_join(root, spec_line_path(line)), spec_line_digest(line)))
                } else if line_is_malformed(line) {
                    Ok(m)
                } else {
                    Err(spec_line_fields(line)[1])
                }
            },
        }
    }
}

/// Once a prefix of the lines decodes to an error, every longer prefix
/// decodes to the same error.
proof fn lemma_decode_err_stays(root: Seq<u8>, lines: Seq<Seq<u8>>, i: int, j: int, t: Seq<u8>)
    requires
        0 <= i <= j <= lines.len(),
        spec_decode_manifest(root, lines.take(i)) == Err::<Map<Seq<u8>, u128>, Seq<u8>>(t),
    ensures
        spec_decode_manifest(root, lines.take(j)) == Err::<Map<Seq<u8>, u128>, Seq<u8>>(t),
    decreases j - i,
{
    if i < j {
        lemma_decode_err_stays(root, lines, i, j - 1, t);
        assert(lines.take(j).drop_last() =~= lines.take(j - 1));
    }
}

/// Decodes a manifest text into a path-to-digest mapping under the tree
/// root.
///
/// Succeeds exactly when no line carries an unparseable digest field, and
/// then returns the mapping the lines describe; otherwise reports the
/// offending token of the first bad line.
pub fn read_hash_file(folder_path: &[u8], text: &[u8]) -> (r: Result<
    DigestMap,
    ManifestParseError,
>)
    ensures
        match r {
            Ok(m) => m.wf() && spec_decode_manifest(folder_path@, spec_lines(text@)) == Ok::<
                _,
                Seq<u8>,
            >(m.as_map()),
            Err(e) => spec_decode_manifest(folder_path@, spec_lines(text@)) == Err::<
                Map<Seq<u8>, u128>,
                _,
            >(e.token@),
        },
{
    let lines = split_text_lines(text);
    let ghost lviews = spec_lines(text@);
    let mut map = DigestMap::new();
    let mut i: usize = 0;
    proof {
        assert(lviews.take(0) =~= Seq::<Seq<u8>>::empty());
    }
    while i < lines.len()
        invariant
            i <= lines@.len(),
            lviews == spec_lines(text@),
            lines@.len() == lviews.len(),
            forall|j: int| 0 <= j < lines@.len() ==> lines@[j]@ == lviews[j],
            map.wf(),
            spec_decode_manifest(folder_path@, lviews.take(i as int)) == Ok::<_, Seq<u8>>(
                map.as_map(),
            ),
        decreases lines@.len() - i,
    {
        proof {
            assert(lviews.take(i + 1).drop_last() =~= lviews.take(i as int));
            assert(lviews.take(i + 1).last() == lviews[i as int]);
        }
        match decode_line(lines[i].as_slice()) {
            LineParse::Entry(rel, digest) => {
                let key = join_path(folder_path, rel.as_slice());
                map.insert(key, digest);
            },
            LineParse::Malformed => {},
            LineParse::BadDigest(token) => {
                proof {
                    assert(crate::codec::line_is_bad_digest(lviews[i as int]));
                    assert(spec_decode_manifest(folder_path@, lviews.take(i + 1)) == Err::<
                        Map<Seq<u8>, u128>,
                        Seq<u8>,
                    >(token@));
                    lemma_decode_err_stays(
                        folder_path@,
                        lviews,
                        i + 1,
                        lviews.len() as int,
                        token@,
                    );
                    assert(lviews.take(lviews.len() as int) =~= lviews);
                }
                return Err(ManifestParseError { token });
            },
        }
        i = i + 1;
    }
    proof {
        assert(lviews.take(lviews.len() as int) =~= lviews);
    }
    Ok(map)
}

/// Export aborted: the listed file, carried here, had no recorded digest.
#[derive(Debug)]
pub struct DigestMissingError {
    pub path: Vec<u8>,
}

/// The manifest text of the listed files in order: one line per file, its
/// path relative to `root` and its digest under `m`, each line followed by
/// a newline.
pub open spec fn spec_manifest_text(
    root: Seq<u8>,
    paths: Seq<Seq<u8>>,
    m: Map<Seq<u8>, u128>,
) -> Seq<u8>
    decreases paths.len(),
{
    if paths.len() == 0 {
        Seq::<u8>::empty()
    } else {
        spec_manifest_text(root, paths.drop_last(), m) + spec_encode_line(
            spec_rel(root, paths.last()),
            m[paths.last()],
        ) + seq![10u8]
    }
}

/// Encodes the manifest text for the discovered files, in discovery order.
///
/// Every listed path must lie under the tree root. Succeeds exactly when
/// every listed path has a recorded digest; otherwise reports the first
/// path without one, and no text is produced.
pub fn export_all_hash(hashes: &DigestMap, file_paths: &Vec<Vec<u8>>, folder_path: &[u8]) -> (r:
    Result<Vec<u8>, DigestMissingError>)
    requires
        hashes.wf(),
        forall|i: int|
            0 <= i < file_paths@.len() ==> under_root(folder_path@, #[trigger] file_paths@[i]@),
    ensures
        r is Ok <==> (forall|i: int|
            0 <= i < file_paths@.len() ==> hashes.as_map().contains_key(
                #[trigger] file_paths@[i]@,
            )),
        r is Ok ==> r->Ok_0@ == spec_manifest_text(
            folder_path@,
            file_paths.deep_view(),
            hashes.as_map(),
        ),
        r is Err ==> exists|i: int|
            0 <= i < file_paths@.len() && #[trigger] file_paths@[i]@ == r->Err_0.path@
                && !hashes.as_map().contains_key(file_paths@[i]@) && (forall|j: int|
                0 <= j < i ==> hashes.as_map().contains_key(#[trigger] file_paths@[j]@)),
{
    let ghost pviews = file_paths.deep_view();
    proof {
        assert(forall|j: int| 0 <= j < pviews.len() ==> pviews[j] =~= #[trigger] file_paths@[j]@);
        assert(pviews.take(0) =~= Seq::<Seq<u8>>::empty());
    }
    let mut out: Vec<u8> = Vec::new();
    let mut i: usize = 0;
    while i < file_paths.len()
        invariant
            i <= file_paths@.len(),
            pviews.len() == file_paths@.len(),
            forall|j: int| 0 <= j < pviews.len() ==> pviews[j] == #[trigger] file_paths@[j]@,
            hashes.wf(),
            forall|j: int|
                0 <= j < file_paths@.len() ==> under_root(folder_path@, #[trigger] file_paths@[j]@),
            forall|j: int|
                0 <= j < i ==> hashes.as_map().contains_key(#[trigger] file_paths@[j]@),
            out@ == spec_manifest_text(folder_path@, pviews.take(i as int), hashes.as_map()),
        decreases file_paths@.len() - i,
    {
        proof {
            assert(pviews.take(i + 1).drop_last() =~= pviews.take(i as int));
            assert(pviews.take(i + 1).last() == pviews[i as int]);
        }
        let path: &Vec<u8> = &file_paths[i];
        let digest = match hashes.get(path) {
            Some(d) => d,
            None => {
                return Err(DigestMissingError { path: slice_to_vec(path.as_slice()) });
            },
        };
        let rel = match strip_root(path.as_slice(), folder_path) {
            Some(rel) => rel,
            None => {
                // Unreachable: every listed path lies under the root.
                proof {
                    assert(false);
                }
                return Err(DigestMissingError { path: slice_to_vec(path.as_slice()) });
            },
        };
        let line = encode_line(rel.as_slice(), digest);
        push_all(&mut out, line.as_slice());
        out.push(10);
        proof {
            assert(out@ =~= spec_manifest_text(folder_path@, pviews.take(i + 1), hashes.as_map()));
        }
        i = i + 1;
    }
    proof {
        assert(pviews.take(pviews.len() as int) =~= pviews);
    }
    Ok(out)
}

/// Every scan yields at least one line.
proof fn lemma_lines_at_len(s: Seq<u8>, start: int, cur: int)
    requires
        0 <= start <= cur <= s.len(),
    ensures
        spec_lines_at(s, start, cur).len() >= 1,
    decreases s.len() - cur,
{
    if cur < s.len() {
        if s[cur] == 10 {
            lemma_lines_at_len(s, cur + 1, cur + 1);
        } else {
            lemma_lines_at_len(s, start, cur + 1);
        }
    }
}

/// Scanning the tail of a concatenation sees exactly the second part's
/// lines.
proof fn lemma_lines_shift(a: Seq<u8>, b: Seq<u8>, start: int, cur: int)
    requires
        0 <= start <= cur <= b.len(),
    ensures
        spec_lines_at(a + b, a.len() + start, a.len() + cur) == spec_lines_at(b, start, cur),
    decreases b.len() - cur,
{
    if cur < b.len() {
        assert((a + b)[a.len() + cur] == b[cur]);
        if b[cur] == 10 {
            assert((a + b).subrange(a.len() + start, a.len() + cur) =~= b.subrange(start, cur));
            lemma_lines_shift(a, b, cur + 1, cur + 1);
        } else {
            lemma_lines_shift(a, b, start, cur + 1);
        }
    } else {
        assert((a + b).subrange(a.len() + start, (a + b).len() as int) =~= b.subrange(
            start,
            b.len() as int,
        ));
    }
}

/// Scanning a concatenation whose first part ends in a newline yields the
/// first part's lines, its trailing empty line replaced by the second
/// part's lines.
proof fn lemma_lines_scan_concat(a: Seq<u8>, b: Seq<u8>, start: int, cur: int)
    requires
        a.len() >= 1,
        a.last() == 10,
        0 <= start <= cur <= a.len(),
        cur == a.len() ==> start == cur,
    ensures
        spec_lines_at(a + b, start, cur) == spec_lines_at(a, start, cur).drop_last()
            + spec_lines_at(b, 0, 0),
    decreases a.len() - cur,
{
    if cur < a.len() {
        assert((a + b)[cur] == a[cur]);
        if a[cur] == 10 {
            assert((a + b).subrange(start, cur) =~= a.subrange(start, cur));
            lemma_lines_scan_concat(a, b, cur + 1, cur + 1);
            lemma_lines_at_len(a, cur + 1, cur + 1);
            assert((seq![a.subrange(start, cur)] + spec_lines_at(a, cur + 1, cur + 1)).drop_last()
                =~= seq![a.subrange(start, cur)] + spec_lines_at(a, cur + 1, cur + 1).drop_last());
            assert(seq![a.subrange(start, cur)] + (spec_lines_at(a, cur + 1, cur + 1).drop_last()
                + spec_lines_at(b, 0, 0)) =~= (seq![a.subrange(start, cur)] + spec_lines_at(
                a,
                cur + 1,
                cur + 1,
            ).drop_last()) + spec_lines_at(b, 0, 0));
        } else {
            assert(cur + 1 < a.len() || a.last() != 10 || cur + 1 == a.len() && a[cur] == 10);
            assert(cur + 1 == a.len() ==> a[cur] == a.last());
            lemma_lines_scan_concat(a, b, start, cur + 1);
        }
    } else {
        lemma_lines_shift(a, b, 0, 0);
        assert(a.len() + 0 == a.len());
        assert(spec_lines_at(a + b, cur, cur) == spec_lines_at(b, 0, 0));
        assert(spec_lines_at(a, cur, cur) =~= seq![a.subrange(cur, a.len() as int)]);
        assert(spec_lines_at(a, cur, cur).drop_last() =~= Seq::<Seq<u8>>::empty());
        assert(Seq::<Seq<u8>>::empty() + spec_lines_at(b, 0, 0) =~= spec_lines_at(b, 0, 0));
    }
}

/// The lines of a concatenation whose first part is empty or ends in a
/// newline: the first part's lines, their trailing empty line replaced by
/// the second part's lines.
proof fn lemma_lines_concat(a: Seq<u8>, b: Seq<u8>)
    requires
        a.len() == 0 || a.last() == 10,
    ensures
        spec_lines(a + b) == spec_lines(a).drop_last() + spec_lines(b),
{
    if a.len() == 0 {
        assert(a + b =~= b);
        assert(spec_lines(a) =~= seq![a.subrange(0, 0)]);
        assert(spec_lines(a).drop_last() =~= Seq::<Seq<u8>>::empty());
        assert(Seq::<Seq<u8>>::empty() + spec_lines(b) =~= spec_lines(b));
    } else {
        lemma_lines_scan_concat(a, b, 0, 0);
    }
}

/// Scanning over a region without a newline does not change the lines.
proof fn lemma_lines_skip_to(s: Seq<u8>, start: int, cur: int, p: int)
    requires
        0 <= start <= cur <= p <= s.len(),
        forall|q: int| cur <= q < p ==> s[q] != 10,
    ensures
        spec_lines_at(s, start, cur) == spec_lines_at(s, start, p),
    decreases p - cur,
{
    if cur < p {
        lemma_lines_skip_to(s, start, cur + 1, p);
    }
}

/// A newline-free line followed by a newline splits into that line and a
/// trailing empty line.
proof fn lemma_single_line(line: Seq<u8>)
    requires
        forall|q: int| 0 <= q < line.len() ==> line[q] != 10,
    ensures
        spec_lines(line + seq![10u8]) == seq![line, Seq::<u8>::empty()],
{
    let s = line + seq![10u8];
    assert(forall|q: int| 0 <= q < line.len() ==> s[q] == line[q]);
    lemma_lines_skip_to(s, 0, 0, line.len() as int);
    assert(s[line.len() as int] == 10);
    assert(s.subrange(0, line.len() as int) =~= line);
    assert(spec_lines_at(s, line.len() as int + 1, line.len() as int + 1) =~= seq![
        s.subrange(s.len() as int, s.len() as int),
    ]);
    assert(seq![line] + seq![s.subrange(s.len() as int, s.len() as int)] =~~= seq![
        line,
        Seq::<u8>::empty(),
    ]);
}

/// A text that is empty or newline-terminated ends in an empty line.
proof fn lemma_lines_last_empty(s: Seq<u8>)
    requires
        s.len() == 0 || s.last() == 10,
    ensures
        spec_lines(s).len() >= 1,
        spec_lines(s).last() == Seq::<u8>::empty(),
{
    lemma_lines_concat(s, Seq::<u8>::empty());
    assert(s + Seq::<u8>::empty() =~= s);
    assert(spec_lines(Seq::<u8>::empty()) =~~= seq![Seq::<u8>::empty()]);
    lemma_lines_at_len(s, 0, 0);
    assert(spec_lines(s) == spec_lines(s).drop_last() + seq![Seq::<u8>::empty()]);
}

/// The empty line is malformed: it has one field, not two.
proof fn lemma_empty_line_malformed()
    ensures
        line_is_malformed(Seq::<u8>::empty()),
{
    let e = Seq::<u8>::empty();
    assert(crate::codec::spec_trim(e) == e);
    assert(crate::codec::spec_split(e) =~= seq![e.subrange(0, 0)]);
}

/// The manifest entries of the listed files: each absolute path with its
/// digest, in discovery order.
pub open spec fn spec_manifest_entries(paths: Seq<Seq<u8>>, m: Map<Seq<u8>, u128>) -> Seq<
    (Seq<u8>, u128),
> {
    Seq::new(paths.len(), |i: int| (paths[i], m[paths[i]]))
}

/// Round trip: a manifest encoded for files under the tree root, each with
/// an encodable relative path and a recorded digest, decodes under the
/// same root to exactly the mapping of those files to their digests —
/// whatever the discovery order, since the mapping forgets it.
pub proof fn lemma_manifest_round_trip(root: Seq<u8>, paths: Seq<Seq<u8>>, m: Map<Seq<u8>, u128>)
    requires
        forall|i: int| 0 <= i < paths.len() ==> under_root(root, #[trigger] paths[i]),
        forall|i: int| 0 <= i < paths.len() ==> m.contains_key(#[trigger] paths[i]),
        forall|i: int|
            0 <= i < paths.len() ==> rel_path_encodable(spec_rel(root, #[trigger] paths[i])),
    ensures
        spec_decode_manifest(root, spec_lines(spec_manifest_text(root, paths, m))) == Ok::<
            _,
            Seq<u8>,
        >(entries_to_map(spec_manifest_entries(paths, m))),
    decreases paths.len(),
{
    let text = spec_manifest_text(root, paths, m);
    if paths.len() == 0 {
        assert(spec_lines(text) =~= seq![text.subrange(0, 0)]);
        assert(text.subrange(0, 0) =~= Seq::<u8>::empty());
        lemma_empty_line_malformed();
        assert(spec_lines(text).drop_last() =~= Seq::<Seq<u8>>::empty());
        assert(spec_decode_manifest(root, Seq::<Seq<u8>>::empty()) == Ok::<_, Seq<u8>>(Map::<
            Seq<u8>,
            u128,
        >::empty()));
        assert(spec_lines(text).last() == Seq::<u8>::empty());
        assert(!line_is_entry(Seq::<u8>::empty()));
        assert(spec_decode_manifest(root, spec_lines(text)) == Ok::<_, Seq<u8>>(Map::<
            Seq<u8>,
            u128,
        >::empty()));
        assert(entries_to_map(spec_manifest_entries(paths, m)) =~= Map::<Seq<u8>, u128>::empty());
    } else {
        let pre = paths.drop_last();
        assert(forall|i: int| 0 <= i < pre.len() ==> pre[i] == paths[i]);
        lemma_manifest_round_trip(root, pre, m);
        let p = paths.last();
        assert(p == paths[paths.len() - 1]);
        let rel = spec_rel(root, p);
        let d = m[p];
        let line = spec_encode_line(rel, d);
        let tpre = spec_manifest_text(root, pre, m);
        assert(text == tpre + line + seq![10u8]);
        assert(tpre.len() == 0 || tpre.last() == 10u8) by {
            if pre.len() > 0 {
                assert(tpre == spec_manifest_text(root, pre.drop_last(), m) + spec_encode_line(
                    spec_rel(root, pre.last()),
                    m[pre.last()],
                ) + seq![10u8]);
            }
        }
        lemma_line_round_trip(rel, d);

        // No byte of the encoded line is a newline.
        let hex = crate::hex::spec_hex_of(d);
        crate::hex::lemma_hex_round_trip(d);
        assert(forall|q: int| 0 <= q < line.len() ==> line[q] != 10) by {
            assert forall|q: int| 0 <= q < line.len() implies line[q] != 10 by {
                let k = rel.len() as int;
                if q == 0 {
                    assert(line[q] == 91u8);
                } else if q <= k {
                    assert(line[q] == rel[q - 1]);
                } else if q == k + 1 || q == k + 3 {
                    assert(line[q] == 32u8);
                } else if q == k + 2 {
                    assert(line[q] == 124u8);
                } else if q < line.len() - 1 {
                    assert(line[q] == hex[q - k - 4]);
                    assert(crate::hex::is_hex_digit(hex[q - k - 4]));
                } else {
                    assert(line[q] == 93u8);
                }
            }
        }
        lemma_single_line(line);
        lemma_lines_concat(tpre, line + seq![10u8]);
        assert(tpre + (line + seq![10u8]) =~= text);
        let lpre = spec_lines(tpre);
        lemma_lines_last_empty(tpre);
        lemma_empty_line_malformed();

        let full = spec_lines(text);
        assert(full == lpre.drop_last() + seq![line, Seq::<u8>::empty()]);

        // The decode of the previous lines is the decode without their
        // trailing empty line, which is skipped.
        assert(lpre =~= lpre.drop_last() + seq![Seq::<u8>::empty()]);
        assert(lpre.last() == Seq::<u8>::empty());
        let mpre = entries_to_map(spec_manifest_entries(pre, m));
        assert(spec_decode_manifest(root, lpre.drop_last()) == Ok::<_, Seq<u8>>(mpre)) by {
            assert(spec_decode_manifest(root, lpre) == Ok::<_, Seq<u8>>(mpre));
        }

        // Walk the last two lines: the entry inserts, the empty line is
        // skipped.
        let mid = lpre.drop_last() + seq![line];
        assert(spec_join(root, rel) =~= p) by {
            assert(p =~= p.take(root.len() as int + 1) + p.skip(root.len() as int + 1));
        }
        assert(spec_decode_manifest(root, mid) == Ok::<_, Seq<u8>>(mpre.insert(p, d))) by {
            assert(mid.drop_last() =~= lpre.drop_last());
            assert(mid.last() == line);
            assert(line_is_entry(line));
        }
        assert(spec_decode_manifest(root, full) == Ok::<_, Seq<u8>>(mpre.insert(p, d))) by {
            assert(full.drop_last() =~= mid);
            assert(full.last() == Seq::<u8>::empty());
            assert(!line_is_entry(Seq::<u8>::empty()));
        }

        let entries = spec_manifest_entries(paths, m);
        assert(entries.drop_last() =~= spec_manifest_entries(pre, m));
        assert(entries.last() == (p, d));
        assert(entries_to_map(entries) == mpre.insert(p, d));
    }
}

} // verus!
