//! The discovery engine: candidate selection, round-based progressive
//! hashing, and grouping.
//!
//! The engine works on an in-memory tree of files.  Each round advances
//! every unfinished hasher by one chunk, finishes the files whose whole
//! content was read, finishes the files whose bytes so far no other file
//! shares, and sends the rest into the next round.  A disk-backed driver
//! walks directories, reads chunks out of files, and feeds the same
//! round-by-round machinery.

use vstd::prelude::*;
use vstd::slice::slice_subrange;

use crate::db::{cache_fresh, cached_hash, DbError, HashDb};
use crate::digest::{blake3_digest, DIGEST_LEN};
use crate::duplicates::{lemma_path_count_bounds, path_count, DeduperResult};
use crate::file::{FilePath, SourceFile};
use crate::hasher::{bcount, bucket_index, buckets_wf, in_buckets, in_multi_bucket, in_singleton_bucket, lemma_bucket_index, lemma_tcount_pointwise, lemma_tcount_take_succ, lemma_tcount_unique, tasks_contain, tcount, HasherSet, MemTask, ProgressiveHasher, MIN_TO_READ};
use crate::traits::{DeduperFileFilter, DeduperFindHook, FileAction, FilterAction};

verus! {

/// The metadata snapshot the filter sees for a file of an in-memory tree.
pub open spec fn file_path_of(f: SourceFile) -> FilePath {
    FilePath { path: f.path, size: f.bytes@.len() as u64, mtime: f.mtime }
}

/// The files the walk selects: those the filter includes, up to the first
/// file at which the filter stops the walk.
pub open spec fn selected_files<F: DeduperFileFilter>(files: Seq<SourceFile>, f: F) -> Seq<
    SourceFile,
>
    decreases files.len(),
{
    if files.len() == 0 {
        Seq::empty()
    } else {
        match f.verdict(file_path_of(files[0])) {
            FilterAction::Break => Seq::empty(),
            FilterAction::Continue(FileAction::Include) => seq![files[0]] + selected_files(
                files.drop_first(),
                f,
            ),
            FilterAction::Continue(FileAction::Exclude) => selected_files(files.drop_first(), f),
        }
    }
}

/// Whether the filter stops the walk somewhere in these files.
pub open spec fn walk_stopped<F: DeduperFileFilter>(files: Seq<SourceFile>, f: F) -> bool
    decreases files.len(),
{
    if files.len() == 0 {
        false
    } else if f.verdict(file_path_of(files[0])) is Break {
        true
    } else {
        walk_stopped(files.drop_first(), f)
    }
}

/// Whether some selected file has this path.
pub open spec fn selected_has_path<F: DeduperFileFilter>(
    files: Seq<SourceFile>,
    f: F,
    p: Seq<char>,
) -> bool {
    exists|s: int|
        0 <= s < selected_files(files, f).len() && (#[trigger] selected_files(files, f)[s]).path@
            == p
}

/// Copy a byte vector.
fn clone_bytes(v: &Vec<u8>) -> (r: Vec<u8>)
    ensures
        r@ == v@,
{
    let mut r: Vec<u8> = Vec::new();
    let n = v.len();
    let mut i: usize = 0;
    while i < n
        invariant
            n == v@.len(),
            i <= n,
            r@ =~= v@.take(i as int),
        decreases n - i,
    {
        r.push(v[i]);
        proof {
            assert(r@ =~= v@.take(i + 1));
        }
        i = i + 1;
    }
    proof {
        assert(v@.take(n as int) =~= v@);
    }
    r
}

/// Walk an in-memory tree: consult the filter for every file in order and
/// make a fresh hasher for every included file, until the filter stops the
/// walk.  Returns the hashers and whether the walk was stopped.
#[verifier::loop_isolation(false)]
pub fn collect_files<F: DeduperFileFilter>(files: &Vec<SourceFile>, filter: &F) -> (r: (
    Vec<MemTask>,
    bool,
))
    ensures
        r.1 == walk_stopped(files@, *filter),
        r.0@.len() == selected_files(files@, *filter).len(),
        forall|k: int|
            0 <= k < r.0@.len() ==> {
                let t = #[trigger] r.0@[k];
                &&& t.wf()
                &&& t.hasher.len_hashed == 0
                &&& t.path() == selected_files(files@, *filter)[k].path@
                &&& t.content() == selected_files(files@, *filter)[k].bytes@
                &&& t.hasher.file_path.mtime == selected_files(files@, *filter)[k].mtime
            },
{
    let ghost sel = selected_files(files@, *filter);
    let mut tasks: Vec<MemTask> = Vec::new();
    let n = files.len();
    let mut i: usize = 0;
    proof {
        assert(files@.skip(0) =~= files@);
    }
    while i < n
        invariant
            i <= n,
            walk_stopped(files@, *filter) == walk_stopped(files@.skip(i as int), *filter),
            tasks@.len() + selected_files(files@.skip(i as int), *filter).len() == sel.len(),
            forall|k: int|
                0 <= k < tasks@.len() ==> {
                    let t = #[trigger] tasks@[k];
                    &&& t.wf()
                    &&& t.hasher.len_hashed == 0
                    &&& t.path() == sel[k].path@
                    &&& t.content() == sel[k].bytes@
                    &&& t.hasher.file_path.mtime == sel[k].mtime
                },
            forall|k: int|
                0 <= k < selected_files(files@.skip(i as int), *filter).len() ==> sel[tasks@.len()
                    + k] == #[trigger] selected_files(files@.skip(i as int), *filter)[k],
        decreases n - i,
    {
        let ghost rest = files@.skip(i as int);
        proof {
            assert(rest[0] == files@[i as int]);
            assert(rest.drop_first() =~= files@.skip(i + 1));
        }
        let f = &files[i];
        let size = f.bytes.len() as u64;
        let fp = FilePath::new(f.path.clone(), size, f.mtime);
        proof {
            assert(fp == file_path_of(files@[i as int]));
        }
        let verdict = filter.handle_file(&fp);
        match verdict {
            FilterAction::Break => {
                return (tasks, true);
            },
            FilterAction::Continue(FileAction::Include) => {
                let bytes = clone_bytes(&f.bytes);
                let hasher = ProgressiveHasher::new(fp, Ghost(f.bytes@));
                let t = MemTask { hasher, bytes };
                proof {
                    assert(selected_files(rest, *filter) =~= seq![files@[i as int]]
                        + selected_files(rest.drop_first(), *filter));
                    assert(selected_files(rest, *filter)[0] == files@[i as int]);
                    assert(selected_files(files@.skip(i as int), *filter)[0] == files@[i as int]);
                    assert(sel[tasks@.len() as int] == selected_files(
                        files@.skip(i as int),
                        *filter,
                    )[0]);
                    assert(sel[tasks@.len() as int] == files@[i as int]);
                    assert forall|k: int|
                        0 <= k < selected_files(files@.skip(i + 1), *filter).len() implies sel[(
                        tasks@.len() + 1) + k] == #[trigger] selected_files(
                        files@.skip(i + 1),
                        *filter,
                    )[k] by {
                        assert(selected_files(rest, *filter)[k + 1] == selected_files(
                            files@.skip(i + 1),
                            *filter,
                        )[k]);
                        assert(sel[tasks@.len() + (k + 1)] == selected_files(rest, *filter)[k + 1]);
                    }
                }
                tasks.push(t);
            },
            FilterAction::Continue(FileAction::Exclude) => {
                proof {
                    assert(selected_files(rest, *filter) =~= selected_files(
                        rest.drop_first(),
                        *filter,
                    ));
                    assert(selected_files(files@.skip(i + 1), *filter) == selected_files(
                        rest,
                        *filter,
                    ));
                }
            },
        }
        i = i + 1;
    }
    proof {
        assert(files@.skip(n as int) =~= Seq::<SourceFile>::empty());
    }
    (tasks, false)
}

/// Advance every hasher by one chunk, read out of its in-memory content.
#[verifier::loop_isolation(false)]
pub fn advance_all(pending: &mut Vec<MemTask>)
    requires
        forall|k: int| 0 <= k < old(pending)@.len() ==> (#[trigger] old(pending)@[k]).wf(),
    ensures
        final(pending)@.len() == old(pending)@.len(),
        forall|k: int|
            0 <= k < final(pending)@.len() ==> (#[trigger] final(pending)@[k]).wf()
                && final(pending)@[k].path() == old(pending)@[k].path()
                && final(pending)@[k].content() == old(pending)@[k].content()
                && final(pending)@[k].hasher.len_hashed == vstd::math::min(
                old(pending)@[k].hasher.len_hashed + MIN_TO_READ,
                old(pending)@[k].size() as int,
            ),
{
    let n = pending.len();
    let mut i: usize = 0;
    while i < n
        invariant
            i <= n,
            pending@.len() == n,
            forall|k: int| 0 <= k < n - i ==> (#[trigger] pending@[k]) == old(pending)@[i + k],
            forall|k: int|
                0 <= k < i ==> (#[trigger] pending@[n - i + k]).wf() && pending@[n - i + k].path()
                    == old(pending)@[k].path() && pending@[n - i + k].content()
                    == old(pending)@[k].content() && pending@[n - i + k].hasher.len_hashed
                    == vstd::math::min(
                    old(pending)@[k].hasher.len_hashed + MIN_TO_READ,
                    old(pending)@[k].size() as int,
                ),
        decreases n - i,
    {
        let ghost prev = pending@;
        let mut t = pending.remove(0);
        proof {
            assert(t == old(pending)@[i as int]);
        }
        let ghost torig = t;
        let blen = t.bytes.len();
        let clen = t.hasher.next_chunk_len();
        let start64 = t.hasher.len_hashed;
        proof {
            assert(start64 + clen <= t.hasher.file_path.size);
            assert(t.bytes@.len() == blen);
        }
        let start = start64 as usize;
        let end = start + clen as usize;
        let chunk = slice_subrange(t.bytes.as_slice(), start, end);
        t.hasher.update(chunk);
        proof {
            assert(t.path() == torig.path() && t.content() == torig.content());
            assert(t.hasher.len_hashed == vstd::math::min(
                torig.hasher.len_hashed + MIN_TO_READ,
                torig.size() as int,
            ));
        }
        let ghost tfin = t;
        pending.push(t);
        proof {
            assert(pending@ =~= prev.subrange(1, n as int).push(tfin));
            assert forall|k: int| 0 <= k < i + 1 implies (#[trigger] pending@[n - (i + 1) + k]).wf()
                && pending@[n - (i + 1) + k].path() == old(pending)@[k].path() && pending@[n - (i
                + 1) + k].content() == old(pending)@[k].content() && pending@[n - (i + 1)
                + k].hasher.len_hashed == vstd::math::min(
                old(pending)@[k].hasher.len_hashed + MIN_TO_READ,
                old(pending)@[k].size() as int,
            ) by {
                if k < i {
                    assert(pending@[n - (i + 1) + k] == prev[n - i + k]);
                } else {
                    assert(pending@[n - 1] == tfin);
                    assert(tfin.path() == old(pending)@[i as int].path());
                }
            }
            assert forall|k: int| 0 <= k < n - (i + 1) implies (#[trigger] pending@[k]) == old(
                pending,
            )@[(i + 1) + k] by {
                assert(pending@[k] == prev[k + 1]);
            }
        }
        i = i + 1;
    }
    proof {
        assert forall|k: int| 0 <= k < n implies (#[trigger] pending@[k]).wf() && pending@[k].path()
            == old(pending)@[k].path() && pending@[k].content() == old(pending)@[k].content()
            && pending@[k].hasher.len_hashed == vstd::math::min(
            old(pending)@[k].hasher.len_hashed + MIN_TO_READ,
            old(pending)@[k].size() as int,
        ) by {
            assert(pending@[n - i + k].wf());
        }
    }
}

/// Whether `ts` holds a task whose content is `c`.
pub open spec fn tasks_content(ts: Seq<MemTask>, c: Seq<u8>) -> bool {
    exists|k: int| 0 <= k < ts.len() && (#[trigger] ts[k]).content() == c
}

/// The digest a file of content `c` carries after the round that starts at
/// `roundlen` read bytes: the digest of one more chunk, capped at the end
/// of the content.
pub open spec fn round_digest(c: Seq<u8>, roundlen: int) -> Seq<u8> {
    blake3_digest(c.take(vstd::math::min(roundlen + MIN_TO_READ as int, c.len() as int)))
}

/// Whether `d` is the digest of some prefix of `c`.
pub open spec fn is_prefix_digest(c: Seq<u8>, d: Seq<u8>) -> bool {
    exists|n: int| 0 <= n <= c.len() && d == blake3_digest(c.take(n))
}

/// Whether the result records the file under the digest of one of its
/// prefixes, with its size as the other half of the key.  A fully hashed
/// file is recorded under the digest of its whole content; a file finished
/// early, because no other file shared its bytes, under the digest of the
/// prefix actually read.
pub open spec fn keyed_by_prefix(r: DeduperResult, f: SourceFile) -> bool {
    exists|n: int|
        0 <= n <= f.bytes@.len() && r.path_in_group(
            f.bytes@.len() as u64,
            blake3_digest(f.bytes@.take(n)),
            f.path@,
        )
}

/// Whether `ts` holds a task whose file has this path.
pub open spec fn task_paths_have(ts: Seq<MemTask>, p: Seq<char>) -> bool {
    exists|k: int| 0 <= k < ts.len() && (#[trigger] ts[k]).path() == p
}

/// Whether `ts` holds a task for the file `(p, c)`.
pub open spec fn tasks_have_pc(ts: Seq<MemTask>, p: Seq<char>, c: Seq<u8>) -> bool {
    exists|k: int| 0 <= k < ts.len() && (#[trigger] ts[k]).path() == p && ts[k].content() == c
}

/// Whether `ts` holds a task for the file `(p, c)` that has read `l` bytes.
pub open spec fn tasks_have(ts: Seq<MemTask>, p: Seq<char>, c: Seq<u8>, l: u64) -> bool {
    exists|k: int|
        0 <= k < ts.len() && (#[trigger] ts[k]).path() == p && ts[k].content() == c
            && ts[k].hasher.len_hashed == l
}

/// One round of the collector: every finished hasher becomes an entry of
/// the result; the rest are bucketed by what they read so far, hashers
/// alone in their bucket are finished at their current digest, and the
/// others are returned for another round.  Every task either enters the
/// result under its current `(size, digest)` key or comes back for the
/// next round, and two unfinished files of equal content and equal
/// progress always come back together.
#[verifier::rlimit(50)]
#[verifier::loop_isolation(false)]
pub fn collect_round<H: DeduperFindHook>(
    tasks: Vec<MemTask>,
    result: DeduperResult,
    hook: &H,
) -> (r: (DeduperResult, Vec<MemTask>))
    requires
        result.wf(),
        forall|k: int| 0 <= k < tasks@.len() ==> (#[trigger] tasks@[k]).wf(),
        forall|k1: int, k2: int|
            0 <= k1 < tasks@.len() && 0 <= k2 < tasks@.len() && (#[trigger] tasks@[k1]).content()
                == (#[trigger] tasks@[k2]).content() ==> tasks@[k1].hasher.len_hashed
                == tasks@[k2].hasher.len_hashed,
    ensures
        r.0.wf(),
        r.0.partial == result.partial,
        forall|sz: u64, d: Seq<u8>, p: Seq<char>|
            #[trigger] result.path_in_group(sz, d, p) ==> r.0.path_in_group(sz, d, p),
        forall|p: Seq<char>, q: Seq<char>|
            #[trigger] result.grouped_together(p, q) ==> r.0.grouped_together(p, q),
        forall|p: Seq<char>|
            #[trigger] r.0.contains_path(p) ==> result.contains_path(p)
                || task_paths_have(tasks@, p),
        forall|k: int|
            0 <= k < tasks@.len() ==> r.0.path_in_group(
                (#[trigger] tasks@[k]).size(),
                tasks@[k].cur_digest(),
                tasks@[k].path(),
            ) || tasks_have(r.1@, tasks@[k].path(), tasks@[k].content(), tasks@[k].hasher.len_hashed),
        forall|k1: int, k2: int|
            0 <= k1 < tasks@.len() && 0 <= k2 < tasks@.len() && !(#[trigger] tasks@[k1]).hasher.done()
                && !(#[trigger] tasks@[k2]).hasher.done() && tasks@[k1].content()
                == tasks@[k2].content() && tasks@[k1].path() != tasks@[k2].path() ==> tasks_have(
                r.1@,
                tasks@[k1].path(),
                tasks@[k1].content(),
                tasks@[k1].hasher.len_hashed,
            ) && tasks_have(r.1@, tasks@[k2].path(), tasks@[k2].content(), tasks@[k2].hasher.len_hashed),
        forall|k: int|
            0 <= k < r.1@.len() ==> (#[trigger] r.1@[k]).wf() && !r.1@[k].hasher.done()
                && tasks_have(
                tasks@,
                r.1@[k].path(),
                r.1@[k].content(),
                r.1@[k].hasher.len_hashed,
            ),
        forall|p: Seq<char>| #![trigger path_count(r.0.groups@, p)]
            path_count(r.0.groups@, p) == path_count(result.groups@, p) + tcount(tasks@, p)
                - tcount(r.1@, p),
{
    let ghost orig = tasks@;
    let mut res = result;
    let ghost pre = res;
    let mut rest = tasks;
    let mut set = HasherSet::new();
    proof {
        assert(orig.take(orig.len() as int) =~= orig);
        assert(forall|p: Seq<char>|
            #[trigger] bcount(Seq::<crate::hasher::Bucket>::empty(), p) == 0);
    }
    while rest.len() > 0
        invariant
            rest@ =~= orig.take(rest@.len() as int),
            rest@.len() <= orig.len(),
            buckets_wf(set.buckets@),
            res.wf(),
            res.partial == pre.partial,
            forall|p: Seq<char>| #![trigger path_count(res.groups@, p)]
                path_count(res.groups@, p) + bcount(set.buckets@, p) == path_count(pre.groups@, p)
                    + tcount(orig, p) - tcount(rest@, p),
            forall|sz: u64, d: Seq<u8>, p: Seq<char>|
                #[trigger] pre.path_in_group(sz, d, p) ==> res.path_in_group(sz, d, p),
            forall|p: Seq<char>, q: Seq<char>|
                #[trigger] pre.grouped_together(p, q) ==> res.grouped_together(p, q),
            forall|p: Seq<char>|
                #[trigger] res.contains_path(p) ==> pre.contains_path(p) || task_paths_have(
                    orig,
                    p,
                ),
            forall|b: int, j: int|
                0 <= b < set.buckets@.len() && 0 <= j < set.buckets@[b].tasks@.len()
                    ==> tasks_contain(orig, #[trigger] set.buckets@[b].tasks@[j]),
            forall|k: int|
                rest@.len() <= k < orig.len() ==> ({
                    let t = #[trigger] orig[k];
                    if t.hasher.done() {
                        res.path_in_group(t.size(), t.cur_digest(), t.path())
                    } else {
                        in_buckets(set.buckets@, t.cur_digest(), t.path(), t.content())
                    }
                }),
        decreases rest@.len(),
    {
        let ghost prevr = rest@;
        let ghost prev_result = res;
        let ghost prev_set = set.buckets@;
        let t = rest.pop().unwrap();
        proof {
            assert(prevr[prevr.len() - 1] == orig.take(prevr.len() as int)[prevr.len() - 1]);
            assert(t == orig[prevr.len() - 1]);
            assert(t.wf());
            assert(rest@ =~= orig.take(rest@.len() as int));
        }
        let (hash, done) = t.hasher.current_hash();
        if done {
            let entry = t.hasher.to_file_entry();
            hook.entry_processed(&hash, &entry);
            res.add_entry(hash, entry);
            proof {
                assert(res.path_in_group(t.size(), t.cur_digest(), t.path()));
                assert forall|p: Seq<char>| #![trigger path_count(res.groups@, p)]
                    path_count(res.groups@, p) + bcount(set.buckets@, p) == path_count(
                    pre.groups@,
                    p,
                ) + tcount(orig, p) - tcount(rest@, p) by {
                    assert(path_count(prev_result.groups@, p) + bcount(prev_set, p) == path_count(
                        pre.groups@,
                        p,
                    ) + tcount(orig, p) - tcount(prevr, p));
                    lemma_tcount_take_succ(orig, rest@.len() as int, p);
                    assert(prevr == orig.take(rest@.len() as int + 1));
                    assert(rest@ == orig.take(rest@.len() as int));
                    assert(orig[rest@.len() as int] == t);
                    assert(path_count(res.groups@, p) == path_count(prev_result.groups@, p) + (
                    if p == t.path() {
                        1int
                    } else {
                        0
                    }));
                    assert(bcount(set.buckets@, p) == bcount(prev_set, p));
                }
                assert forall|p: Seq<char>| #[trigger] res.contains_path(p) implies
                    pre.contains_path(p) || task_paths_have(orig, p) by {
                    if !prev_result.contains_path(p) {
                        assert(p == t.path());
                        assert(orig[prevr.len() - 1].path() == p);
                    }
                }
            }
        } else {
            set.insert(t);
            proof {
                assert forall|p: Seq<char>| #![trigger path_count(res.groups@, p)]
                    path_count(res.groups@, p) + bcount(set.buckets@, p) == path_count(
                    pre.groups@,
                    p,
                ) + tcount(orig, p) - tcount(rest@, p) by {
                    assert(path_count(prev_result.groups@, p) + bcount(prev_set, p) == path_count(
                        pre.groups@,
                        p,
                    ) + tcount(orig, p) - tcount(prevr, p));
                    lemma_tcount_take_succ(orig, rest@.len() as int, p);
                    assert(prevr == orig.take(rest@.len() as int + 1));
                    assert(rest@ == orig.take(rest@.len() as int));
                    assert(orig[rest@.len() as int] == t);
                    assert(bcount(set.buckets@, p) == bcount(prev_set, p) + (if p == t.path() {
                        1int
                    } else {
                        0
                    }));
                    assert(path_count(res.groups@, p) == path_count(prev_result.groups@, p));
                }
                assert forall|b: int, j: int|
                    0 <= b < set.buckets@.len() && 0 <= j < set.buckets@[b].tasks@.len() implies
                    tasks_contain(orig, #[trigger] set.buckets@[b].tasks@[j]) by {
                    if set.buckets@[b].tasks@[j] != t {
                        let (b2, j2) = choose|b2: int, j2: int|
                            0 <= b2 < prev_set.len() && 0 <= j2 < prev_set[b2].tasks@.len()
                                && (#[trigger] prev_set[b2].tasks@[j2])
                                == set.buckets@[b].tasks@[j];
                        assert(tasks_contain(orig, prev_set[b2].tasks@[j2]));
                    } else {
                        assert(orig[prevr.len() - 1] == set.buckets@[b].tasks@[j]);
                    }
                }
            }
        }
        proof {
            assert forall|k: int|
                rest@.len() <= k < orig.len() implies ({
                let u = #[trigger] orig[k];
                if u.hasher.done() {
                    res.path_in_group(u.size(), u.cur_digest(), u.path())
                } else {
                    in_buckets(set.buckets@, u.cur_digest(), u.path(), u.content())
                }
            }) by {
                if k < prevr.len() - 1 {
                    if !orig[k].hasher.done() {
                        assert(in_buckets(prev_set, orig[k].cur_digest(), orig[k].path(),
                            orig[k].content()));
                    }
                }
            }
        }
    }
    proof {
        assert forall|p: Seq<char>| #![trigger path_count(res.groups@, p)]
            path_count(res.groups@, p) + bcount(set.buckets@, p) == path_count(pre.groups@, p)
                + tcount(orig, p) by {
            assert(rest@ =~= Seq::<MemTask>::empty());
            assert(tcount(rest@, p) == 0);
        }
    }
    let ghost setb = set.buckets@;
    let (finished, continuing) = set.filter_unfinished_duplicates();
    let ghost mid_result = res;
    let ghost finorig = finished@;
    let mut fin = finished;
    proof {
        assert(finorig.take(finorig.len() as int) =~= finorig);
        assert(orig.take(0) =~= Seq::<MemTask>::empty());
        assert(forall|p: Seq<char>| #[trigger] tcount(Seq::<MemTask>::empty(), p) == 0);
    }
    while fin.len() > 0
        invariant
            fin@ =~= finorig.take(fin@.len() as int),
            fin@.len() <= finorig.len(),
            forall|p: Seq<char>| #![trigger path_count(res.groups@, p)]
                path_count(res.groups@, p) == path_count(mid_result.groups@, p) + tcount(
                    finorig,
                    p,
                ) - tcount(fin@, p),
            res.wf(),
            res.partial == pre.partial,
            forall|k: int|
                0 <= k < finorig.len() ==> in_singleton_bucket(setb, #[trigger] finorig[k]),
            forall|b: int, j: int|
                0 <= b < setb.len() && 0 <= j < setb[b].tasks@.len() ==> tasks_contain(
                    orig,
                    #[trigger] setb[b].tasks@[j],
                ),
            forall|sz: u64, d: Seq<u8>, p: Seq<char>|
                #[trigger] mid_result.path_in_group(sz, d, p) ==> res.path_in_group(sz, d, p),
            forall|p: Seq<char>, q: Seq<char>|
                #[trigger] mid_result.grouped_together(p, q) ==> res.grouped_together(p, q),
            forall|p: Seq<char>|
                #[trigger] res.contains_path(p) ==> mid_result.contains_path(p)
                    || task_paths_have(orig, p),
            forall|k: int|
                fin@.len() <= k < finorig.len() ==> res.path_in_group(
                    (#[trigger] finorig[k]).size(),
                    finorig[k].cur_digest(),
                    finorig[k].path(),
                ),
        decreases fin@.len(),
    {
        let ghost prevf = fin@;
        let ghost prev_result = res;
        let t = fin.pop().unwrap();
        proof {
            assert(prevf[prevf.len() - 1] == finorig.take(prevf.len() as int)[prevf.len() - 1]);
            assert(t == finorig[prevf.len() - 1]);
            assert(in_singleton_bucket(setb, t));
            let b = choose|b: int|
                0 <= b < setb.len() && (#[trigger] setb[b]).tasks@.len() == 1 && setb[b].tasks@[0]
                    == t;
            assert(buckets_wf(setb));
            assert(t.wf() && !t.hasher.done());
            assert(fin@ =~= finorig.take(fin@.len() as int));
        }
        let (hash, _done) = t.hasher.current_hash();
        let entry = t.hasher.to_file_entry();
        hook.entry_processed(&hash, &entry);
        res.add_entry(hash, entry);
        proof {
            assert(res.path_in_group(t.size(), t.cur_digest(), t.path()));
            assert forall|p: Seq<char>| #![trigger path_count(res.groups@, p)]
                path_count(res.groups@, p) == path_count(mid_result.groups@, p) + tcount(
                finorig,
                p,
            ) - tcount(fin@, p) by {
                assert(path_count(prev_result.groups@, p) == path_count(mid_result.groups@, p)
                    + tcount(finorig, p) - tcount(prevf, p));
                lemma_tcount_take_succ(finorig, fin@.len() as int, p);
                assert(prevf == finorig.take(fin@.len() as int + 1));
                assert(fin@ == finorig.take(fin@.len() as int));
                assert(finorig[fin@.len() as int] == t);
                assert(path_count(res.groups@, p) == path_count(prev_result.groups@, p) + (
                if p == t.path() {
                    1int
                } else {
                    0
                }));
            }
            assert forall|p: Seq<char>| #[trigger] res.contains_path(p) implies
                mid_result.contains_path(p) || task_paths_have(orig, p) by {
                if !prev_result.contains_path(p) {
                    assert(p == t.path());
                    let b = choose|b: int|
                        0 <= b < setb.len() && (#[trigger] setb[b]).tasks@.len() == 1
                            && setb[b].tasks@[0] == t;
                    assert(tasks_contain(orig, setb[b].tasks@[0]));
                    let k = choose|k: int| 0 <= k < orig.len() && orig[k] == t;
                    assert(orig[k].path() == p);
                }
            }
        }
    }
    proof {
        assert(finorig.take(0) =~= Seq::<MemTask>::empty());
        assert forall|p: Seq<char>| #![trigger path_count(res.groups@, p)]
            path_count(res.groups@, p) == path_count(pre.groups@, p) + tcount(orig, p)
                - tcount(continuing@, p) by {
            assert(path_count(res.groups@, p) == path_count(mid_result.groups@, p) + tcount(
                finorig,
                p,
            ) - tcount(fin@, p));
            assert(fin@ =~= Seq::<MemTask>::empty());
            assert(tcount(fin@, p) == 0);
            assert(tcount(finorig, p) + tcount(continuing@, p) == bcount(setb, p));
            assert(path_count(mid_result.groups@, p) + bcount(setb, p) == path_count(
                pre.groups@,
                p,
            ) + tcount(orig, p));
        }
        // every input is either in the result under its current key or in
        // the continuing set
        assert forall|k: int|
            0 <= k < orig.len() implies res.path_in_group(
            (#[trigger] orig[k]).size(),
            orig[k].cur_digest(),
            orig[k].path(),
        ) || tasks_have(
            continuing@,
            orig[k].path(),
            orig[k].content(),
            orig[k].hasher.len_hashed,
        ) by {
            let u = orig[k];
            if u.hasher.done() {
            } else {
                assert(in_buckets(setb, u.cur_digest(), u.path(), u.content()));
                lemma_bucket_index(setb, u.cur_digest());
                let b = bucket_index(setb, u.cur_digest());
                let j = choose|j: int|
                    0 <= j < setb[b].tasks@.len() && (#[trigger] setb[b].tasks@[j]).path()
                        == u.path() && setb[b].tasks@[j].content() == u.content();
                let w = setb[b].tasks@[j];
                assert(tasks_contain(orig, w));
                let kw = choose|kw: int| 0 <= kw < orig.len() && orig[kw] == w;
                assert(orig[kw].content() == u.content());
                assert(w.hasher.len_hashed == u.hasher.len_hashed);
                if setb[b].tasks@.len() == 1 {
                    assert(tasks_contain(finorig, w));
                    let kf = choose|kf: int| 0 <= kf < finorig.len() && finorig[kf] == w;
                    assert(res.path_in_group(w.size(), w.cur_digest(), w.path()));
                    assert(w.size() == u.size() && w.cur_digest() == u.cur_digest());
                } else {
                    assert(tasks_contain(continuing@, w));
                    let kc = choose|kc: int|
                        0 <= kc < continuing@.len() && continuing@[kc] == w;
                    assert(continuing@[kc].path() == u.path() && continuing@[kc].content()
                        == u.content() && continuing@[kc].hasher.len_hashed
                        == u.hasher.len_hashed);
                }
            }
        }
        // two unfinished files of equal content and distinct paths share a
        // bucket, which therefore is no singleton: both continue
        assert forall|k1: int, k2: int|
            0 <= k1 < orig.len() && 0 <= k2 < orig.len() && !(#[trigger] orig[k1]).hasher.done()
                && !(#[trigger] orig[k2]).hasher.done() && orig[k1].content() == orig[k2].content()
                && orig[k1].path() != orig[k2].path() implies tasks_have(
            continuing@,
            orig[k1].path(),
            orig[k1].content(),
            orig[k1].hasher.len_hashed,
        ) && tasks_have(
            continuing@,
            orig[k2].path(),
            orig[k2].content(),
            orig[k2].hasher.len_hashed,
        ) by {
            let u1 = orig[k1];
            let u2 = orig[k2];
            assert(u1.hasher.len_hashed == u2.hasher.len_hashed);
            assert(u1.cur_digest() == u2.cur_digest());
            assert(in_buckets(setb, u1.cur_digest(), u1.path(), u1.content()));
            assert(in_buckets(setb, u2.cur_digest(), u2.path(), u2.content()));
            lemma_bucket_index(setb, u1.cur_digest());
            let b = bucket_index(setb, u1.cur_digest());
            let j1 = choose|j: int|
                0 <= j < setb[b].tasks@.len() && (#[trigger] setb[b].tasks@[j]).path()
                    == u1.path() && setb[b].tasks@[j].content() == u1.content();
            let j2 = choose|j: int|
                0 <= j < setb[b].tasks@.len() && (#[trigger] setb[b].tasks@[j]).path()
                    == u2.path() && setb[b].tasks@[j].content() == u2.content();
            assert(j1 != j2);
            assert(setb[b].tasks@.len() >= 2);
            let w1 = setb[b].tasks@[j1];
            let w2 = setb[b].tasks@[j2];
            assert(tasks_contain(continuing@, w1));
            assert(tasks_contain(continuing@, w2));
            assert(tasks_contain(orig, w1) && tasks_contain(orig, w2));
            let kw1 = choose|kw: int| 0 <= kw < orig.len() && orig[kw] == w1;
            let kw2 = choose|kw: int| 0 <= kw < orig.len() && orig[kw] == w2;
            assert(w1.hasher.len_hashed == u1.hasher.len_hashed);
            assert(w2.hasher.len_hashed == u2.hasher.len_hashed);
            let kc1 = choose|kc: int| 0 <= kc < continuing@.len() && continuing@[kc] == w1;
            let kc2 = choose|kc: int| 0 <= kc < continuing@.len() && continuing@[kc] == w2;
            assert(continuing@[kc1].path() == u1.path());
            assert(continuing@[kc2].path() == u2.path());
        }
        // the continuing tasks are input tasks
        assert forall|k: int|
            0 <= k < continuing@.len() implies (#[trigger] continuing@[k]).wf()
            && !continuing@[k].hasher.done() && tasks_have(
            orig,
            continuing@[k].path(),
            continuing@[k].content(),
            continuing@[k].hasher.len_hashed,
        ) by {
            assert(in_multi_bucket(setb, continuing@[k]));
            let (b, j) = choose|b: int, j: int|
                0 <= b < setb.len() && setb[b].tasks@.len() >= 2 && 0 <= j
                    < setb[b].tasks@.len() && (#[trigger] setb[b].tasks@[j]) == continuing@[k];
            assert(tasks_contain(orig, setb[b].tasks@[j]));
            let kw = choose|kw: int| 0 <= kw < orig.len() && orig[kw] == continuing@[k];
            assert(orig[kw].path() == continuing@[k].path());
        }
        assert forall|p: Seq<char>| #[trigger] res.contains_path(p) implies pre.contains_path(
            p,
        ) || task_paths_have(orig, p) by {
            if !pre.contains_path(p) {
                assert(mid_result.contains_path(p) || task_paths_have(orig, p));
            }
        }
    }
    (res, continuing)
}

/// File deduplicator: holds the configured roots for the disk-backed
/// driver.  The in-memory engine itself is [`Deduper::find`].
#[derive(Debug)]
pub struct Deduper {
    /// Where the disk-backed driver starts its search.
    pub roots: Vec<String>,
    /// Configuration the driver reads to build its size-window filter.
    /// Discovery itself filters only through the filter handed to
    /// [`Deduper::find`]; this field does not bind it.
    pub lower_limit: Option<u64>,
}

impl Deduper {
    /// Create a [`DeduperBuilder`].
    pub fn builder(roots: Vec<String>) -> (r: DeduperBuilder)
        ensures
            r.roots@ == roots@,
            r.lower_limit is None,
    {
        DeduperBuilder::new(roots)
    }

    /// Return the configured roots.
    pub fn roots(&self) -> (r: &Vec<String>)
        ensures
            r@ == self.roots@,
    {
        &self.roots
    }

    /// Find duplicated files among an in-memory tree of files.
    ///
    /// The filter decides which files take part and may stop the walk,
    /// which marks the result partial.  Every selected file is reported,
    /// under its size and the digest of the prefix the engine read of it;
    /// two selected files with byte-identical contents always land in one
    /// group; and every reported path belongs to a selected file.
    #[verifier::rlimit(100)]
    #[verifier::loop_isolation(false)]
    pub fn find<F: DeduperFileFilter, H: DeduperFindHook>(
        &self,
        files: &Vec<SourceFile>,
        filter: &F,
        hook: &H,
    ) -> (r: DeduperResult)
        requires
            forall|s1: int, s2: int|
                0 <= s1 < s2 < selected_files(files@, *filter).len()
                    ==> (#[trigger] selected_files(files@, *filter)[s1]).path@
                    != (#[trigger] selected_files(files@, *filter)[s2]).path@,
        ensures
            r.wf(),
            r.partial == walk_stopped(files@, *filter),
            forall|s: int|
                0 <= s < selected_files(files@, *filter).len() ==> path_count(
                    r.groups@,
                    (#[trigger] selected_files(files@, *filter)[s]).path@,
                ) == 1,
            forall|p: Seq<char>| #![trigger path_count(r.groups@, p)]
                !selected_has_path(files@, *filter, p) ==> path_count(r.groups@, p) == 0,
            forall|p: Seq<char>|
                #[trigger] r.contains_path(p) ==> selected_has_path(files@, *filter, p),
            forall|s: int|
                0 <= s < selected_files(files@, *filter).len() ==> r.contains_path(
                    (#[trigger] selected_files(files@, *filter)[s]).path@,
                ),
            forall|s: int|
                0 <= s < selected_files(files@, *filter).len() ==> keyed_by_prefix(
                    r,
                    #[trigger] selected_files(files@, *filter)[s],
                ),
            forall|s1: int, s2: int|
                0 <= s1 < selected_files(files@, *filter).len() && 0 <= s2 < selected_files(
                    files@,
                    *filter,
                ).len() && (#[trigger] selected_files(files@, *filter)[s1]).bytes@
                    == (#[trigger] selected_files(files@, *filter)[s2]).bytes@
                    ==> r.grouped_together(
                    selected_files(files@, *filter)[s1].path@,
                    selected_files(files@, *filter)[s2].path@,
                ),
    {
        let ghost sel = selected_files(files@, *filter);
        let (tasks, stopped) = collect_files(files, filter);
        hook.files_selected(tasks.len());
        let mut result = DeduperResult::new();
        if stopped {
            result.set_partial();
        }
        let mut pending = tasks;
        let ghost mut fate: Map<Seq<u8>, Seq<u8>> = Map::empty();
        let ghost mut roundlen: int = 0;
        // Bounds the loop for the termination checker; it cannot run out:
        // every round advances each unfinished hasher by a full chunk, and
        // after u64::MAX rounds the bytes read would exceed any file size.
        let mut fuel: u64 = u64::MAX;
        proof {
            assert forall|k: int| 0 <= k < pending@.len() implies (#[trigger] pending@[k]).wf()
                && pending@[k].hasher.len_hashed as int == roundlen && selected_has_path(
                files@,
                *filter,
                pending@[k].path(),
            ) && !fate.dom().contains(pending@[k].content()) by {
                assert(sel[k].path@ == pending@[k].path());
            }
            assert(result.groups@ =~= Seq::<crate::duplicates::HashGroup>::empty());
            assert forall|s: int|
                0 <= s < sel.len() implies path_count(result.groups@, (#[trigger] sel[s]).path@)
                + tcount(pending@, sel[s].path@) == 1 by {
                assert(path_count(result.groups@, sel[s].path@) == 0);
                assert(pending@[s].path() == sel[s].path@);
                assert forall|k: int|
                    0 <= k < pending@.len() && k != s implies (#[trigger] pending@[k]).path()
                    != sel[s].path@ by {
                    assert(pending@[k].path() == sel[k].path@);
                }
                lemma_tcount_unique(pending@, sel[s].path@, s);
            }
            assert forall|s: int| 0 <= s < sel.len() implies tasks_have_pc(
                pending@,
                (#[trigger] sel[s]).path@,
                sel[s].bytes@,
            ) || (fate.dom().contains(sel[s].bytes@) && result.path_in_group(
                sel[s].bytes@.len() as u64,
                fate[sel[s].bytes@],
                sel[s].path@,
            )) by {
                assert(pending@[s].path() == sel[s].path@ && pending@[s].content()
                    == sel[s].bytes@);
            }
        }
        while pending.len() > 0 && fuel > 0
            invariant
                result.wf(),
                result.partial == walk_stopped(files@, *filter),
                0 <= roundlen,
                roundlen == (MIN_TO_READ as int) * (u64::MAX - fuel),
                forall|k: int|
                    0 <= k < pending@.len() ==> (#[trigger] pending@[k]).wf()
                        && pending@[k].hasher.len_hashed as int == roundlen && selected_has_path(
                        files@,
                        *filter,
                        pending@[k].path(),
                    ) && !fate.dom().contains(pending@[k].content()),
                forall|c: Seq<u8>| #[trigger] fate.dom().contains(c) ==> is_prefix_digest(
                    c,
                    fate[c],
                ),
                forall|s: int|
                    0 <= s < sel.len() ==> tasks_have_pc(
                        pending@,
                        (#[trigger] sel[s]).path@,
                        sel[s].bytes@,
                    ) || (fate.dom().contains(sel[s].bytes@) && result.path_in_group(
                        sel[s].bytes@.len() as u64,
                        fate[sel[s].bytes@],
                        sel[s].path@,
                    )),
                forall|p: Seq<char>|
                    #[trigger] result.contains_path(p) ==> selected_has_path(files@, *filter, p),
                forall|s: int|
                    0 <= s < sel.len() ==> path_count(
                        result.groups@,
                        (#[trigger] sel[s]).path@,
                    ) + tcount(pending@, sel[s].path@) == 1,
            decreases fuel,
        {
            let ghost oldfuel = fuel;
            fuel = fuel - 1;
            let ghost before = pending@;
            advance_all(&mut pending);
            let ghost adv = pending@;
            proof {
                assert forall|k1: int, k2: int|
                    0 <= k1 < adv.len() && 0 <= k2 < adv.len() && (#[trigger] adv[k1]).content()
                        == (#[trigger] adv[k2]).content() implies adv[k1].hasher.len_hashed
                    == adv[k2].hasher.len_hashed by {
                    assert(before[k1].content() == before[k2].content());
                    assert(before[k1].size() == before[k2].size());
                }
            }
            let ghost prev_result = result;
            let ghost prev_fate = fate;
            let round = collect_round(pending, result, hook);
            result = round.0;
            pending = round.1;
            let ghost newpend = pending@;
            proof {
                fate = fate.union_prefer_right(
                    Map::new(
                        |c: Seq<u8>| tasks_content(adv, c) && !tasks_content(newpend, c),
                        |c: Seq<u8>| round_digest(c, roundlen),
                    ),
                );
                // the contents of the returned tasks are contents of this
                // round's inputs, whose classes were unfated
                assert forall|k: int| 0 <= k < newpend.len() implies (#[trigger] newpend[k]).wf()
                    && newpend[k].hasher.len_hashed as int == roundlen + MIN_TO_READ as int
                    && selected_has_path(files@, *filter, newpend[k].path()) && !fate.dom().contains(
                    newpend[k].content(),
                ) by {
                    let k2 = choose|k2: int|
                        0 <= k2 < adv.len() && (#[trigger] adv[k2]).path() == newpend[k].path()
                            && adv[k2].content() == newpend[k].content()
                            && adv[k2].hasher.len_hashed == newpend[k].hasher.len_hashed;
                    assert(selected_has_path(files@, *filter, adv[k2].path()));
                    assert(adv[k2].hasher.len_hashed == vstd::math::min(
                        before[k2].hasher.len_hashed + MIN_TO_READ,
                        before[k2].size() as int,
                    ));
                    assert(!newpend[k].hasher.done());
                    assert(newpend[k].hasher.len_hashed < newpend[k].size());
                    assert(adv[k2].hasher.len_hashed as int == roundlen + MIN_TO_READ as int);
                    assert(tasks_content(newpend, newpend[k].content()));
                    assert(!prev_fate.dom().contains(before[k2].content()));
                }
                // every selected file is still pending or now recorded
                // under its fated digest
                assert forall|s: int| 0 <= s < sel.len() implies tasks_have_pc(
                    newpend,
                    (#[trigger] sel[s]).path@,
                    sel[s].bytes@,
                ) || (fate.dom().contains(sel[s].bytes@) && result.path_in_group(
                    sel[s].bytes@.len() as u64,
                    fate[sel[s].bytes@],
                    sel[s].path@,
                )) by {
                    let p = sel[s].path@;
                    let c = sel[s].bytes@;
                    if tasks_have_pc(before, p, c) {
                        let k = choose|k: int|
                            0 <= k < before.len() && (#[trigger] before[k]).path() == p
                                && before[k].content() == c;
                        assert(adv[k].path() == p && adv[k].content() == c);
                        assert(adv[k].size() == c.len() as u64);
                        assert(adv[k].hasher.len_hashed == vstd::math::min(
                            roundlen + MIN_TO_READ as int,
                            c.len() as int,
                        ));
                        assert(adv[k].cur_digest() == round_digest(c, roundlen));
                        if tasks_have_pc(newpend, p, c) {
                            assert(tasks_content(newpend, c));
                            assert(!fate.dom().contains(c));
                        } else {
                            // the task was finalized; show no returned task
                            // carries this content at all
                            assert forall|kc: int|
                                0 <= kc < newpend.len() implies (#[trigger] newpend[kc]).content()
                                != c by {
                                if newpend[kc].content() == c {
                                    let k2 = choose|k2: int|
                                        0 <= k2 < adv.len() && (#[trigger] adv[k2]).path()
                                            == newpend[kc].path() && adv[k2].content()
                                            == newpend[kc].content()
                                            && adv[k2].hasher.len_hashed
                                            == newpend[kc].hasher.len_hashed;
                                    assert(!newpend[kc].hasher.done());
                                    assert(adv[k2].size() == newpend[kc].size());
                                    assert(!adv[k2].hasher.done());
                                    if adv[k2].path() == p {
                                        assert(tasks_have_pc(newpend, p, c));
                                    } else {
                                        assert(!adv[k].hasher.done());
                                        assert(tasks_have(
                                            newpend,
                                            adv[k].path(),
                                            adv[k].content(),
                                            adv[k].hasher.len_hashed,
                                        ));
                                        assert(tasks_have_pc(newpend, p, c));
                                    }
                                }
                            }
                            assert(!tasks_content(newpend, c));
                            assert(tasks_content(adv, c));
                            assert(fate.dom().contains(c));
                            assert(fate[c] == round_digest(c, roundlen));
                            assert(result.path_in_group(adv[k].size(), adv[k].cur_digest(), p));
                        }
                    } else {
                        assert(prev_fate.dom().contains(c) && prev_result.path_in_group(
                            c.len() as u64,
                            prev_fate[c],
                            p,
                        ));
                        assert forall|kc: int|
                            0 <= kc < adv.len() implies (#[trigger] adv[kc]).content() != c by {
                            if adv[kc].content() == c {
                                assert(before[kc].content() == c);
                                assert(!prev_fate.dom().contains(before[kc].content()));
                            }
                        }
                        assert(!tasks_content(adv, c));
                        assert(fate.dom().contains(c) && fate[c] == prev_fate[c]);
                        assert(result.path_in_group(c.len() as u64, fate[c], p));
                    }
                }
                // fated digests are prefix digests
                assert forall|c: Seq<u8>| #[trigger] fate.dom().contains(c) implies
                    is_prefix_digest(c, fate[c]) by {
                    if prev_fate.dom().contains(c) {
                        assert(fate[c] == prev_fate[c]);
                    } else {
                        assert(fate[c] == round_digest(c, roundlen));
                        let n = vstd::math::min(roundlen + MIN_TO_READ as int, c.len() as int);
                        assert(0 <= n <= c.len() && fate[c] == blake3_digest(c.take(n)));
                    }
                }
                // soundness of additions
                assert forall|p: Seq<char>| #[trigger] result.contains_path(p) implies
                    selected_has_path(files@, *filter, p) by {
                    if !prev_result.contains_path(p) {
                        let k = choose|k: int|
                            0 <= k < adv.len() && (#[trigger] adv[k]).path() == p;
                        assert(selected_has_path(files@, *filter, adv[k].path()));
                    }
                }
                assert forall|s: int|
                    0 <= s < sel.len() implies path_count(
                    result.groups@,
                    (#[trigger] sel[s]).path@,
                ) + tcount(pending@, sel[s].path@) == 1 by {
                    let p = sel[s].path@;
                    assert(path_count(prev_result.groups@, p) + tcount(before, p) == 1);
                    assert(path_count(result.groups@, p) == path_count(prev_result.groups@, p)
                        + tcount(adv, p) - tcount(newpend, p));
                    lemma_tcount_pointwise(before, adv, p);
                    assert(newpend == pending@);
                }
                roundlen = roundlen + MIN_TO_READ as int;
                assert((MIN_TO_READ as int) * (u64::MAX - fuel) == (MIN_TO_READ as int) * (u64::MAX
                    - oldfuel) + MIN_TO_READ as int) by (nonlinear_arith)
                    requires fuel == oldfuel - 1;
            }
        }
        proof {
            if pending@.len() > 0 {
                assert(fuel == 0);
                assert(roundlen == (MIN_TO_READ as int) * (u64::MAX as int));
                assert((MIN_TO_READ as int) * (u64::MAX as int) > u64::MAX as int)
                    by (nonlinear_arith);
                assert(pending@[0].hasher.len_hashed as int == roundlen);
                assert(pending@[0].hasher.len_hashed <= u64::MAX);
                assert(false);
            }
            assert forall|s: int| 0 <= s < sel.len() implies result.contains_path(
                (#[trigger] sel[s]).path@,
            ) && keyed_by_prefix(result, sel[s]) by {
                assert(!tasks_have_pc(pending@, sel[s].path@, sel[s].bytes@));
                let c = sel[s].bytes@;
                assert(result.path_in_group(c.len() as u64, fate[c], sel[s].path@));
                crate::duplicates::lemma_path_in_group_contains(
                    result,
                    c.len() as u64,
                    fate[c],
                    sel[s].path@,
                );
                let n = choose|n: int| 0 <= n <= c.len() && fate[c] == blake3_digest(c.take(n));
                assert(result.path_in_group(
                    c.len() as u64,
                    blake3_digest(c.take(n)),
                    sel[s].path@,
                ));
            }
            assert forall|s: int|
                0 <= s < sel.len() implies path_count(result.groups@, (#[trigger] sel[s]).path@)
                == 1 by {
                assert(tcount(pending@, sel[s].path@) == 0);
            }
            assert forall|p: Seq<char>| #![trigger path_count(result.groups@, p)]
                !selected_has_path(files@, *filter, p) implies path_count(result.groups@, p)
                == 0 by {
                lemma_path_count_bounds(result.groups@, p);
                if path_count(result.groups@, p) != 0 {
                    let i = choose|i: int|
                        0 <= i < result.groups@.len() && crate::duplicates::group_has_path(
                            #[trigger] result.groups@[i],
                            p,
                        );
                    assert(result.contains_path(p));
                }
            }
            assert forall|s1: int, s2: int|
                0 <= s1 < sel.len() && 0 <= s2 < sel.len() && (#[trigger] sel[s1]).bytes@
                    == (#[trigger] sel[s2]).bytes@ implies result.grouped_together(
                sel[s1].path@,
                sel[s2].path@,
            ) by {
                let c = sel[s1].bytes@;
                assert(!tasks_have_pc(pending@, sel[s1].path@, c));
                assert(!tasks_have_pc(pending@, sel[s2].path@, c));
                assert(result.path_in_group(c.len() as u64, fate[c], sel[s1].path@));
                assert(result.path_in_group(c.len() as u64, fate[c], sel[s2].path@));
                crate::duplicates::lemma_same_key_grouped(
                    result,
                    c.len() as u64,
                    fate[c],
                    sel[s1].path@,
                    sel[s2].path@,
                );
            }
        }
        result
    }
}

/// Two files reported in one group have the same size, and the digest of
/// some prefix of the one's content equals the digest of some prefix of
/// the other's.  Since the digest function is collision-resistant, files
/// grouped together are byte-identical in the prefixes the engine read,
/// unless the digest collides; the hypotheses are exactly what
/// [`Deduper::find`] ensures of two selected files.
pub proof fn lemma_grouped_share_prefix_digest(r: DeduperResult, f1: SourceFile, f2: SourceFile)
    requires
        r.wf(),
        f1.bytes@.len() <= u64::MAX,
        f2.bytes@.len() <= u64::MAX,
        path_count(r.groups@, f1.path@) == 1,
        keyed_by_prefix(r, f1),
        keyed_by_prefix(r, f2),
        path_count(r.groups@, f2.path@) == 1,
        r.grouped_together(f1.path@, f2.path@),
    ensures
        f1.bytes@.len() == f2.bytes@.len(),
        exists|n1: int, n2: int|
            0 <= n1 <= f1.bytes@.len() && 0 <= n2 <= f2.bytes@.len() && blake3_digest(
                #[trigger] f1.bytes@.take(n1),
            ) == blake3_digest(#[trigger] f2.bytes@.take(n2)),
{
    let g = choose|g: int|
        0 <= g < r.groups@.len() && crate::duplicates::group_has_path(
            #[trigger] r.groups@[g],
            f1.path@,
        ) && crate::duplicates::group_has_path(r.groups@[g], f2.path@);
    let n1 = choose|n: int|
        0 <= n <= f1.bytes@.len() && r.path_in_group(
            f1.bytes@.len() as u64,
            blake3_digest(f1.bytes@.take(n)),
            f1.path@,
        );
    let n2 = choose|n: int|
        0 <= n <= f2.bytes@.len() && r.path_in_group(
            f2.bytes@.len() as u64,
            blake3_digest(f2.bytes@.take(n)),
            f2.path@,
        );
    let d1 = blake3_digest(f1.bytes@.take(n1));
    let d2 = blake3_digest(f2.bytes@.take(n2));
    crate::duplicates::lemma_key_index(r.groups@, f1.bytes@.len() as u64, d1);
    crate::duplicates::lemma_key_index(r.groups@, f2.bytes@.len() as u64, d2);
    let g1 = crate::duplicates::key_index(r.groups@, f1.bytes@.len() as u64, d1);
    let g2 = crate::duplicates::key_index(r.groups@, f2.bytes@.len() as u64, d2);
    if g1 != g {
        if g1 < g {
            crate::duplicates::lemma_path_count_two_groups(r.groups@, g1, g, f1.path@);
        } else {
            crate::duplicates::lemma_path_count_two_groups(r.groups@, g, g1, f1.path@);
        }
    }
    if g2 != g {
        if g2 < g {
            crate::duplicates::lemma_path_count_two_groups(r.groups@, g2, g, f2.path@);
        } else {
            crate::duplicates::lemma_path_count_two_groups(r.groups@, g, g2, f2.path@);
        }
    }
    assert(r.groups@[g].has_key(f1.bytes@.len() as u64, d1));
    assert(r.groups@[g].has_key(f2.bytes@.len() as u64, d2));
    assert(d1 == d2);
    assert(f1.bytes@.len() as u64 == f2.bytes@.len() as u64);
    assert(0 <= n1 <= f1.bytes@.len() && 0 <= n2 <= f2.bytes@.len() && blake3_digest(
        f1.bytes@.take(n1),
    ) == blake3_digest(f2.bytes@.take(n2)));
}

/// How many of the selected files from index `from` on have no fresh row
/// in the store `m`: the files a cached discovery must hash.
pub open spec fn stale_count_from(
    sel: Seq<SourceFile>,
    m: Map<Seq<char>, (i64, u64, Seq<u8>)>,
    from: int,
) -> int
    decreases sel.len() - from,
{
    if from < 0 || from >= sel.len() {
        0
    } else {
        (if cache_fresh(m, sel[from].path@, sel[from].mtime) {
            0int
        } else {
            1
        }) + stale_count_from(sel, m, from + 1)
    }
}

/// The stale count lies between zero and the number of files it ranges
/// over, and it is zero exactly when every file it ranges over is fresh.
pub proof fn lemma_stale_count_bounds(
    sel: Seq<SourceFile>,
    m: Map<Seq<char>, (i64, u64, Seq<u8>)>,
    from: int,
)
    requires
        0 <= from <= sel.len(),
    ensures
        0 <= stale_count_from(sel, m, from) <= sel.len() - from,
        stale_count_from(sel, m, from) == 0 <==> forall|s: int|
            from <= s < sel.len() ==> cache_fresh(m, (#[trigger] sel[s]).path@, sel[s].mtime),
    decreases sel.len() - from,
{
    if from < sel.len() {
        lemma_stale_count_bounds(sel, m, from + 1);
    }
}

/// Whether the rows of `m1` and `m2` for path `p` agree.
pub open spec fn row_same(
    m1: Map<Seq<char>, (i64, u64, Seq<u8>)>,
    m2: Map<Seq<char>, (i64, u64, Seq<u8>)>,
    p: Seq<char>,
) -> bool {
    &&& m1.dom().contains(p) == m2.dom().contains(p)
    &&& m1.dom().contains(p) ==> m1[p] == m2[p]
}

impl Deduper {
    /// Find duplicated files among an in-memory tree of files, consulting
    /// the hash cache: a file whose stored row is fresh contributes its
    /// stored size and digest without being hashed; any other file is
    /// hashed in full and its row is written back.  The returned count
    /// says how many files were hashed; with every row fresh it is zero.
    /// The selected paths must be distinct, as the paths of a walked tree
    /// are.
    #[verifier::rlimit(100)]
    #[verifier::loop_isolation(false)]
    pub fn find_cached<F: DeduperFileFilter, H: DeduperFindHook>(
        &self,
        files: &Vec<SourceFile>,
        filter: &F,
        hook: &H,
        db: &mut HashDb,
    ) -> (r: Result<(DeduperResult, usize), DbError>)
        requires
            forall|s1: int, s2: int|
                0 <= s1 < s2 < selected_files(files@, *filter).len()
                    ==> (#[trigger] selected_files(files@, *filter)[s1]).path@
                    != (#[trigger] selected_files(files@, *filter)[s2]).path@,
        ensures
            r matches Ok(t) ==> ({
                let sel = selected_files(files@, *filter);
                let m0 = old(db)@;
                &&& t.0.wf()
                &&& t.0.partial == walk_stopped(files@, *filter)
                &&& forall|p: Seq<char>|
                    #[trigger] t.0.contains_path(p) ==> selected_has_path(files@, *filter, p)
                &&& forall|s: int|
                    0 <= s < sel.len() && cache_fresh(m0, (#[trigger] sel[s]).path@, sel[s].mtime)
                        ==> t.0.path_in_group(m0[sel[s].path@].1, m0[sel[s].path@].2, sel[s].path@)
                        && row_same(final(db)@, m0, sel[s].path@)
                &&& forall|s: int|
                    0 <= s < sel.len() && !cache_fresh(m0, (#[trigger] sel[s]).path@, sel[s].mtime)
                        ==> t.0.path_in_group(
                        sel[s].bytes@.len() as u64,
                        blake3_digest(sel[s].bytes@),
                        sel[s].path@,
                    ) && final(db)@.dom().contains(sel[s].path@)
                        && final(db)@[sel[s].path@] == (
                        sel[s].mtime,
                        sel[s].bytes@.len() as u64,
                        blake3_digest(sel[s].bytes@),
                    )
                &&& (forall|s: int|
                    0 <= s < sel.len() ==> cache_fresh(
                        m0,
                        (#[trigger] sel[s]).path@,
                        sel[s].mtime,
                    )) ==> t.1 == 0
                &&& t.1 == stale_count_from(sel, m0, 0)
                &&& forall|s: int|
                    0 <= s < sel.len() && !cache_fresh(m0, (#[trigger] sel[s]).path@, sel[s].mtime)
                        ==> final(db)@[sel[s].path@].2.len() == DIGEST_LEN
                &&& forall|s: int|
                    0 <= s < sel.len() ==> path_count(
                        t.0.groups@,
                        (#[trigger] sel[s]).path@,
                    ) == 1
                &&& forall|p: Seq<char>| #![trigger path_count(t.0.groups@, p)]
                    !selected_has_path(files@, *filter, p) ==> path_count(t.0.groups@, p) == 0
            }),
            selected_files(files@, *filter).len() == 0 ==> r is Ok,
            forall|p: Seq<char>|
                !#[trigger] selected_has_path(files@, *filter, p) ==> row_same(
                    final(db)@,
                    old(db)@,
                    p,
                ),
            r is Err ==> forall|s: int|
                0 <= s < selected_files(files@, *filter).len() ==> row_same(
                    final(db)@,
                    old(db)@,
                    (#[trigger] selected_files(files@, *filter)[s]).path@,
                ) || (final(db)@.dom().contains(selected_files(files@, *filter)[s].path@)
                    && final(db)@[selected_files(files@, *filter)[s].path@] == (
                    selected_files(files@, *filter)[s].mtime,
                    selected_files(files@, *filter)[s].bytes@.len() as u64,
                    blake3_digest(selected_files(files@, *filter)[s].bytes@),
                )),
    {
        let ghost sel = selected_files(files@, *filter);
        let ghost m0 = db@;
        let (tasks, stopped) = collect_files(files, filter);
        hook.files_selected(tasks.len());
        let mut result = DeduperResult::new();
        if stopped {
            result.set_partial();
        }
        let mut nhashed: usize = 0;
        let mut rest = tasks;
        proof {
            assert forall|k1: int, k2: int| 0 <= k1 < k2 < rest@.len() implies (
            #[trigger] rest@[k1]).path() != (#[trigger] rest@[k2]).path() by {
                assert(rest@[k1].path() == sel[k1].path@ && rest@[k2].path() == sel[k2].path@);
            }
            assert(result.groups@ =~= Seq::<crate::duplicates::HashGroup>::empty());
            assert(forall|p: Seq<char>|
                #[trigger] path_count(Seq::<crate::duplicates::HashGroup>::empty(), p) == 0);
            lemma_stale_count_bounds(sel, m0, rest@.len() as int);
        }
        while rest.len() > 0
            invariant
                rest@.len() <= sel.len(),
                result.wf(),
                result.partial == walk_stopped(files@, *filter),
                forall|k: int|
                    0 <= k < rest@.len() ==> {
                        let t = #[trigger] rest@[k];
                        &&& t.wf()
                        &&& t.path() == sel[k].path@
                        &&& t.content() == sel[k].bytes@
                        &&& t.hasher.file_path.mtime == sel[k].mtime
                    },
                forall|k1: int, k2: int|
                    0 <= k1 < k2 < sel.len() ==> (#[trigger] sel[k1]).path@
                        != (#[trigger] sel[k2]).path@,
                forall|s: int|
                    rest@.len() <= s < sel.len() && cache_fresh(
                        m0,
                        (#[trigger] sel[s]).path@,
                        sel[s].mtime,
                    ) ==> result.path_in_group(m0[sel[s].path@].1, m0[sel[s].path@].2, sel[s].path@)
                        && row_same(db@, m0, sel[s].path@),
                forall|s: int|
                    rest@.len() <= s < sel.len() && !cache_fresh(
                        m0,
                        (#[trigger] sel[s]).path@,
                        sel[s].mtime,
                    ) ==> result.path_in_group(
                        sel[s].bytes@.len() as u64,
                        blake3_digest(sel[s].bytes@),
                        sel[s].path@,
                    ) && db@.dom().contains(sel[s].path@) && db@[sel[s].path@] == (
                        sel[s].mtime,
                        sel[s].bytes@.len() as u64,
                        blake3_digest(sel[s].bytes@),
                    ) && db@[sel[s].path@].2.len() == DIGEST_LEN,
                forall|s: int|
                    0 <= s < rest@.len() ==> row_same(db@, m0, (#[trigger] sel[s]).path@),
                forall|p: Seq<char>|
                    !#[trigger] selected_has_path(files@, *filter, p) ==> row_same(
                        db@,
                        m0,
                        p,
                    ),
                forall|s: int|
                    rest@.len() <= s < sel.len() ==> path_count(
                        result.groups@,
                        (#[trigger] sel[s]).path@,
                    ) == 1,
                forall|s: int|
                    0 <= s < rest@.len() ==> path_count(
                        result.groups@,
                        (#[trigger] sel[s]).path@,
                    ) == 0,
                nhashed == stale_count_from(sel, m0, rest@.len() as int),
                forall|p: Seq<char>|
                    #[trigger] result.contains_path(p) ==> selected_has_path(files@, *filter, p),
            decreases rest@.len(),
        {
            let ghost prevr = rest@;
            let ghost prev_result = result;
            let ghost prev_model = db@;
            let t = rest.pop().unwrap();
            let ghost s0 = rest@.len() as int;
            proof {
                assert(t == prevr[s0]);
                assert(t.path() == sel[s0].path@ && t.content() == sel[s0].bytes@
                    && t.hasher.file_path.mtime == sel[s0].mtime);
                assert(row_same(prev_model, m0, sel[s0].path@));
            }
            let path = t.hasher.file_path.path.clone();
            let mtime = t.hasher.file_path.mtime;
            let stepped = cached_hash(db, path.as_str(), mtime, &t.bytes);
            let (size, digest, hashed) = match stepped {
                Ok(v) => v,
                Err(e) => {
                    proof {
                        assert forall|s: int| 0 <= s < sel.len() implies row_same(
                            db@,
                            m0,
                            (#[trigger] sel[s]).path@,
                        ) || (db@.dom().contains(sel[s].path@) && db@[sel[s].path@]
                            == (
                            sel[s].mtime,
                            sel[s].bytes@.len() as u64,
                            blake3_digest(sel[s].bytes@),
                        )) by {
                            if s <= s0 {
                                assert(row_same(prev_model, m0, sel[s].path@));
                            }
                        }
                    }
                    return Err(e);
                },
            };
            if hashed {
                proof {
                    lemma_stale_count_bounds(sel, m0, s0 + 1);
                    assert(sel.len() <= usize::MAX);
                }
                nhashed = nhashed + 1;
            }
            let entry = crate::file::FileEntry::new(path, size);
            hook.entry_processed(&digest, &entry);
            result.add_entry(digest, entry);
            proof {
                let p = sel[s0].path@;
                let c = sel[s0].bytes@;
                assert(cache_fresh(prev_model, p, mtime) == cache_fresh(m0, p, mtime));
                if cache_fresh(m0, p, mtime) {
                    assert(size == m0[p].1 && digest@ == m0[p].2);
                    assert(db@ == prev_model);
                } else {
                    assert(size == c.len() as u64 && digest@ == blake3_digest(c));
                    assert(db@ == prev_model.insert(p, (mtime, c.len() as u64,
                        blake3_digest(c))));
                }
                assert(result.path_in_group(size, digest@, p));
                assert forall|s: int|
                    s0 < s < sel.len() && cache_fresh(m0, (#[trigger] sel[s]).path@, sel[s].mtime)
                        implies result.path_in_group(
                    m0[sel[s].path@].1,
                    m0[sel[s].path@].2,
                    sel[s].path@,
                ) && row_same(db@, m0, sel[s].path@) by {
                    assert(sel[s].path@ != p);
                    assert(prev_result.path_in_group(m0[sel[s].path@].1, m0[sel[s].path@].2,
                        sel[s].path@));
                }
                assert forall|s: int|
                    s0 < s < sel.len() && !cache_fresh(m0, (#[trigger] sel[s]).path@, sel[s].mtime)
                        implies result.path_in_group(
                    sel[s].bytes@.len() as u64,
                    blake3_digest(sel[s].bytes@),
                    sel[s].path@,
                ) && db@.dom().contains(sel[s].path@) && db@[sel[s].path@] == (
                    sel[s].mtime,
                    sel[s].bytes@.len() as u64,
                    blake3_digest(sel[s].bytes@),
                ) by {
                    assert(sel[s].path@ != p);
                    assert(prev_result.path_in_group(sel[s].bytes@.len() as u64, blake3_digest(
                        sel[s].bytes@), sel[s].path@));
                }
                assert forall|s: int|
                    0 <= s < rest@.len() implies row_same(db@, m0, (#[trigger] sel[s]).path@) by {
                    assert(sel[s].path@ != p);
                    assert(row_same(prev_model, m0, sel[s].path@));
                }
                assert forall|p2: Seq<char>| #[trigger] result.contains_path(p2) implies
                    selected_has_path(files@, *filter, p2) by {
                    if !prev_result.contains_path(p2) {
                        assert(p2 == p);
                        assert(selected_has_path(files@, *filter, sel[s0].path@));
                    }
                }
                assert forall|p2: Seq<char>|
                    !#[trigger] selected_has_path(files@, *filter, p2) implies row_same(
                    db@,
                    m0,
                    p2,
                ) by {
                    assert(selected_has_path(files@, *filter, sel[s0].path@));
                    assert(p2 != p);
                    assert(row_same(prev_model, m0, p2));
                }
                assert forall|s: int|
                    s0 <= s < sel.len() implies path_count(
                    result.groups@,
                    (#[trigger] sel[s]).path@,
                ) == 1 by {
                    assert(path_count(result.groups@, sel[s].path@) == path_count(
                        prev_result.groups@,
                        sel[s].path@,
                    ) + (if sel[s].path@ == p {
                        1int
                    } else {
                        0
                    }));
                }
                assert forall|s: int|
                    0 <= s < rest@.len() implies path_count(
                    result.groups@,
                    (#[trigger] sel[s]).path@,
                ) == 0 by {
                    assert(sel[s].path@ != p);
                    assert(path_count(result.groups@, sel[s].path@) == path_count(
                        prev_result.groups@,
                        sel[s].path@,
                    ));
                }
                assert(hashed == !cache_fresh(m0, p, sel[s0].mtime));
                assert(stale_count_from(sel, m0, s0) == (if cache_fresh(m0, p, sel[s0].mtime) {
                    0int
                } else {
                    1
                }) + stale_count_from(sel, m0, s0 + 1));
            }
        }
        proof {
            lemma_stale_count_bounds(sel, m0, 0);
            assert forall|s: int| 0 <= s < sel.len() implies path_count(
                result.groups@,
                (#[trigger] sel[s]).path@,
            ) == 1 by {
            }
            assert forall|p: Seq<char>| #![trigger path_count(result.groups@, p)]
                !selected_has_path(files@, *filter, p) implies path_count(result.groups@, p)
                == 0 by {
                lemma_path_count_bounds(result.groups@, p);
                if path_count(result.groups@, p) != 0 {
                    let i = choose|i: int|
                        0 <= i < result.groups@.len() && crate::duplicates::group_has_path(
                            #[trigger] result.groups@[i],
                            p,
                        );
                    assert(result.contains_path(p));
                }
            }
        }
        Ok((result, nhashed))
    }
}

/// A builder for [`Deduper`].
pub struct DeduperBuilder {
    /// The configuration gathered so far.
    pub roots: Vec<String>,
    /// The lower size limit gathered so far.
    pub lower_limit: Option<u64>,
}

impl DeduperBuilder {
    /// Create a new instance of the builder with a list of roots.
    pub fn new(roots: Vec<String>) -> (r: DeduperBuilder)
        ensures
            r.roots@ == roots@,
            r.lower_limit is None,
    {
        DeduperBuilder { roots, lower_limit: None }
    }

    /// Record the lower file size limit, in bytes.  A driver builds its
    /// [`crate::ContentLimit`] filter from it; discovery reads only the
    /// filter it is handed.
    pub fn lower_limit(self, limit: u64) -> (r: DeduperBuilder)
        ensures
            r.roots@ == self.roots@,
            r.lower_limit == Some(limit),
    {
        DeduperBuilder { roots: self.roots, lower_limit: Some(limit) }
    }

    /// Build a [`Deduper`].
    pub fn build(self) -> (r: Deduper)
        ensures
            r.roots@ == self.roots@,
            r.lower_limit == self.lower_limit,
    {
        Deduper { roots: self.roots, lower_limit: self.lower_limit }
    }
}

} // verus!
