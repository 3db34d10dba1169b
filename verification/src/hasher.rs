//! Progressive hashing: one file's content hash, advanced one chunk per
//! call rather than in one go.
//!
//! The hasher records how many bytes it has absorbed; the caller supplies
//! the successive chunks of the file.  Files whose first chunks already
//! disagree need never be fully read.

use vstd::prelude::*;

use crate::digest::{absorbed, blake3_digest, bytes_equal, hasher_finalize, hasher_new, hasher_update, DIGEST_LEN};
use crate::file::{FileEntry, FilePath};

verus! {

/// How many bytes one `update` call absorbs at most: 16 MiB, chosen to
/// amortise the cost of reopening the file against early elimination on
/// large files.
pub const MIN_TO_READ: u64 = 16 * 1024 * 1024;

/// A hasher that hashes one file progressively.
pub struct ProgressiveHasher {
    /// The incremental hashing state.
    pub hasher: blake3::Hasher,
    /// The file being hashed chunk by chunk.
    pub file_path: FilePath,
    /// How many bytes of the file were hashed so far.
    pub len_hashed: u64,
    /// The full content of the file, of which `len_hashed` bytes have been
    /// absorbed so far.
    pub content: Ghost<Seq<u8>>,
}

impl ProgressiveHasher {
    /// The hashing state has absorbed exactly the first `len_hashed` bytes
    /// of the file's content, whose length the metadata size reports.
    pub open spec fn wf(self) -> bool {
        &&& self.content@.len() == self.file_path.size
        &&& self.len_hashed <= self.file_path.size
        &&& absorbed(self.hasher) == self.content@.take(self.len_hashed as int)
    }

    /// Whether the whole content has been absorbed.
    pub open spec fn done(self) -> bool {
        self.len_hashed == self.file_path.size
    }

    /// Create a new instance for a given [`FilePath`], whose content the
    /// ghost argument names.
    pub fn new(file_path: FilePath, content: Ghost<Seq<u8>>) -> (r: ProgressiveHasher)
        requires
            content@.len() == file_path.size,
        ensures
            r.wf(),
            r.file_path == file_path,
            r.len_hashed == 0,
            r.content == content,
    {
        let h = hasher_new();
        proof {
            assert(content@.take(0) =~= Seq::<u8>::empty());
        }
        ProgressiveHasher { hasher: h, file_path, len_hashed: 0, content }
    }

    /// Get the inner file path.
    pub fn file_path(&self) -> (r: &FilePath)
        ensures
            r == self.file_path,
    {
        &self.file_path
    }

    /// How many bytes the next `update` call must supply: a full chunk, or
    /// whatever remains of the file if that is less.
    pub fn next_chunk_len(&self) -> (r: u64)
        requires
            self.wf(),
        ensures
            r == vstd::math::min(MIN_TO_READ as int, self.file_path.size - self.len_hashed),
    {
        let leftover = self.file_path.size - self.len_hashed;
        if leftover < MIN_TO_READ {
            leftover
        } else {
            MIN_TO_READ
        }
    }

    /// Absorb the next chunk of the file.  The chunk must be the content's
    /// bytes starting at `len_hashed`.
    pub fn update(&mut self, chunk: &[u8])
        requires
            old(self).wf(),
            old(self).len_hashed + chunk@.len() <= old(self).file_path.size,
            chunk@ == old(self).content@.subrange(
                old(self).len_hashed as int,
                old(self).len_hashed + chunk@.len(),
            ),
        ensures
            final(self).wf(),
            final(self).file_path == old(self).file_path,
            final(self).content == old(self).content,
            final(self).len_hashed == old(self).len_hashed + chunk@.len(),
    {
        hasher_update(&mut self.hasher, chunk);
        proof {
            assert(self.content@.take(self.len_hashed + chunk@.len() as int) =~= self.content@.take(
                self.len_hashed as int,
            ) + chunk@);
        }
        self.len_hashed = self.len_hashed + chunk.len() as u64;
    }

    /// The digest of the bytes absorbed so far, and whether the hasher
    /// finished hashing the entire content.  When it has, the digest is the
    /// digest of the file's full content.
    pub fn current_hash(&self) -> (r: (Vec<u8>, bool))
        requires
            self.wf(),
        ensures
            r.0@ == blake3_digest(self.content@.take(self.len_hashed as int)),
            r.0@.len() == DIGEST_LEN,
            r.1 == self.done(),
            self.done() ==> r.0@ == blake3_digest(self.content@),
    {
        let hash = hasher_finalize(&self.hasher);
        let done = self.len_hashed == self.file_path.size;
        proof {
            if self.done() {
                assert(self.content@.take(self.len_hashed as int) =~= self.content@);
            }
        }
        (hash, done)
    }

    /// Convert the inner file path into a [`FileEntry`].
    pub fn to_file_entry(&self) -> (r: FileEntry)
        ensures
            r.path@ == self.file_path.path@,
            r.size == self.file_path.size,
    {
        self.file_path.to_file_entry()
    }
}

/// One unit of in-memory hashing work: a progressive hasher together with
/// the content it is hashing, so that the next chunk can be read out of
/// memory exactly as the disk-backed driver reads it out of the file.
pub struct MemTask {
    /// The hasher for this file.
    pub hasher: ProgressiveHasher,
    /// The full content of the file.
    pub bytes: Vec<u8>,
}

impl MemTask {
    /// The hasher is well formed and is hashing exactly these bytes.
    pub open spec fn wf(self) -> bool {
        &&& self.hasher.wf()
        &&& self.bytes@ == self.hasher.content@
    }

    /// The path of the file.
    pub open spec fn path(self) -> Seq<char> {
        self.hasher.file_path.path@
    }

    /// The content of the file.
    pub open spec fn content(self) -> Seq<u8> {
        self.hasher.content@
    }

    /// The size of the file.
    pub open spec fn size(self) -> u64 {
        self.hasher.file_path.size
    }

    /// The digest of the bytes hashed so far.
    pub open spec fn cur_digest(self) -> Seq<u8> {
        blake3_digest(self.content().take(self.hasher.len_hashed as int))
    }
}

/// One bucket of a round: the unfinished hashers whose bytes so far share
/// this digest.
pub struct Bucket {
    /// The digest shared by every task in the bucket.
    pub digest: Vec<u8>,
    /// The tasks, in insertion order.
    pub tasks: Vec<MemTask>,
}

/// The index of the bucket keyed `d` in `bs`, or -1 if none is.
pub open spec fn bucket_index(bs: Seq<Bucket>, d: Seq<u8>) -> int
    decreases bs.len(),
{
    if bs.len() == 0 {
        -1
    } else if bs[0].digest@ == d {
        0
    } else {
        let rest = bucket_index(bs.drop_first(), d);
        if rest == -1 {
            -1
        } else {
            rest + 1
        }
    }
}

/// `bucket_index` reports -1 exactly when no bucket has the digest;
/// otherwise it is the index of the first bucket that has it.
pub proof fn lemma_bucket_index(bs: Seq<Bucket>, d: Seq<u8>)
    ensures
        bucket_index(bs, d) == -1 ==> forall|i: int|
            0 <= i < bs.len() ==> (#[trigger] bs[i]).digest@ != d,
        bucket_index(bs, d) != -1 ==> ({
            let bi = bucket_index(bs, d);
            &&& 0 <= bi < bs.len()
            &&& bs[bi].digest@ == d
            &&& forall|k: int| 0 <= k < bi ==> (#[trigger] bs[k]).digest@ != d
        }),
    decreases bs.len(),
{
    if bs.len() > 0 {
        let rest = bs.drop_first();
        lemma_bucket_index(rest, d);
        assert(forall|k: int| 1 <= k < bs.len() ==> bs[k] == #[trigger] rest[k - 1]);
        if bs[0].digest@ != d {
            let rbi = bucket_index(rest, d);
            if rbi == -1 {
                assert forall|i: int| 0 <= i < bs.len() implies (#[trigger] bs[i]).digest@ != d by {
                    if i >= 1 {
                        assert(rest[i - 1].digest@ != d);
                    }
                }
            } else {
                assert(bs[rbi + 1] == rest[rbi]);
                assert forall|k: int| 0 <= k < rbi + 1 implies (#[trigger] bs[k]).digest@ != d by {
                    if k >= 1 {
                        assert(rest[k - 1].digest@ != d);
                    }
                }
            }
        }
    }
}

/// If `i` is the first index whose bucket has the digest, `bucket_index`
/// finds it.
pub proof fn lemma_bucket_index_at_first(bs: Seq<Bucket>, d: Seq<u8>, i: int)
    requires
        0 <= i < bs.len(),
        bs[i].digest@ == d,
        forall|k: int| 0 <= k < i ==> (#[trigger] bs[k]).digest@ != d,
    ensures
        bucket_index(bs, d) == i,
{
    lemma_bucket_index(bs, d);
}

/// Two bucket sequences whose digests agree pointwise agree on every
/// digest query.
pub proof fn lemma_bucket_index_same_digests(b1: Seq<Bucket>, b2: Seq<Bucket>, d: Seq<u8>)
    requires
        b1.len() == b2.len(),
        forall|i: int| 0 <= i < b1.len() ==> (#[trigger] b1[i]).digest@ == b2[i].digest@,
    ensures
        bucket_index(b1, d) == bucket_index(b2, d),
    decreases b1.len(),
{
    if b1.len() > 0 {
        lemma_bucket_index_same_digests(b1.drop_first(), b2.drop_first(), d);
        assert(forall|k: int| 1 <= k < b1.len() ==> b1[k] == #[trigger] b1.drop_first()[k - 1]);
        assert(forall|k: int| 1 <= k < b2.len() ==> b2[k] == #[trigger] b2.drop_first()[k - 1]);
    }
}

/// Appending a bucket does not move the digests that were already present,
/// and a fresh digest lands at the end.
pub proof fn lemma_bucket_index_push(bs: Seq<Bucket>, b: Bucket, d: Seq<u8>)
    ensures
        bucket_index(bs, d) != -1 ==> bucket_index(bs.push(b), d) == bucket_index(bs, d),
        bucket_index(bs, d) == -1 && b.digest@ == d ==> bucket_index(bs.push(b), d) == bs.len(),
        bucket_index(bs, d) == -1 && b.digest@ != d ==> bucket_index(bs.push(b), d) == -1,
{
    lemma_bucket_index(bs, d);
    let pushed = bs.push(b);
    assert(forall|k: int| 0 <= k < bs.len() ==> pushed[k] == #[trigger] bs[k]);
    if bucket_index(bs, d) != -1 {
        lemma_bucket_index_at_first(pushed, d, bucket_index(bs, d));
    } else if b.digest@ == d {
        lemma_bucket_index_at_first(pushed, d, bs.len() as int);
    } else {
        lemma_bucket_index(pushed, d);
        if bucket_index(pushed, d) != -1 {
            assert(pushed[bucket_index(pushed, d)].digest@ == d);
        }
    }
}

/// Whether the bucket keyed `d` holds a task for the file `(p, c)`.
pub open spec fn in_buckets(bs: Seq<Bucket>, d: Seq<u8>, p: Seq<char>, c: Seq<u8>) -> bool {
    let b = bucket_index(bs, d);
    &&& b != -1
    &&& exists|j: int|
        0 <= j < bs[b].tasks@.len() && (#[trigger] bs[b].tasks@[j]).path() == p
            && bs[b].tasks@[j].content() == c
}

/// Whether `ts` holds a task equal to `t`.
pub open spec fn tasks_contain(ts: Seq<MemTask>, t: MemTask) -> bool {
    exists|k: int| 0 <= k < ts.len() && ts[k] == t
}

/// Whether `t` stands alone in one of the buckets.
pub open spec fn in_singleton_bucket(bs: Seq<Bucket>, t: MemTask) -> bool {
    exists|b: int|
        0 <= b < bs.len() && (#[trigger] bs[b]).tasks@.len() == 1 && bs[b].tasks@[0] == t
}

/// Whether `t` stands in a bucket that holds two or more tasks.
pub open spec fn in_multi_bucket(bs: Seq<Bucket>, t: MemTask) -> bool {
    exists|b: int, j: int|
        0 <= b < bs.len() && bs[b].tasks@.len() >= 2 && 0 <= j < bs[b].tasks@.len()
            && (#[trigger] bs[b].tasks@[j]) == t
}

/// Whether some bucket holds a task equal to `t`.
pub open spec fn bucket_tasks_contain(bs: Seq<Bucket>, t: MemTask) -> bool {
    exists|b: int, j: int|
        0 <= b < bs.len() && 0 <= j < bs[b].tasks@.len() && (#[trigger] bs[b].tasks@[j]) == t
}

/// How many tasks of `ts` carry the path `p`.
pub open spec fn tcount(ts: Seq<MemTask>, p: Seq<char>) -> int
    decreases ts.len(),
{
    if ts.len() == 0 {
        0
    } else {
        tcount(ts.drop_last(), p) + if ts.last().path() == p {
            1int
        } else {
            0
        }
    }
}

/// How many tasks across all buckets carry the path `p`.
pub open spec fn bcount(bs: Seq<Bucket>, p: Seq<char>) -> int
    decreases bs.len(),
{
    if bs.len() == 0 {
        0
    } else {
        bcount(bs.drop_last(), p) + tcount(bs.last().tasks@, p)
    }
}

/// Appending a task raises its path's count by one and no other.
pub proof fn lemma_tcount_push(ts: Seq<MemTask>, t: MemTask, p: Seq<char>)
    ensures
        tcount(ts.push(t), p) == tcount(ts, p) + if t.path() == p {
            1int
        } else {
            0
        },
{
    assert(ts.push(t).drop_last() =~= ts);
    assert(ts.push(t).last() == t);
}

/// One more element of a prefix adds that element's contribution.
pub proof fn lemma_tcount_take_succ(ts: Seq<MemTask>, k: int, p: Seq<char>)
    requires
        0 <= k < ts.len(),
    ensures
        tcount(ts.take(k + 1), p) == tcount(ts.take(k), p) + if ts[k].path() == p {
            1int
        } else {
            0
        },
{
    assert(ts.take(k + 1).drop_last() =~= ts.take(k));
    assert(ts.take(k + 1).last() == ts[k]);
}

/// Counts depend only on the tasks' paths.
pub proof fn lemma_tcount_pointwise(t1: Seq<MemTask>, t2: Seq<MemTask>, p: Seq<char>)
    requires
        t1.len() == t2.len(),
        forall|k: int| 0 <= k < t1.len() ==> (#[trigger] t1[k]).path() == t2[k].path(),
    ensures
        tcount(t1, p) == tcount(t2, p),
    decreases t1.len(),
{
    if t1.len() > 0 {
        lemma_tcount_pointwise(t1.drop_last(), t2.drop_last(), p);
        assert(forall|k: int| 0 <= k < t1.len() - 1 ==> t1[k] == #[trigger] t1.drop_last()[k]);
        assert(forall|k: int| 0 <= k < t2.len() - 1 ==> t2[k] == #[trigger] t2.drop_last()[k]);
        assert(t1.last().path() == t2.last().path());
    }
}

/// A path carried by exactly one task is counted exactly once.
pub proof fn lemma_tcount_unique(ts: Seq<MemTask>, p: Seq<char>, s: int)
    requires
        0 <= s < ts.len(),
        ts[s].path() == p,
        forall|k: int| 0 <= k < ts.len() && k != s ==> (#[trigger] ts[k]).path() != p,
    ensures
        tcount(ts, p) == 1,
    decreases ts.len(),
{
    lemma_tcount_bounds(ts.drop_last(), p);
    assert(forall|k: int| 0 <= k < ts.len() - 1 ==> ts[k] == #[trigger] ts.drop_last()[k]);
    if s == ts.len() - 1 {
        assert forall|k: int| 0 <= k < ts.drop_last().len() implies (
        #[trigger] ts.drop_last()[k]).path() != p by {
            assert(ts[k].path() != p);
        }
        lemma_tcount_bounds(ts.drop_last(), p);
        assert(tcount(ts.drop_last(), p) == 0);
    } else {
        lemma_tcount_unique(ts.drop_last(), p, s);
        assert(ts.last().path() != p);
    }
}

/// Counts never go negative, and a count of zero means no task carries the
/// path.
pub proof fn lemma_tcount_bounds(ts: Seq<MemTask>, p: Seq<char>)
    ensures
        0 <= tcount(ts, p),
        tcount(ts, p) == 0 <==> forall|k: int|
            0 <= k < ts.len() ==> (#[trigger] ts[k]).path() != p,
    decreases ts.len(),
{
    if ts.len() > 0 {
        lemma_tcount_bounds(ts.drop_last(), p);
        assert(forall|k: int| 0 <= k < ts.len() - 1 ==> ts[k] == #[trigger] ts.drop_last()[k]);
        if tcount(ts, p) == 0 {
            assert forall|k: int| 0 <= k < ts.len() implies (#[trigger] ts[k]).path() != p by {
                if k < ts.len() - 1 {
                    assert(ts.drop_last()[k].path() != p);
                }
            }
        } else {
            if forall|k: int| 0 <= k < ts.len() ==> (#[trigger] ts[k]).path() != p {
                assert forall|k: int|
                    0 <= k < ts.drop_last().len() implies (#[trigger] ts.drop_last()[k]).path()
                    != p by {
                    assert(ts.drop_last()[k] == ts[k]);
                }
                assert(tcount(ts.drop_last(), p) == 0);
                assert(ts.last().path() != p);
            }
        }
    }
}

/// Replacing one bucket changes the total count of a path by the difference
/// of that bucket's contribution.
pub proof fn lemma_bcount_update(bs: Seq<Bucket>, i: int, b: Bucket, p: Seq<char>)
    requires
        0 <= i < bs.len(),
    ensures
        bcount(bs.update(i, b), p) == bcount(bs, p) - tcount(bs[i].tasks@, p) + tcount(
            b.tasks@,
            p,
        ),
    decreases bs.len(),
{
    let upd = bs.update(i, b);
    if i == bs.len() - 1 {
        assert(upd.drop_last() =~= bs.drop_last());
        assert(upd.last() == b);
        assert(bs.last() == bs[i]);
    } else {
        assert(upd.drop_last() =~= bs.drop_last().update(i, b));
        assert(upd.last() == bs.last());
        lemma_bcount_update(bs.drop_last(), i, b, p);
        assert(bs.drop_last()[i] == bs[i]);
    }
}

/// Appending a bucket adds its contribution to the total count of a path.
pub proof fn lemma_bcount_push(bs: Seq<Bucket>, b: Bucket, p: Seq<char>)
    ensures
        bcount(bs.push(b), p) == bcount(bs, p) + tcount(b.tasks@, p),
{
    assert(bs.push(b).drop_last() =~= bs);
    assert(bs.push(b).last() == b);
}

/// One more bucket of a prefix adds that bucket's contribution.
pub proof fn lemma_bcount_take_succ(bs: Seq<Bucket>, k: int, p: Seq<char>)
    requires
        0 <= k < bs.len(),
    ensures
        bcount(bs.take(k + 1), p) == bcount(bs.take(k), p) + tcount(bs[k].tasks@, p),
{
    assert(bs.take(k + 1).drop_last() =~= bs.take(k));
    assert(bs.take(k + 1).last() == bs[k]);
}

/// Every bucket holds at least one well-formed, unfinished task whose
/// current digest is the bucket's, and no two buckets share a digest.
pub open spec fn buckets_wf(bs: Seq<Bucket>) -> bool {
    &&& forall|b: int, j: int|
        0 <= b < bs.len() && 0 <= j < bs[b].tasks@.len() ==> {
            let t = #[trigger] bs[b].tasks@[j];
            &&& t.wf()
            &&& !t.hasher.done()
            &&& t.cur_digest() == bs[b].digest@
        }
    &&& forall|b: int| 0 <= b < bs.len() ==> (#[trigger] bs[b]).tasks@.len() >= 1
    &&& forall|b1: int, b2: int|
        0 <= b1 < b2 < bs.len() ==> (#[trigger] bs[b1]).digest@ != (#[trigger] bs[b2]).digest@
}

/// A set of hashers, bucketed by the digest of what they have read so far.
pub struct HasherSet {
    /// The buckets, in the order their digests were first seen.
    pub buckets: Vec<Bucket>,
}

impl HasherSet {
    /// Create an empty set.
    pub fn new() -> (r: HasherSet)
        ensures
            r.buckets@.len() == 0,
            buckets_wf(r.buckets@),
    {
        HasherSet { buckets: Vec::new() }
    }

    /// Insert an unfinished hasher into the bucket of its current digest,
    /// opening a new bucket if no task read these bytes so far.  The task
    /// now stands in its digest's bucket, every prior task keeps its place,
    /// and nothing else is added.
    #[verifier::loop_isolation(false)]
    pub fn insert(&mut self, t: MemTask)
        requires
            buckets_wf(old(self).buckets@),
            t.wf(),
            !t.hasher.done(),
        ensures
            buckets_wf(final(self).buckets@),
            in_buckets(final(self).buckets@, t.cur_digest(), t.path(), t.content()),
            forall|d: Seq<u8>, p: Seq<char>, c: Seq<u8>|
                #[trigger] in_buckets(old(self).buckets@, d, p, c) ==> in_buckets(
                    final(self).buckets@,
                    d,
                    p,
                    c,
                ),
            forall|b: int, j: int|
                0 <= b < final(self).buckets@.len() && 0 <= j < final(self).buckets@[b].tasks@.len()
                    ==> bucket_tasks_contain(
                    old(self).buckets@,
                    #[trigger] final(self).buckets@[b].tasks@[j],
                ) || final(self).buckets@[b].tasks@[j] == t,
            forall|p: Seq<char>| #![trigger bcount(final(self).buckets@, p)]
                bcount(final(self).buckets@, p) == bcount(old(self).buckets@, p) + (
                if p == t.path() {
                    1int
                } else {
                    0
                }),
    {
        let ghost tsnap = t;
        let ghost oldb = self.buckets@;
        let (d, _done) = t.hasher.current_hash();
        let n = self.buckets.len();
        let mut i: usize = 0;
        while i < n
            invariant
                n == self.buckets@.len(),
                i <= n,
                self.buckets@ == oldb,
                forall|k: int| 0 <= k < i ==> (#[trigger] self.buckets@[k]).digest@ != d@,
            decreases n - i,
        {
            if bytes_equal(self.buckets[i].digest.as_slice(), d.as_slice()) {
                proof {
                    lemma_bucket_index_at_first(oldb, d@, i as int);
                }
                let bkt = self.buckets.remove(i);
                let mut newtasks = bkt.tasks;
                newtasks.push(t);
                let nb = Bucket { digest: bkt.digest, tasks: newtasks };
                let ghost bkt2 = nb;
                self.buckets.insert(i, nb);
                proof {
                    let bi = i as int;
                    let newb = self.buckets@;
                    assert(bkt2.tasks@ == oldb[bi].tasks@.push(tsnap));
                    assert(bkt2.digest@ == oldb[bi].digest@);
                    oldb.remove_ensures(bi);
                    oldb.remove(bi).insert_ensures(bi, bkt2);
                    assert forall|k: int| 0 <= k < newb.len() implies #[trigger] newb[k]
                        == oldb.update(bi, bkt2)[k] by {
                        if k < bi {
                            assert(newb[k] == oldb.remove(bi)[k]);
                        } else if k > bi {
                            assert(newb[k] == oldb.remove(bi)[k - 1]);
                        }
                    }
                    assert(newb =~= oldb.update(bi, bkt2));
                    assert forall|dd: Seq<u8>| (#[trigger] bucket_index(newb, dd)) == bucket_index(
                        oldb,
                        dd,
                    ) by {
                        lemma_bucket_index_same_digests(oldb, newb, dd);
                    }
                    let na = oldb[bi].tasks@.len() as int;
                    assert(newb[bi].tasks@[na] == tsnap);
                    assert(bucket_index(newb, tsnap.cur_digest()) == bi);
                    assert(newb[bi].tasks@[na].path() == tsnap.path() && newb[bi].tasks@[na].content()
                        == tsnap.content());
                    assert(in_buckets(newb, tsnap.cur_digest(), tsnap.path(), tsnap.content()));
                    assert forall|p: Seq<char>| #[trigger] bcount(newb, p) == bcount(oldb, p) + (
                    if p == tsnap.path() {
                        1int
                    } else {
                        0
                    }) by {
                        lemma_bcount_update(oldb, bi, bkt2, p);
                        lemma_tcount_push(oldb[bi].tasks@, tsnap, p);
                    }
                    assert forall|b: int, j: int|
                        0 <= b < newb.len() && 0 <= j < newb[b].tasks@.len() implies {
                        let u = #[trigger] newb[b].tasks@[j];
                        &&& u.wf()
                        &&& !u.hasher.done()
                        &&& u.cur_digest() == newb[b].digest@
                    } by {
                        if b == bi && j == na {
                            assert(newb[b].tasks@[j] == tsnap);
                            assert(d@ == tsnap.cur_digest());
                        } else {
                            assert(newb[b].tasks@[j] == oldb[b].tasks@[j]);
                        }
                    }
                    assert forall|d2: Seq<u8>, p: Seq<char>, c: Seq<u8>|
                        #[trigger] in_buckets(oldb, d2, p, c) implies in_buckets(
                        newb,
                        d2,
                        p,
                        c,
                    ) by {
                        lemma_bucket_index(oldb, d2);
                        let b = bucket_index(oldb, d2);
                        let j = choose|j: int|
                            0 <= j < oldb[b].tasks@.len() && (#[trigger] oldb[b].tasks@[j]).path()
                                == p && oldb[b].tasks@[j].content() == c;
                        assert(newb[b].tasks@[j] == oldb[b].tasks@[j]);
                    }
                    assert forall|b: int, j: int|
                        0 <= b < newb.len() && 0 <= j < newb[b].tasks@.len() implies
                        bucket_tasks_contain(oldb, #[trigger] newb[b].tasks@[j])
                        || newb[b].tasks@[j] == tsnap by {
                        if !(b == bi && j == na) {
                            assert(oldb[b].tasks@[j] == newb[b].tasks@[j]);
                        }
                    }
                }
                return;
            }
            i = i + 1;
        }
        proof {
            lemma_bucket_index(oldb, d@);
            if bucket_index(oldb, d@) != -1 {
                assert(oldb[bucket_index(oldb, d@)].digest@ == d@);
            }
        }
        let mut tasks: Vec<MemTask> = Vec::new();
        tasks.push(t);
        self.buckets.push(Bucket { digest: d, tasks });
        proof {
            let newb = self.buckets@;
            let bn = oldb.len() as int;
            assert(newb =~= oldb.push(newb.last()));
            lemma_bucket_index_push(oldb, newb.last(), tsnap.cur_digest());
            assert(newb[bn].tasks@[0] == tsnap);
            assert(bucket_index(newb, tsnap.cur_digest()) == bn);
            assert(newb[bn].tasks@[0].path() == tsnap.path() && newb[bn].tasks@[0].content()
                == tsnap.content());
            assert(in_buckets(newb, tsnap.cur_digest(), tsnap.path(), tsnap.content()));
            assert forall|p: Seq<char>| #[trigger] bcount(newb, p) == bcount(oldb, p) + (
            if p == tsnap.path() {
                1int
            } else {
                0
            }) by {
                lemma_bcount_push(oldb, newb.last(), p);
                assert(newb.last().tasks@.len() == 1);
                assert(newb.last().tasks@.drop_last() =~= Seq::<MemTask>::empty());
                assert(tcount(Seq::<MemTask>::empty(), p) == 0);
                assert(newb.last().tasks@.last() == tsnap);
            }
            assert forall|b: int, j: int|
                0 <= b < newb.len() && 0 <= j < newb[b].tasks@.len() implies {
                let u = #[trigger] newb[b].tasks@[j];
                &&& u.wf()
                &&& !u.hasher.done()
                &&& u.cur_digest() == newb[b].digest@
            } by {
                if b == bn {
                    assert(newb[b].tasks@[j] == tsnap);
                } else {
                    assert(newb[b] == oldb[b]);
                    assert(newb[b].tasks@[j] == oldb[b].tasks@[j]);
                }
            }
            assert forall|d2: Seq<u8>, p: Seq<char>, c: Seq<u8>|
                #[trigger] in_buckets(oldb, d2, p, c) implies in_buckets(newb, d2, p, c) by {
                lemma_bucket_index(oldb, d2);
                lemma_bucket_index_push(oldb, newb.last(), d2);
                let b = bucket_index(oldb, d2);
                assert(newb[b] == oldb[b]);
            }
            assert forall|b: int, j: int|
                0 <= b < newb.len() && 0 <= j < newb[b].tasks@.len() implies bucket_tasks_contain(
                oldb,
                #[trigger] newb[b].tasks@[j],
            ) || newb[b].tasks@[j] == tsnap by {
                if b < bn {
                    assert(oldb[b].tasks@[j] == newb[b].tasks@[j]);
                }
            }
        }
    }

    /// Split the set into the hashers that are finished and those that
    /// must continue.  A task alone in its bucket is finished: no other
    /// competing file read the same bytes, so no other file can share the
    /// full content, and its current digest identifies it.  Buckets with
    /// two or more tasks must continue for another chunk.  The two outputs
    /// partition the bucketed tasks: none is lost, none is invented.
    #[verifier::rlimit(100)]
    #[verifier::loop_isolation(false)]
    pub fn filter_unfinished_duplicates(self) -> (r: (Vec<MemTask>, Vec<MemTask>))
        requires
            buckets_wf(self.buckets@),
        ensures
            forall|k: int|
                0 <= k < r.0@.len() ==> in_singleton_bucket(self.buckets@, #[trigger] r.0@[k]),
            forall|k: int|
                0 <= k < r.1@.len() ==> in_multi_bucket(self.buckets@, #[trigger] r.1@[k]),
            forall|b: int, j: int|
                0 <= b < self.buckets@.len() && 0 <= j < self.buckets@[b].tasks@.len() ==> ({
                    let t = #[trigger] self.buckets@[b].tasks@[j];
                    if self.buckets@[b].tasks@.len() == 1 {
                        tasks_contain(r.0@, t)
                    } else {
                        tasks_contain(r.1@, t)
                    }
                }),
            forall|p: Seq<char>| #![trigger tcount(r.0@, p), tcount(r.1@, p)]
                tcount(r.0@, p) + tcount(r.1@, p) == bcount(self.buckets@, p),
    {
        let ghost origb = self.buckets@;
        let mut buckets = self.buckets;
        let mut finished: Vec<MemTask> = Vec::new();
        let mut continuing: Vec<MemTask> = Vec::new();
        let ghost mut processed: int = 0;
        proof {
            assert(origb.take(0) =~= Seq::<Bucket>::empty());
            assert(forall|p: Seq<char>| #[trigger] tcount(Seq::<MemTask>::empty(), p) == 0);
            assert(forall|p: Seq<char>| #[trigger] bcount(Seq::<Bucket>::empty(), p) == 0);
        }
        while buckets.len() > 0
            invariant
                0 <= processed <= origb.len(),
                buckets@ =~= origb.skip(processed),
                forall|p: Seq<char>| #![trigger tcount(finished@, p), tcount(continuing@, p)]
                    tcount(finished@, p) + tcount(continuing@, p) == bcount(
                        origb.take(processed),
                        p,
                    ),
                forall|k: int|
                    0 <= k < finished@.len() ==> in_singleton_bucket(
                        origb.take(processed),
                        #[trigger] finished@[k],
                    ),
                forall|k: int|
                    0 <= k < continuing@.len() ==> in_multi_bucket(
                        origb.take(processed),
                        #[trigger] continuing@[k],
                    ),
                forall|b: int, j: int|
                    0 <= b < processed && 0 <= j < origb[b].tasks@.len() ==> ({
                        let t = #[trigger] origb[b].tasks@[j];
                        if origb[b].tasks@.len() == 1 {
                            tasks_contain(finished@, t)
                        } else {
                            tasks_contain(continuing@, t)
                        }
                    }),
            decreases buckets@.len(),
        {
            let mut b = buckets.remove(0);
            proof {
                assert(origb.skip(processed)[0] == origb[processed]);
                assert(b == origb[processed]);
                assert(buckets@ =~= origb.skip(processed + 1));
                assert(forall|k: int|
                    0 <= k < processed + 1 ==> origb.take(processed + 1)[k] == #[trigger] origb[k]);
                assert(forall|k: int|
                    0 <= k < processed ==> origb.take(processed)[k] == #[trigger] origb[k]);
            }
            let ghost prevf = finished@;
            let ghost prevc = continuing@;
            if b.tasks.len() == 1 {
                let t = b.tasks.pop().unwrap();
                finished.push(t);
                proof {
                    assert(t == origb[processed].tasks@[0]);
                    assert forall|p: Seq<char>| #[trigger] tcount(finished@, p) + tcount(
                        continuing@,
                        p,
                    ) == bcount(origb.take(processed + 1), p) by {
                        lemma_tcount_push(prevf, t, p);
                        lemma_bcount_take_succ(origb, processed, p);
                        assert(origb[processed].tasks@.len() == 1);
                        assert(origb[processed].tasks@.drop_last() =~= Seq::<MemTask>::empty());
                        assert(tcount(Seq::<MemTask>::empty(), p) == 0);
                        assert(origb[processed].tasks@.last() == t);
                    }
                    assert forall|k: int|
                        0 <= k < finished@.len() implies in_singleton_bucket(
                        origb.take(processed + 1),
                        #[trigger] finished@[k],
                    ) by {
                        if k < prevf.len() {
                            assert(finished@[k] == prevf[k]);
                            let bb = choose|bb: int|
                                0 <= bb < processed && (#[trigger] origb.take(
                                    processed,
                                )[bb]).tasks@.len() == 1 && origb.take(processed)[bb].tasks@[0]
                                    == prevf[k];
                            assert(origb.take(processed + 1)[bb].tasks@.len() == 1 && origb.take(
                                processed + 1,
                            )[bb].tasks@[0] == finished@[k]);
                        } else {
                            assert(finished@[k] == t);
                            assert(origb.take(processed + 1)[processed].tasks@.len() == 1
                                && origb.take(processed + 1)[processed].tasks@[0] == finished@[k]);
                        }
                    }
                    assert forall|k: int|
                        0 <= k < continuing@.len() implies in_multi_bucket(
                        origb.take(processed + 1),
                        #[trigger] continuing@[k],
                    ) by {
                        let (bb, j) = choose|bb: int, j: int|
                            0 <= bb < processed && origb.take(processed)[bb].tasks@.len() >= 2 && 0
                                <= j < origb.take(processed)[bb].tasks@.len() && (#[trigger] origb.take(
                                processed,
                            )[bb].tasks@[j]) == continuing@[k];
                        assert(origb.take(processed + 1)[bb].tasks@.len() >= 2 && origb.take(
                            processed + 1,
                        )[bb].tasks@[j] == continuing@[k]);
                    }
                }
            } else {
                let mut moved = b.tasks;
                let ghost btasks = moved@;
                proof {
                    assert(btasks == origb[processed].tasks@);
                }
                drain_into(&mut moved, &mut continuing);
                proof {
                    assert forall|p: Seq<char>| #[trigger] tcount(finished@, p) + tcount(
                        continuing@,
                        p,
                    ) == bcount(origb.take(processed + 1), p) by {
                        lemma_bcount_take_succ(origb, processed, p);
                        assert(tcount(prevf, p) + tcount(prevc, p) == bcount(
                            origb.take(processed),
                            p,
                        ));
                        assert(tcount(continuing@, p) == tcount(prevc, p) + tcount(btasks, p));
                        assert(finished@ == prevf);
                    }
                    assert forall|k: int|
                        0 <= k < continuing@.len() implies in_multi_bucket(
                        origb.take(processed + 1),
                        #[trigger] continuing@[k],
                    ) by {
                        if k < prevc.len() {
                            assert(continuing@[k] == prevc[k]);
                            let (bb, j) = choose|bb: int, j: int|
                                0 <= bb < processed && origb.take(processed)[bb].tasks@.len() >= 2
                                    && 0 <= j < origb.take(processed)[bb].tasks@.len()
                                    && (#[trigger] origb.take(processed)[bb].tasks@[j])
                                    == prevc[k];
                            assert(origb.take(processed + 1)[bb].tasks@.len() >= 2 && origb.take(
                                processed + 1,
                            )[bb].tasks@[j] == continuing@[k]);
                        } else {
                            let j = choose|j: int|
                                0 <= j < origb[processed].tasks@.len()
                                    && origb[processed].tasks@[j] == continuing@[k];
                            assert(origb.take(processed + 1)[processed].tasks@.len() >= 2
                                && origb.take(processed + 1)[processed].tasks@[j]
                                == continuing@[k]);
                        }
                    }
                    assert forall|k: int|
                        0 <= k < finished@.len() implies in_singleton_bucket(
                        origb.take(processed + 1),
                        #[trigger] finished@[k],
                    ) by {
                        let bb = choose|bb: int|
                            0 <= bb < processed && (#[trigger] origb.take(
                                processed,
                            )[bb]).tasks@.len() == 1 && origb.take(processed)[bb].tasks@[0]
                                == finished@[k];
                        assert(origb.take(processed + 1)[bb].tasks@.len() == 1 && origb.take(
                            processed + 1,
                        )[bb].tasks@[0] == finished@[k]);
                    }
                }
            }
            proof {
                assert forall|bb: int, j: int|
                    0 <= bb < processed + 1 && 0 <= j < origb[bb].tasks@.len() implies ({
                    let u = #[trigger] origb[bb].tasks@[j];
                    if origb[bb].tasks@.len() == 1 {
                        tasks_contain(finished@, u)
                    } else {
                        tasks_contain(continuing@, u)
                    }
                }) by {
                    if bb < processed {
                        if origb[bb].tasks@.len() == 1 {
                            let k = choose|k: int|
                                0 <= k < prevf.len() && prevf[k] == origb[bb].tasks@[j];
                            assert(finished@[k] == origb[bb].tasks@[j]);
                        } else {
                            let k = choose|k: int|
                                0 <= k < prevc.len() && prevc[k] == origb[bb].tasks@[j];
                            assert(continuing@[k] == origb[bb].tasks@[j]);
                        }
                    } else {
                        if origb[bb].tasks@.len() == 1 {
                            assert(finished@[finished@.len() - 1] == origb[bb].tasks@[j]);
                        } else {
                            let k = choose|k: int|
                                prevc.len() <= k < continuing@.len() && continuing@[k]
                                    == origb[bb].tasks@[j];
                            assert(continuing@[k] == origb[bb].tasks@[j]);
                        }
                    }
                }
                processed = processed + 1;
            }
        }
        proof {
            assert(origb.take(origb.len() as int) =~= origb);
        }
        (finished, continuing)
    }
}

/// Move every task of `src` into `dst`, leaving `src` empty.
#[verifier::loop_isolation(false)]
fn drain_into(src: &mut Vec<MemTask>, dst: &mut Vec<MemTask>)
    ensures
        final(src)@.len() == 0,
        final(dst)@.len() == old(dst)@.len() + old(src)@.len(),
        forall|k: int|
            0 <= k < old(dst)@.len() ==> (#[trigger] final(dst)@[k]) == old(dst)@[k],
        forall|j: int|
            0 <= j < old(src)@.len() ==> tasks_contain(final(dst)@, #[trigger] old(src)@[j]),
        forall|k: int|
            old(dst)@.len() <= k < final(dst)@.len() ==> tasks_contain(
                old(src)@,
                #[trigger] final(dst)@[k],
            ),
        forall|p: Seq<char>| #![trigger tcount(final(dst)@, p)]
            tcount(final(dst)@, p) == tcount(old(dst)@, p) + tcount(old(src)@, p),
{
    let ghost base = old(dst)@;
    while src.len() > 0
        invariant
            src@.len() <= old(src)@.len(),
            src@ =~= old(src)@.take(src@.len() as int),
            dst@.len() == base.len() + (old(src)@.len() - src@.len()),
            forall|k: int| 0 <= k < base.len() ==> (#[trigger] dst@[k]) == base[k],
            forall|j: int|
                src@.len() <= j < old(src)@.len() ==> tasks_contain(
                    dst@,
                    #[trigger] old(src)@[j],
                ),
            forall|k: int|
                base.len() <= k < dst@.len() ==> tasks_contain(old(src)@, #[trigger] dst@[k]),
            forall|p: Seq<char>| #![trigger tcount(dst@, p)]
                tcount(dst@, p) == tcount(base, p) + tcount(old(src)@, p) - tcount(src@, p),
        decreases src@.len(),
    {
        let ghost prevt = src@;
        let ghost prevd = dst@;
        let t = src.pop().unwrap();
        dst.push(t);
        proof {
            assert(prevt[prevt.len() - 1] == old(src)@.take(prevt.len() as int)[prevt.len() - 1]);
            assert(t == old(src)@[prevt.len() - 1]);
            assert(src@ =~= old(src)@.take(src@.len() as int));
            assert forall|p: Seq<char>| #![trigger tcount(dst@, p)]
                tcount(dst@, p) == tcount(base, p) + tcount(old(src)@, p) - tcount(src@, p) by {
                lemma_tcount_push(prevd, t, p);
                lemma_tcount_take_succ(old(src)@, src@.len() as int, p);
                lemma_tcount_pointwise(prevt, old(src)@.take(prevt.len() as int), p);
            }
            assert forall|j: int|
                src@.len() <= j < old(src)@.len() implies tasks_contain(
                dst@,
                #[trigger] old(src)@[j],
            ) by {
                if j >= prevt.len() {
                    let k = choose|k: int| 0 <= k < prevd.len() && prevd[k] == old(src)@[j];
                    assert(dst@[k] == old(src)@[j]);
                } else {
                    assert(dst@[dst@.len() - 1] == old(src)@[j]);
                }
            }
            assert forall|k: int|
                base.len() <= k < dst@.len() implies tasks_contain(
                old(src)@,
                #[trigger] dst@[k],
            ) by {
                if k < prevd.len() {
                    let j = choose|j: int| 0 <= j < old(src)@.len() && old(src)@[j] == prevd[k];
                    assert(old(src)@[j] == dst@[k]);
                } else {
                    assert(dst@[k] == old(src)@[prevt.len() - 1]);
                }
            }
        }
    }
    proof {
        assert(old(src)@.take(0) =~= Seq::<MemTask>::empty());
        assert(forall|p: Seq<char>| #[trigger] tcount(Seq::<MemTask>::empty(), p) == 0);
    }
}

} // verus!
