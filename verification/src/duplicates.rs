//! The result model: hash-keyed groups of file entries.
//!
//! A group is keyed by the pair `(size, digest)`.  Keying by the size as
//! well as the digest makes the size invariant structural: every entry of a
//! group has the group's size, whatever digests the caller hands in.

use vstd::prelude::*;

use crate::digest::{bytes_equal, DIGEST_LEN};
use crate::file::FileEntry;

verus! {

/// Files that share the same `(size, digest)` key.
#[derive(Debug)]
pub struct FileEntries {
    /// The entries, in insertion order.
    pub files: Vec<FileEntry>,
}

impl FileEntries {
    /// Create a new instance.
    pub fn new(files: Vec<FileEntry>) -> (r: FileEntries)
        ensures
            r.files@ == files@,
    {
        FileEntries { files }
    }

    /// Append an entry.
    pub fn push(&mut self, entry: FileEntry)
        ensures
            final(self).files@ == old(self).files@.push(entry),
    {
        self.files.push(entry);
    }

    /// Whether this group holds more than one file, that is, whether the
    /// files in it are duplicates of each other.
    pub fn has_duplicates(&self) -> (r: bool)
        ensures
            r == (self.files@.len() > 1),
    {
        self.files.len() > 1
    }

    /// The file size shared by all entries, or 0 if the group is empty.
    ///
    /// All files grouped under one key have the same size, so the first
    /// entry's size stands for all of them.
    pub fn file_size(&self) -> (r: u64)
        ensures
            self.files@.len() > 0 ==> r == self.files@[0].size,
            self.files@.len() == 0 ==> r == 0,
    {
        if self.files.len() > 0 {
            self.files[0].size
        } else {
            0
        }
    }

    /// Return all file paths stored by this instance, in insertion order.
    pub fn iter(&self) -> (r: Vec<String>)
        ensures
            r@.len() == self.files@.len(),
            forall|k: int| 0 <= k < r@.len() ==> (#[trigger] r@[k])@ == self.files@[k].path@,
    {
        let mut r: Vec<String> = Vec::new();
        let n = self.files.len();
        let mut i: usize = 0;
        while i < n
            invariant
                n == self.files@.len(),
                i <= n,
                r@.len() == i,
                forall|k: int| 0 <= k < i ==> (#[trigger] r@[k])@ == self.files@[k].path@,
            decreases n - i,
        {
            r.push(self.files[i].path.clone());
            i = i + 1;
        }
        r
    }
}

/// One group of the result: a `(size, digest)` key and the files that were
/// hashed to it, in insertion order.
#[derive(Debug)]
pub struct HashGroup {
    /// The size shared by every entry of the group.
    pub size: u64,
    /// The digest shared by every entry of the group.
    pub digest: Vec<u8>,
    /// The entries of the group.
    pub entries: FileEntries,
}

impl HashGroup {
    /// A well-formed group has a digest of the right length, holds at least
    /// one entry, and every entry reports the group's size.
    pub open spec fn wf(self) -> bool {
        &&& self.digest@.len() == DIGEST_LEN
        &&& self.entries.files@.len() >= 1
        &&& forall|k: int|
            0 <= k < self.entries.files@.len() ==> (#[trigger] self.entries.files@[k]).size
                == self.size
    }

    /// Whether this group is keyed by the given size and digest.
    pub open spec fn has_key(self, size: u64, d: Seq<u8>) -> bool {
        self.size == size && self.digest@ == d
    }
}

/// The index of the group keyed `(size, d)` in `groups`, or -1 if none is.
pub open spec fn key_index(groups: Seq<HashGroup>, size: u64, d: Seq<u8>) -> int
    decreases groups.len(),
{
    if groups.len() == 0 {
        -1
    } else if groups[0].has_key(size, d) {
        0
    } else {
        let rest = key_index(groups.drop_first(), size, d);
        if rest == -1 {
            -1
        } else {
            rest + 1
        }
    }
}

/// `key_index` reports -1 exactly when no group has the key; otherwise it
/// is the index of the first group that has it.
pub proof fn lemma_key_index(groups: Seq<HashGroup>, size: u64, d: Seq<u8>)
    ensures
        key_index(groups, size, d) == -1 ==> forall|i: int|
            0 <= i < groups.len() ==> !(#[trigger] groups[i]).has_key(size, d),
        key_index(groups, size, d) != -1 ==> ({
            let ki = key_index(groups, size, d);
            &&& 0 <= ki < groups.len()
            &&& groups[ki].has_key(size, d)
            &&& forall|k: int| 0 <= k < ki ==> !(#[trigger] groups[k]).has_key(size, d)
        }),
    decreases groups.len(),
{
    if groups.len() > 0 {
        let rest = groups.drop_first();
        lemma_key_index(rest, size, d);
        assert(forall|k: int| 1 <= k < groups.len() ==> groups[k] == #[trigger] rest[k - 1]);
        if !groups[0].has_key(size, d) {
            let rki = key_index(rest, size, d);
            if rki == -1 {
                assert forall|i: int| 0 <= i < groups.len() implies !(#[trigger] groups[i]).has_key(
                    size,
                    d,
                ) by {
                    if i >= 1 {
                        assert(!rest[i - 1].has_key(size, d));
                    }
                }
            } else {
                assert(groups[rki + 1] == rest[rki]);
                assert forall|k: int| 0 <= k < rki + 1 implies !(#[trigger] groups[k]).has_key(
                    size,
                    d,
                ) by {
                    if k >= 1 {
                        assert(!rest[k - 1].has_key(size, d));
                    }
                }
            }
        }
    }
}

/// If `i` is the first index whose group has the key, `key_index` finds it.
pub proof fn lemma_key_index_at_first(groups: Seq<HashGroup>, size: u64, d: Seq<u8>, i: int)
    requires
        0 <= i < groups.len(),
        groups[i].has_key(size, d),
        forall|k: int| 0 <= k < i ==> !(#[trigger] groups[k]).has_key(size, d),
    ensures
        key_index(groups, size, d) == i,
{
    lemma_key_index(groups, size, d);
}

/// Two group sequences whose keys agree pointwise agree on every key query.
pub proof fn lemma_key_index_same_keys(g1: Seq<HashGroup>, g2: Seq<HashGroup>, size: u64, d: Seq<u8>)
    requires
        g1.len() == g2.len(),
        forall|i: int|
            0 <= i < g1.len() ==> (#[trigger] g1[i]).size == g2[i].size && g1[i].digest@
                == g2[i].digest@,
    ensures
        key_index(g1, size, d) == key_index(g2, size, d),
    decreases g1.len(),
{
    if g1.len() > 0 {
        assert(g1[0].has_key(size, d) == g2[0].has_key(size, d));
        lemma_key_index_same_keys(g1.drop_first(), g2.drop_first(), size, d);
        assert(forall|k: int| 1 <= k < g1.len() ==> g1[k] == #[trigger] g1.drop_first()[k - 1]);
        assert(forall|k: int| 1 <= k < g2.len() ==> g2[k] == #[trigger] g2.drop_first()[k - 1]);
    }
}

/// Appending a group does not move the keys that were already present, and
/// a fresh key lands at the end.
pub proof fn lemma_key_index_push(groups: Seq<HashGroup>, g: HashGroup, size: u64, d: Seq<u8>)
    ensures
        key_index(groups, size, d) != -1 ==> key_index(groups.push(g), size, d) == key_index(
            groups,
            size,
            d,
        ),
        key_index(groups, size, d) == -1 && g.has_key(size, d) ==> key_index(
            groups.push(g),
            size,
            d,
        ) == groups.len(),
        key_index(groups, size, d) == -1 && !g.has_key(size, d) ==> key_index(
            groups.push(g),
            size,
            d,
        ) == -1,
{
    lemma_key_index(groups, size, d);
    let pushed = groups.push(g);
    assert(forall|k: int| 0 <= k < groups.len() ==> pushed[k] == #[trigger] groups[k]);
    if key_index(groups, size, d) != -1 {
        lemma_key_index_at_first(pushed, size, d, key_index(groups, size, d));
    } else if g.has_key(size, d) {
        lemma_key_index_at_first(pushed, size, d, groups.len() as int);
    } else {
        lemma_key_index(pushed, size, d);
        if key_index(pushed, size, d) != -1 {
            assert(pushed[key_index(pushed, size, d)].has_key(size, d));
        }
    }
}

/// Whether a group holds an entry with this path.
pub open spec fn group_has_path(g: HashGroup, p: Seq<char>) -> bool {
    exists|a: int| 0 <= a < g.entries.files@.len() && g.entries.files@[a].path@ == p
}

/// How many entries of `files` carry the path `p`.
pub open spec fn entry_count(files: Seq<FileEntry>, p: Seq<char>) -> int
    decreases files.len(),
{
    if files.len() == 0 {
        0
    } else {
        entry_count(files.drop_last(), p) + if files.last().path@ == p {
            1int
        } else {
            0
        }
    }
}

/// How many entries across all groups carry the path `p`.
pub open spec fn path_count(groups: Seq<HashGroup>, p: Seq<char>) -> int
    decreases groups.len(),
{
    if groups.len() == 0 {
        0
    } else {
        path_count(groups.drop_last(), p) + entry_count(groups.last().entries.files@, p)
    }
}

/// Appending an entry raises its path's count by one and no other.
pub proof fn lemma_entry_count_push(files: Seq<FileEntry>, e: FileEntry, p: Seq<char>)
    ensures
        entry_count(files.push(e), p) == entry_count(files, p) + if e.path@ == p {
            1int
        } else {
            0
        },
{
    assert(files.push(e).drop_last() =~= files);
    assert(files.push(e).last() == e);
}

/// Path counts never go negative, and a count of zero means no entry
/// carries the path.
pub proof fn lemma_entry_count_bounds(files: Seq<FileEntry>, p: Seq<char>)
    ensures
        0 <= entry_count(files, p),
        entry_count(files, p) == 0 <==> forall|a: int|
            0 <= a < files.len() ==> (#[trigger] files[a]).path@ != p,
    decreases files.len(),
{
    if files.len() > 0 {
        lemma_entry_count_bounds(files.drop_last(), p);
        assert(forall|a: int|
            0 <= a < files.len() - 1 ==> files[a] == #[trigger] files.drop_last()[a]);
        if entry_count(files, p) == 0 {
            assert forall|a: int| 0 <= a < files.len() implies (#[trigger] files[a]).path@ != p by {
                if a < files.len() - 1 {
                    assert(files.drop_last()[a].path@ != p);
                }
            }
        }
    }
}

/// A group that holds the path contributes at least one to its count.
pub proof fn lemma_path_count_ge_one(groups: Seq<HashGroup>, i: int, p: Seq<char>)
    requires
        0 <= i < groups.len(),
        group_has_path(groups[i], p),
    ensures
        path_count(groups, p) >= 1,
    decreases groups.len(),
{
    lemma_entry_count_bounds(groups.last().entries.files@, p);
    lemma_path_count_bounds(groups.drop_last(), p);
    if i == groups.len() - 1 {
        assert(groups[i] == groups.last());
        if entry_count(groups.last().entries.files@, p) == 0 {
            let a = choose|a: int|
                0 <= a < groups[i].entries.files@.len() && groups[i].entries.files@[a].path@ == p;
            assert(groups.last().entries.files@[a].path@ != p);
        }
    } else {
        assert(groups.drop_last()[i] == groups[i]);
        lemma_path_count_ge_one(groups.drop_last(), i, p);
    }
}

/// Two distinct groups that both hold the path contribute at least two.
pub proof fn lemma_path_count_two_groups(groups: Seq<HashGroup>, i: int, j: int, p: Seq<char>)
    requires
        0 <= i < j < groups.len(),
        group_has_path(groups[i], p),
        group_has_path(groups[j], p),
    ensures
        path_count(groups, p) >= 2,
    decreases groups.len(),
{
    lemma_entry_count_bounds(groups.last().entries.files@, p);
    if j == groups.len() - 1 {
        assert(groups[j] == groups.last());
        if entry_count(groups.last().entries.files@, p) == 0 {
            let a = choose|a: int|
                0 <= a < groups[j].entries.files@.len() && groups[j].entries.files@[a].path@ == p;
            assert(groups.last().entries.files@[a].path@ != p);
        }
        assert(groups.drop_last()[i] == groups[i]);
        lemma_path_count_ge_one(groups.drop_last(), i, p);
    } else {
        lemma_path_count_bounds(groups.drop_last(), p);
        assert(groups.drop_last()[i] == groups[i]);
        assert(groups.drop_last()[j] == groups[j]);
        lemma_path_count_two_groups(groups.drop_last(), i, j, p);
    }
}

/// Replacing one group changes the total count of a path by the difference
/// of that group's contribution.
pub proof fn lemma_path_count_update(groups: Seq<HashGroup>, i: int, g: HashGroup, p: Seq<char>)
    requires
        0 <= i < groups.len(),
    ensures
        path_count(groups.update(i, g), p) == path_count(groups, p) - entry_count(
            groups[i].entries.files@,
            p,
        ) + entry_count(g.entries.files@, p),
    decreases groups.len(),
{
    let upd = groups.update(i, g);
    if i == groups.len() - 1 {
        assert(upd.drop_last() =~= groups.drop_last());
        assert(upd.last() == g);
        assert(groups.last() == groups[i]);
    } else {
        assert(upd.drop_last() =~= groups.drop_last().update(i, g));
        assert(upd.last() == groups.last());
        lemma_path_count_update(groups.drop_last(), i, g, p);
        assert(groups.drop_last()[i] == groups[i]);
    }
}

/// Appending a group adds its contribution to the total count of a path.
pub proof fn lemma_path_count_push(groups: Seq<HashGroup>, g: HashGroup, p: Seq<char>)
    ensures
        path_count(groups.push(g), p) == path_count(groups, p) + entry_count(
            g.entries.files@,
            p,
        ),
{
    assert(groups.push(g).drop_last() =~= groups);
    assert(groups.push(g).last() == g);
}

/// Counts never go negative, and a count of zero means the path is not in
/// the result at all.
pub proof fn lemma_path_count_bounds(groups: Seq<HashGroup>, p: Seq<char>)
    ensures
        0 <= path_count(groups, p),
        path_count(groups, p) == 0 <==> forall|i: int|
            0 <= i < groups.len() ==> !group_has_path(#[trigger] groups[i], p),
    decreases groups.len(),
{
    if groups.len() > 0 {
        lemma_path_count_bounds(groups.drop_last(), p);
        lemma_entry_count_bounds(groups.last().entries.files@, p);
        assert(forall|i: int|
            0 <= i < groups.len() - 1 ==> groups[i] == #[trigger] groups.drop_last()[i]);
        if path_count(groups, p) == 0 {
            assert forall|i: int| 0 <= i < groups.len() implies !group_has_path(
                #[trigger] groups[i],
                p,
            ) by {
                if i < groups.len() - 1 {
                    assert(!group_has_path(groups.drop_last()[i], p));
                } else {
                    assert(entry_count(groups.last().entries.files@, p) == 0);
                    assert(groups[i] == groups.last());
                }
            }
        } else {
            if forall|i: int| 0 <= i < groups.len() ==> !group_has_path(#[trigger] groups[i], p) {
                assert forall|i: int|
                    0 <= i < groups.drop_last().len() implies !group_has_path(
                    #[trigger] groups.drop_last()[i],
                    p,
                ) by {
                    assert(groups.drop_last()[i] == groups[i]);
                }
                assert(!group_has_path(groups.last(), p));
                assert forall|a: int|
                    0 <= a < groups.last().entries.files@.len() implies (
                #[trigger] groups.last().entries.files@[a]).path@ != p by {
                    if groups.last().entries.files@[a].path@ == p {
                        assert(group_has_path(groups.last(), p));
                    }
                }
                assert(entry_count(groups.last().entries.files@, p) == 0);
            }
        }
    }
}

/// The index of the group keyed `(size, d)`, or `None` if no group has
/// that key.
pub fn find_group(groups: &Vec<HashGroup>, size: u64, d: &Vec<u8>) -> (r: Option<usize>)
    ensures
        match r {
            Some(i) => i < groups@.len() && key_index(groups@, size, d@) == i,
            None => key_index(groups@, size, d@) == -1,
        },
{
    let n = groups.len();
    let mut i: usize = 0;
    while i < n
        invariant
            n == groups@.len(),
            i <= n,
            forall|k: int| 0 <= k < i ==> !(#[trigger] groups@[k]).has_key(size, d@),
        decreases n - i,
    {
        if groups[i].size == size && bytes_equal(groups[i].digest.as_slice(), d.as_slice()) {
            proof {
                lemma_key_index_at_first(groups@, size, d@, i as int);
            }
            return Some(i);
        }
        i = i + 1;
    }
    proof {
        lemma_key_index(groups@, size, d@);
        if key_index(groups@, size, d@) != -1 {
            assert(groups@[key_index(groups@, size, d@)].has_key(size, d@));
        }
    }
    None
}

/// A collection of duplicates: the groups discovered so far, and whether
/// the discovery that produced them was stopped early.
#[derive(Debug)]
pub struct DeduperResult {
    /// The groups, in the order their keys were first seen.
    pub groups: Vec<HashGroup>,
    /// Whether discovery stopped before the walk was complete.
    pub partial: bool,
}

impl DeduperResult {
    /// Every group is well formed and no two groups share a key.
    pub open spec fn wf(self) -> bool {
        &&& forall|i: int| 0 <= i < self.groups@.len() ==> (#[trigger] self.groups@[i]).wf()
        &&& forall|i: int, j: int|
            0 <= i < j < self.groups@.len() ==> !(#[trigger] self.groups@[i]).has_key(
                (#[trigger] self.groups@[j]).size,
                self.groups@[j].digest@,
            )
    }

    /// Whether some group holds an entry with this path.
    pub open spec fn contains_path(self, p: Seq<char>) -> bool {
        exists|i: int| 0 <= i < self.groups@.len() && group_has_path(#[trigger] self.groups@[i], p)
    }

    /// Whether the group keyed `(size, d)` holds an entry with this path.
    pub open spec fn path_in_group(self, size: u64, d: Seq<u8>, p: Seq<char>) -> bool {
        let i = key_index(self.groups@, size, d);
        &&& i != -1
        &&& group_has_path(self.groups@[i], p)
    }

    /// Whether one group holds entries for both paths: the two files were
    /// reported as duplicates of one another.
    pub open spec fn grouped_together(self, p: Seq<char>, q: Seq<char>) -> bool {
        exists|i: int|
            0 <= i < self.groups@.len() && group_has_path(#[trigger] self.groups@[i], p)
                && group_has_path(self.groups@[i], q)
    }

    /// Create an empty result.
    pub fn new() -> (r: DeduperResult)
        ensures
            r.groups@.len() == 0,
            r.partial == false,
            r.wf(),
    {
        DeduperResult { groups: Vec::new(), partial: false }
    }

    /// Make this instance return true from `is_partial`.
    pub fn set_partial(&mut self)
        ensures
            final(self).groups@ == old(self).groups@,
            final(self).partial == true,
    {
        self.partial = true;
    }

    /// Add an entry into the group keyed by the entry's size and the given
    /// digest, creating the group if no group has that key yet.
    pub fn add_entry(&mut self, hash: Vec<u8>, file: FileEntry)
        requires
            hash@.len() == DIGEST_LEN,
            old(self).wf(),
        ensures
            final(self).wf(),
            final(self).partial == old(self).partial,
            key_index(old(self).groups@, file.size, hash@) == -1 ==> ({
                &&& final(self).groups@.len() == old(self).groups@.len() + 1
                &&& forall|j: int|
                    0 <= j < old(self).groups@.len() ==> final(self).groups@[j] == old(
                        self,
                    ).groups@[j]
                &&& final(self).groups@.last().size == file.size
                &&& final(self).groups@.last().digest@ == hash@
                &&& final(self).groups@.last().entries.files@ =~= seq![file]
            }),
            key_index(old(self).groups@, file.size, hash@) != -1 ==> ({
                let i = key_index(old(self).groups@, file.size, hash@);
                &&& final(self).groups@.len() == old(self).groups@.len()
                &&& forall|j: int|
                    0 <= j < old(self).groups@.len() && j != i ==> final(self).groups@[j] == old(
                        self,
                    ).groups@[j]
                &&& final(self).groups@[i].size == old(self).groups@[i].size
                &&& final(self).groups@[i].digest@ == old(self).groups@[i].digest@
                &&& final(self).groups@[i].entries.files@ == old(
                    self,
                ).groups@[i].entries.files@.push(file)
            }),
            final(self).path_in_group(file.size, hash@, file.path@),
            forall|sz: u64, d: Seq<u8>, p: Seq<char>|
                #[trigger] old(self).path_in_group(sz, d, p) ==> final(self).path_in_group(
                    sz,
                    d,
                    p,
                ),
            forall|p: Seq<char>, q: Seq<char>|
                #[trigger] old(self).grouped_together(p, q) ==> final(self).grouped_together(p, q),
            forall|p: Seq<char>|
                #[trigger] final(self).contains_path(p) ==> old(self).contains_path(p) || p
                    == file.path@,
            forall|q: Seq<char>| #![trigger path_count(final(self).groups@, q)]
                path_count(final(self).groups@, q) == path_count(old(self).groups@, q)
                    + (if q == file.path@ {
                    1int
                } else {
                    0
                }),
    {
        let ghost fsnap = file;
        let ghost hsnap = hash@;
        let found = find_group(&self.groups, file.size, &hash);
        match found {
            Some(i) => {
                proof {
                    lemma_key_index(self.groups@, file.size, hash@);
                }
                self.groups[i].entries.files.push(file);
            },
            None => {
                proof {
                    lemma_key_index(self.groups@, file.size, hash@);
                }
                let size = file.size;
                let mut files: Vec<FileEntry> = Vec::new();
                files.push(file);
                self.groups.push(
                    HashGroup { size, digest: hash, entries: FileEntries { files } },
                );
            },
        }
        proof {
            let oldg = old(self).groups@;
            let newg = self.groups@;
            let sz0 = fsnap.size;
            let ki = key_index(oldg, sz0, hsnap);
            if ki != -1 {
                assert forall|sz: u64, d: Seq<u8>| (#[trigger] key_index(newg, sz, d))
                    == key_index(oldg, sz, d) by {
                    lemma_key_index_same_keys(oldg, newg, sz, d);
                }
                let na = oldg[ki].entries.files@.len() as int;
                assert(newg[ki].entries.files@[na].path@ == fsnap.path@);
                assert(group_has_path(newg[ki], fsnap.path@));
                assert forall|q: Seq<char>| #[trigger] path_count(newg, q) == path_count(oldg, q)
                    + (if q == fsnap.path@ {
                    1int
                } else {
                    0
                }) by {
                    assert(newg =~= oldg.update(ki, newg[ki]));
                    lemma_path_count_update(oldg, ki, newg[ki], q);
                    lemma_entry_count_push(oldg[ki].entries.files@, fsnap, q);
                    assert(newg[ki].entries.files@ == oldg[ki].entries.files@.push(fsnap));
                }
                assert forall|sz: u64, d: Seq<u8>, p: Seq<char>|
                    #[trigger] old(self).path_in_group(sz, d, p) implies self.path_in_group(
                    sz,
                    d,
                    p,
                ) by {
                    lemma_key_index(oldg, sz, d);
                    let i = key_index(oldg, sz, d);
                    if i == ki {
                        let a = choose|a: int|
                            0 <= a < oldg[i].entries.files@.len()
                                && oldg[i].entries.files@[a].path@ == p;
                        assert(newg[i].entries.files@[a].path@ == p);
                    } else {
                        assert(newg[i] == oldg[i]);
                    }
                }
                assert forall|p: Seq<char>, q: Seq<char>|
                    #[trigger] old(self).grouped_together(p, q) implies self.grouped_together(
                    p,
                    q,
                ) by {
                    let i = choose|i: int|
                        0 <= i < oldg.len() && group_has_path(#[trigger] oldg[i], p)
                            && group_has_path(oldg[i], q);
                    if i == ki {
                        let a = choose|a: int|
                            0 <= a < oldg[i].entries.files@.len()
                                && oldg[i].entries.files@[a].path@ == p;
                        let b = choose|b: int|
                            0 <= b < oldg[i].entries.files@.len()
                                && oldg[i].entries.files@[b].path@ == q;
                        assert(newg[i].entries.files@[a].path@ == p);
                        assert(newg[i].entries.files@[b].path@ == q);
                        assert(group_has_path(newg[i], p) && group_has_path(newg[i], q));
                    } else {
                        assert(newg[i] == oldg[i]);
                        assert(group_has_path(newg[i], p) && group_has_path(newg[i], q));
                    }
                }
                assert forall|p: Seq<char>| #[trigger] self.contains_path(p) implies old(
                    self,
                ).contains_path(p) || p == fsnap.path@ by {
                    let i = choose|i: int|
                        0 <= i < newg.len() && group_has_path(#[trigger] newg[i], p);
                    let a = choose|a: int|
                        0 <= a < newg[i].entries.files@.len() && newg[i].entries.files@[a].path@
                            == p;
                    if i == ki {
                        if a < oldg[i].entries.files@.len() {
                            assert(oldg[i].entries.files@[a].path@ == p);
                            assert(group_has_path(oldg[i], p));
                        }
                    } else {
                        assert(oldg[i].entries.files@[a].path@ == p);
                        assert(group_has_path(oldg[i], p));
                    }
                }
            } else {
                let g0 = newg.last();
                assert(newg.len() == oldg.len() + 1);
                assert(forall|j: int| 0 <= j < oldg.len() ==> newg[j] == #[trigger] oldg[j]);
                assert(newg =~= oldg.push(g0));
                lemma_key_index_push(oldg, g0, sz0, hsnap);
                assert(g0.entries.files@[0].path@ == fsnap.path@);
                assert(group_has_path(g0, fsnap.path@));
                assert(self.path_in_group(sz0, hsnap, fsnap.path@));
                assert forall|q: Seq<char>| #[trigger] path_count(newg, q) == path_count(oldg, q)
                    + (if q == fsnap.path@ {
                    1int
                } else {
                    0
                }) by {
                    lemma_path_count_push(oldg, g0, q);
                    assert(g0.entries.files@.len() == 1);
                    assert(g0.entries.files@.drop_last() =~= Seq::<FileEntry>::empty());
                    assert(entry_count(Seq::<FileEntry>::empty(), q) == 0);
                    assert(g0.entries.files@.last() == fsnap);
                    assert(entry_count(g0.entries.files@, q) == (if q == fsnap.path@ {
                        1int
                    } else {
                        0
                    }));
                }
                assert forall|sz: u64, d: Seq<u8>, p: Seq<char>|
                    #[trigger] old(self).path_in_group(sz, d, p) implies self.path_in_group(
                    sz,
                    d,
                    p,
                ) by {
                    lemma_key_index(oldg, sz, d);
                    lemma_key_index_push(oldg, g0, sz, d);
                    let i = key_index(oldg, sz, d);
                    assert(newg[i] == oldg[i]);
                }
                assert forall|p: Seq<char>, q: Seq<char>|
                    #[trigger] old(self).grouped_together(p, q) implies self.grouped_together(
                    p,
                    q,
                ) by {
                    let i = choose|i: int|
                        0 <= i < oldg.len() && group_has_path(#[trigger] oldg[i], p)
                            && group_has_path(oldg[i], q);
                    assert(newg[i] == oldg[i]);
                    assert(group_has_path(newg[i], p) && group_has_path(newg[i], q));
                }
                assert forall|p: Seq<char>| #[trigger] self.contains_path(p) implies old(
                    self,
                ).contains_path(p) || p == fsnap.path@ by {
                    let i = choose|i: int|
                        0 <= i < newg.len() && group_has_path(#[trigger] newg[i], p);
                    if i < oldg.len() {
                        assert(group_has_path(oldg[i], p));
                    } else {
                        let a = choose|a: int|
                            0 <= a < newg[i].entries.files@.len() && newg[i].entries.files@[a].path@
                                == p;
                        assert(a == 0);
                    }
                }
            }
        }
    }

    /// Get the groups that were gathered, in the order their keys were
    /// first seen.  A group with only one entry has no duplicates.
    pub fn hashes(&self) -> (r: &Vec<HashGroup>)
        ensures
            r@ == self.groups@,
    {
        &self.groups
    }

    /// Return the indices of all groups that hold duplicated files, in
    /// strictly increasing order: each such group appears exactly once.
    pub fn duplicates(&self) -> (r: Vec<usize>)
        ensures
            forall|k: int|
                0 <= k < r@.len() ==> {
                    &&& (#[trigger] r@[k]) < self.groups@.len()
                    &&& self.groups@[r@[k] as int].entries.files@.len() > 1
                },
            forall|i: int|
                0 <= i < self.groups@.len() && self.groups@[i].entries.files@.len() > 1
                    ==> r@.contains(i as usize),
            forall|k1: int, k2: int| #![trigger r@[k1], r@[k2]] 0 <= k1 < k2 < r@.len() ==> r@[k1] < r@[k2],
    {
        let mut r: Vec<usize> = Vec::new();
        let n = self.groups.len();
        let mut i: usize = 0;
        while i < n
            invariant
                n == self.groups@.len(),
                i <= n,
                forall|k: int|
                    0 <= k < r@.len() ==> {
                        &&& (#[trigger] r@[k]) < n
                        &&& self.groups@[r@[k] as int].entries.files@.len() > 1
                    },
                forall|j: int|
                    0 <= j < i && self.groups@[j].entries.files@.len() > 1 ==> r@.contains(
                        j as usize,
                    ),
                forall|k1: int, k2: int| #![trigger r@[k1], r@[k2]] 0 <= k1 < k2 < r@.len() ==> r@[k1] < r@[k2],
                forall|k: int| 0 <= k < r@.len() ==> (#[trigger] r@[k]) < i,
            decreases n - i,
        {
            let ghost prev = r@;
            if self.groups[i].entries.has_duplicates() {
                r.push(i);
            }
            proof {
                assert forall|j: int|
                    0 <= j <= i && self.groups@[j].entries.files@.len() > 1 implies r@.contains(
                    j as usize,
                ) by {
                    if j < i {
                        let m = choose|m: int| 0 <= m < prev.len() && prev[m] == j as usize;
                        assert(r@[m] == j as usize);
                    } else if self.groups@[i as int].entries.files@.len() > 1 {
                        assert(r@[r@.len() - 1] == i as usize);
                    }
                }
            }
            i = i + 1;
        }
        r
    }

    /// Return `true` if discovery was stopped prematurely and the results
    /// are only partial.
    pub fn is_partial(&self) -> (r: bool)
        ensures
            r == self.partial,
    {
        self.partial
    }
}

/// All entries of one group of a well-formed result report the same size:
/// the group's own, which is also the first entry's.
pub proof fn lemma_group_sizes_equal(r: DeduperResult, i: int, k: int)
    requires
        r.wf(),
        0 <= i < r.groups@.len(),
        0 <= k < r.groups@[i].entries.files@.len(),
    ensures
        r.groups@[i].entries.files@[k].size == r.groups@[i].size,
        r.groups@[i].entries.files@[k].size == r.groups@[i].entries.files@[0].size,
{
}

/// A path recorded under some key is reported: membership in a group is
/// membership in the result.
pub proof fn lemma_path_in_group_contains(r: DeduperResult, sz: u64, d: Seq<u8>, p: Seq<char>)
    requires
        r.path_in_group(sz, d, p),
    ensures
        r.contains_path(p),
{
    lemma_key_index(r.groups@, sz, d);
    let i = key_index(r.groups@, sz, d);
    assert(0 <= i < r.groups@.len() && group_has_path(r.groups@[i], p));
}

/// Two paths recorded under the same `(size, digest)` key lie in the same
/// group: the one that `key_index` points at.
pub proof fn lemma_same_key_grouped(
    r: DeduperResult,
    size: u64,
    d: Seq<u8>,
    p: Seq<char>,
    q: Seq<char>,
)
    requires
        r.path_in_group(size, d, p),
        r.path_in_group(size, d, q),
    ensures
        r.grouped_together(p, q),
{
    lemma_key_index(r.groups@, size, d);
    let i = key_index(r.groups@, size, d);
    assert(0 <= i < r.groups@.len() && group_has_path(r.groups@[i], p) && group_has_path(
        r.groups@[i],
        q,
    ));
}

} // verus!
