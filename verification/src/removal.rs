//! Removal planning for duplicate groups.
//!
//! The engine reports groups; these planners decide which members of a
//! group to delete.  They work on plain values — sorted path lists, user
//! choices, file contents — and return the indices to remove; performing
//! the deletions and the prompting is the caller's business.

use vstd::prelude::*;
use vstd::string::StrSliceExecFns;

use crate::digest::bytes_equal;

verus! {

/// Which removal workflow the user asked for.
#[derive(Debug, Clone, Copy, PartialEq, Eq, Structural)]
pub enum RemovalKind {
    /// Ask the user about each pair of duplicates.
    Interactive,
    /// Remove duplicates that share the first entry's filename.
    SameFilename,
    /// Remove duplicates only after comparing contents byte by byte.
    Paranoid,
}

/// Whether two strings hold the same characters.
pub fn str_eq(a: &str, b: &str) -> (r: bool)
    ensures
        r == (a@ == b@),
{
    let na = a.unicode_len();
    let nb = b.unicode_len();
    if na != nb {
        assert(a@.len() != b@.len());
        return false;
    }
    let mut i: usize = 0;
    while i < na
        invariant
            na == a@.len(),
            nb == b@.len(),
            na == nb,
            i <= na,
            forall|k: int| 0 <= k < i ==> a@[k] == b@[k],
        decreases na - i,
    {
        if a.get_char(i) != b.get_char(i) {
            return false;
        }
        i = i + 1;
    }
    proof {
        assert(a@ =~= b@);
    }
    true
}

impl RemovalKind {
    /// The command-line option that selects this workflow.
    pub fn as_option(&self) -> (r: &'static str)
        ensures
            self is Interactive ==> r@ == "--remove"@,
            self is SameFilename ==> r@ == "--remove-with-same-filename"@,
            self is Paranoid ==> r@ == "--remove-paranoid"@,
    {
        match self {
            RemovalKind::Interactive => "--remove",
            RemovalKind::SameFilename => "--remove-with-same-filename",
            RemovalKind::Paranoid => "--remove-paranoid",
        }
    }

    /// The workflow a command-line option selects, if any.
    pub fn from_option(opt: &str) -> (r: Option<RemovalKind>)
        ensures
            r == (if opt@ == "--remove"@ || opt@ == "-r"@ {
                Some(RemovalKind::Interactive)
            } else if opt@ == "--remove-with-same-filename"@ {
                Some(RemovalKind::SameFilename)
            } else if opt@ == "--remove-paranoid"@ {
                Some(RemovalKind::Paranoid)
            } else {
                None::<RemovalKind>
            }),
    {
        if str_eq(opt, "--remove") || str_eq(opt, "-r") {
            Some(RemovalKind::Interactive)
        } else if str_eq(opt, "--remove-with-same-filename") {
            Some(RemovalKind::SameFilename)
        } else if str_eq(opt, "--remove-paranoid") {
            Some(RemovalKind::Paranoid)
        } else {
            None
        }
    }
}

/// One answer in the interactive workflow: remove the first of the pair,
/// remove the second, or keep both and move on.
#[derive(Debug, Clone, Copy, PartialEq, Eq, Structural)]
pub enum RemovalChoice {
    /// Remove the first path of the pair.
    First,
    /// Remove the second path of the pair.
    Second,
    /// Keep both and skip to the next pair.
    Skip,
}

/// Parse one line of user input: `1`, `2` or `s`.
pub fn parse_choice(s: &str) -> (r: Option<RemovalChoice>)
    ensures
        r == (if s@ == "1"@ {
            Some(RemovalChoice::First)
        } else if s@ == "2"@ {
            Some(RemovalChoice::Second)
        } else if s@ == "s"@ {
            Some(RemovalChoice::Skip)
        } else {
            None::<RemovalChoice>
        }),
{
    if str_eq(s, "1") {
        Some(RemovalChoice::First)
    } else if str_eq(s, "2") {
        Some(RemovalChoice::Second)
    } else if str_eq(s, "s") {
        Some(RemovalChoice::Skip)
    } else {
        None
    }
}

/// The indices the interactive workflow removes from a sorted group of
/// `n` paths, given the user's answers in order.  The cursor starts on the
/// pair `(0, 1)`; answering that the first (or second) of the pair should
/// go removes that index and advances the pair, and a skip moves past both.
pub open spec fn interactive_plan(i: int, j: int, n: int, cs: Seq<RemovalChoice>) -> Seq<int>
    decreases cs.len(),
{
    if cs.len() == 0 || !(i < j && j < n) {
        Seq::empty()
    } else {
        match cs[0] {
            RemovalChoice::Skip => interactive_plan(j + 1, j + 2, n, cs.drop_first()),
            RemovalChoice::First => seq![i] + interactive_plan(j, j + 1, n, cs.drop_first()),
            RemovalChoice::Second => seq![j] + interactive_plan(i, j + 1, n, cs.drop_first()),
        }
    }
}

/// Walk the pairs of a sorted duplicate group of `n` paths as the
/// interactive workflow does, and return the indices the given answers
/// remove, in order.
#[verifier::loop_isolation(false)]
pub fn interactive_removal_plan(n: usize, choices: &Vec<RemovalChoice>) -> (r: Vec<usize>)
    ensures
        r@.map_values(|x: usize| x as int) == interactive_plan(0, 1, n as int, choices@),
        forall|k: int| 0 <= k < r@.len() ==> (#[trigger] r@[k]) < n,
    decreases n,
{
    let ghost full = interactive_plan(0, 1, n as int, choices@);
    let mut r: Vec<usize> = Vec::new();
    let mut i: usize = 0;
    let mut j: usize = 1;
    let mut c: usize = 0;
    proof {
        assert(choices@.skip(0) =~= choices@);
        assert(r@.map_values(|x: usize| x as int) =~= Seq::<int>::empty());
        assert(full =~= Seq::<int>::empty() + full);
    }
    while c < choices.len() && i < j && j < n
        invariant
            i <= j,
            c <= choices@.len(),
            full =~= r@.map_values(|x: usize| x as int) + interactive_plan(
                i as int,
                j as int,
                n as int,
                choices@.skip(c as int),
            ),
            forall|k: int| 0 <= k < r@.len() ==> (#[trigger] r@[k]) < n,
        decreases choices@.len() - c,
    {
        let ghost rest = choices@.skip(c as int);
        proof {
            assert(rest[0] == choices@[c as int]);
            assert(rest.drop_first() =~= choices@.skip(c + 1));
        }
        let ghost prevmap = r@.map_values(|x: usize| x as int);
        match choices[c] {
            RemovalChoice::Skip => {
                i = j + 1;
                if j <= n - 2 {
                    j = j + 2;
                } else {
                    proof {
                        assert(interactive_plan(i as int, j + 2, n as int, rest.drop_first())
                            =~= Seq::<int>::empty());
                        assert(interactive_plan(i as int, n as int, n as int, rest.drop_first())
                            =~= Seq::<int>::empty());
                    }
                    j = n;
                }
            },
            RemovalChoice::First => {
                r.push(i);
                proof {
                    assert(r@.map_values(|x: usize| x as int) =~= prevmap.push(i as int));
                }
                i = j;
                j = j + 1;
            },
            RemovalChoice::Second => {
                r.push(j);
                proof {
                    assert(r@.map_values(|x: usize| x as int) =~= prevmap.push(j as int));
                }
                j = j + 1;
            },
        }
        c = c + 1;
    }
    proof {
        if c >= choices@.len() {
            assert(choices@.skip(c as int).len() == 0);
        }
        assert(interactive_plan(i as int, j as int, n as int, choices@.skip(c as int))
            =~= Seq::<int>::empty());
        assert(full =~= r@.map_values(|x: usize| x as int));
    }
    r
}

/// The pair cursor of the interactive workflow: the two indices of the
/// sorted group that the user is asked about next.  It advances exactly as
/// [`interactive_plan`] does, so a prompt driven by it stays in lockstep
/// with the plan computed from the collected answers.
pub struct PairCursor {
    /// The first index of the pair.
    pub i: usize,
    /// The second index of the pair.
    pub j: usize,
}

impl PairCursor {
    /// Whether the cursor still points at a pair of a group of `n` paths.
    pub open spec fn live(self, n: int) -> bool {
        self.i < self.j && self.j < n
    }

    /// The starting pair.
    pub fn new() -> (r: PairCursor)
        ensures
            r.i == 0,
            r.j == 1,
    {
        PairCursor { i: 0, j: 1 }
    }

    /// Whether the cursor still points at a pair of a group of `n` paths.
    pub fn is_live(&self, n: usize) -> (r: bool)
        ensures
            r == self.live(n as int),
    {
        self.i < self.j && self.j < n
    }

    /// Apply one answer: report the index the answer removes, if any, and
    /// advance the pair the way [`interactive_plan`] does.
    pub fn step(&mut self, choice: RemovalChoice, n: usize) -> (r: Option<usize>)
        requires
            old(self).live(n as int),
            n < usize::MAX - 1,
        ensures
            choice is Skip ==> r is None && final(self).i == old(self).j + 1 && final(self).j
                == old(self).j + 2,
            choice is First ==> r == Some(old(self).i) && final(self).i == old(self).j
                && final(self).j == old(self).j + 1,
            choice is Second ==> r == Some(old(self).j) && final(self).i == old(self).i
                && final(self).j == old(self).j + 1,
            r matches Some(x) ==> x < n,
    {
        match choice {
            RemovalChoice::Skip => {
                self.i = self.j + 1;
                self.j = self.j + 2;
                None
            },
            RemovalChoice::First => {
                let removed = self.i;
                self.i = self.j;
                self.j = self.j + 1;
                Some(removed)
            },
            RemovalChoice::Second => {
                let removed = self.j;
                self.j = self.j + 1;
                Some(removed)
            },
        }
    }
}

/// The index just past the last path separator of `s`, or 0 if `s` holds
/// none: where the filename starts.
pub open spec fn file_name_start(s: Seq<char>) -> int
    decreases s.len(),
{
    if s.len() == 0 {
        0
    } else if s.last() == '/' {
        s.len() as int
    } else {
        file_name_start(s.drop_last())
    }
}

/// The filename of a path: everything after the last separator.
pub open spec fn file_name_of(s: Seq<char>) -> Seq<char> {
    s.subrange(file_name_start(s), s.len() as int)
}

/// `file_name_start` points just past a separator, and no separator
/// follows it.
pub proof fn lemma_file_name_start(s: Seq<char>)
    ensures
        0 <= file_name_start(s) <= s.len(),
        file_name_start(s) > 0 ==> s[file_name_start(s) - 1] == '/',
        forall|m: int| file_name_start(s) <= m < s.len() ==> s[m] != '/',
    decreases s.len(),
{
    if s.len() > 0 && s.last() != '/' {
        lemma_file_name_start(s.drop_last());
        assert forall|m: int| file_name_start(s) <= m < s.len() implies s[m] != '/' by {
            if m < s.len() - 1 {
                assert(s.drop_last()[m] != '/');
                assert(s[m] == s.drop_last()[m]);
            }
        }
    }
}

/// Return the filename of a path: everything after the last `/`, or the
/// whole path when it has none.  A path that ends in a separator has the
/// empty filename; the walker never yields such a path for a file.
#[verifier::loop_isolation(false)]
pub fn file_name(p: &str) -> (r: String)
    ensures
        r@ == file_name_of(p@),
{
    let n = p.unicode_len();
    let mut k = n;
    let mut cut: usize = 0;
    proof {
        assert(p@.take(n as int) =~= p@);
        if n == 0 {
            assert(file_name_start(p@) == 0);
        }
    }
    while k > 0
        invariant
            k <= n,
            cut <= n,
            n == p@.len(),
            k > 0 ==> cut == 0 && file_name_start(p@) == file_name_start(p@.take(k as int)),
            k == 0 ==> file_name_start(p@) == cut,
        decreases k,
    {
        let ghost pref = p@.take(k as int);
        if p.get_char(k - 1) == '/' {
            proof {
                assert(pref.last() == '/');
                assert(file_name_start(pref) == k);
            }
            cut = k;
            k = 0;
        } else {
            proof {
                assert(pref.last() != '/');
                assert(pref.drop_last() =~= p@.take(k - 1));
                if k == 1 {
                    assert(p@.take(0) =~= Seq::<char>::empty());
                    assert(file_name_start(p@.take(0)) == 0);
                }
            }
            k = k - 1;
        }
    }
    proof {
        assert(file_name_start(p@) == cut);
    }
    let r = p.substring_char(cut, n);
    proof {
        assert(r@ =~= file_name_of(p@));
    }
    r.to_owned()
}

/// The indices the same-filename workflow removes from a sorted duplicate
/// group: every path after the first whose filename equals the first
/// path's filename.
#[verifier::loop_isolation(false)]
pub fn same_filename_removal_plan(paths: &Vec<String>) -> (r: Vec<usize>)
    requires
        paths@.len() > 0,
    ensures
        forall|k: int|
            0 <= k < r@.len() ==> 1 <= (#[trigger] r@[k]) < paths@.len() && file_name_of(
                paths@[r@[k] as int]@,
            ) == file_name_of(paths@[0]@),
        forall|m: int|
            1 <= m < paths@.len() && file_name_of((#[trigger] paths@[m])@) == file_name_of(
                paths@[0]@,
            ) ==> r@.contains(m as usize),
{
    let first = file_name(paths[0].as_str());
    let mut r: Vec<usize> = Vec::new();
    let n = paths.len();
    let mut m: usize = 1;
    while m < n
        invariant
            1 <= m <= n,
            n == paths@.len(),
            first@ == file_name_of(paths@[0]@),
            forall|k: int|
                0 <= k < r@.len() ==> 1 <= (#[trigger] r@[k]) < n && file_name_of(
                    paths@[r@[k] as int]@,
                ) == file_name_of(paths@[0]@),
            forall|m2: int|
                1 <= m2 < m && file_name_of((#[trigger] paths@[m2])@) == file_name_of(paths@[0]@)
                    ==> r@.contains(m2 as usize),
        decreases n - m,
    {
        let ghost prevr = r@;
        let fname = file_name(paths[m].as_str());
        if str_eq(fname.as_str(), first.as_str()) {
            r.push(m);
        }
        proof {
            assert forall|m2: int|
                1 <= m2 <= m && file_name_of((#[trigger] paths@[m2])@) == file_name_of(
                    paths@[0]@,
                ) implies r@.contains(m2 as usize) by {
                if m2 < m {
                    let k = choose|k: int| 0 <= k < prevr.len() && prevr[k] == m2 as usize;
                    assert(r@[k] == m2 as usize);
                } else {
                    assert(r@[r@.len() - 1] == m2 as usize);
                }
            }
        }
        m = m + 1;
    }
    r
}

/// Whether two files hold the same bytes.  This is the byte-comparator of
/// the paranoid workflow: equal exactly when the contents agree at every
/// offset and end together.
pub fn same_content(a: &[u8], b: &[u8]) -> (r: bool)
    ensures
        r == (a@ == b@),
{
    bytes_equal(a, b)
}

/// The indices the paranoid workflow removes from a sorted duplicate
/// group, given the members' contents: every entry after the first whose
/// content equals the first entry's, byte for byte.
#[verifier::loop_isolation(false)]
pub fn paranoid_removal_plan(contents: &Vec<Vec<u8>>) -> (r: Vec<usize>)
    requires
        contents@.len() > 0,
    ensures
        forall|k: int|
            0 <= k < r@.len() ==> 1 <= (#[trigger] r@[k]) < contents@.len()
                && contents@[r@[k] as int]@ == contents@[0]@,
        forall|m: int|
            1 <= m < contents@.len() && (#[trigger] contents@[m])@ == contents@[0]@
                ==> r@.contains(m as usize),
{
    let mut r: Vec<usize> = Vec::new();
    let n = contents.len();
    let mut m: usize = 1;
    while m < n
        invariant
            1 <= m <= n,
            n == contents@.len(),
            forall|k: int|
                0 <= k < r@.len() ==> 1 <= (#[trigger] r@[k]) < n && contents@[r@[k] as int]@
                    == contents@[0]@,
            forall|m2: int|
                1 <= m2 < m && (#[trigger] contents@[m2])@ == contents@[0]@ ==> r@.contains(
                    m2 as usize,
                ),
        decreases n - m,
    {
        let ghost prevr = r@;
        if same_content(contents[m].as_slice(), contents[0].as_slice()) {
            r.push(m);
        }
        proof {
            assert forall|m2: int|
                1 <= m2 <= m && (#[trigger] contents@[m2])@ == contents@[0]@ implies r@.contains(
                m2 as usize,
            ) by {
                if m2 < m {
                    let k = choose|k: int| 0 <= k < prevr.len() && prevr[k] == m2 as usize;
                    assert(r@[k] == m2 as usize);
                } else {
                    assert(r@[r@.len() - 1] == m2 as usize);
                }
            }
        }
        m = m + 1;
    }
    r
}

} // verus!
