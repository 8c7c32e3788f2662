//! Directory entries, search results and the order in which they are ranked.

use vstd::prelude::*;
use vstd::utf8::encode_utf8;

verus! {

broadcast use vstd::seq_lib::group_to_multiset_ensures;

/// A candidate directory and how often it was chosen before.
#[derive(Debug, Clone, PartialEq, Eq)]
pub struct DirectoryEntry {
    pub path: String,
    pub count: u32,
}

impl View for DirectoryEntry {
    type V = (Seq<char>, u32);

    open spec fn view(&self) -> (Seq<char>, u32) {
        (self.path@, self.count)
    }
}

impl DirectoryEntry {
    pub fn new(path: String, count: u32) -> (r: Self)
        ensures
            r.path == path,
            r.count == count,
    {
        Self { path, count }
    }
}

/// The directories that a search found, ranked, and how many matches were
/// left out because they are not directories.
#[derive(Debug, Clone)]
pub struct SearchResult {
    pub directories: Vec<DirectoryEntry>,
    pub files_filtered: usize,
}

impl SearchResult {
    pub fn new(directories: Vec<DirectoryEntry>, files_filtered: usize) -> (r: Self)
        ensures
            r.directories == directories,
            r.files_filtered == files_filtered,
    {
        Self { directories, files_filtered }
    }

    /// The highest-ranked directory, if there is one.
    pub fn best(&self) -> (r: Option<&DirectoryEntry>)
        ensures
            self.directories.len() == 0 ==> r is None,
            self.directories.len() > 0 ==> r == Some(&self.directories[0]),
    {
        if self.directories.len() == 0 {
            None
        } else {
            Some(&self.directories[0])
        }
    }
}

/// The length of a path in bytes of UTF-8, as `str::len` gives it.
pub open spec fn path_len(p: Seq<char>) -> usize {
    encode_utf8(p).len() as usize
}

/// `a` may stand before `b`: more uses first, then the shorter path.
pub open spec fn ranks_before(a: (Seq<char>, u32), b: (Seq<char>, u32)) -> bool {
    a.1 > b.1 || (a.1 == b.1 && path_len(a.0) <= path_len(b.0))
}

/// Every entry may stand before every later one.
pub open spec fn is_ranked(s: Seq<(Seq<char>, u32)>) -> bool {
    forall|i: int, j: int| 0 <= i < j < s.len() ==> ranks_before(#[trigger] s[i], #[trigger] s[j])
}

/// The views of a sequence of entries.
pub open spec fn entry_views(v: Seq<DirectoryEntry>) -> Seq<(Seq<char>, u32)> {
    v.map_values(|e: DirectoryEntry| e@)
}

/// The paths of a sequence of entries.
pub open spec fn entry_paths(v: Seq<DirectoryEntry>) -> Seq<Seq<char>> {
    v.map_values(|e: DirectoryEntry| e.path@)
}

/// Whether `a` may stand before `b`.
pub fn ranks_ahead(a: &DirectoryEntry, b: &DirectoryEntry) -> (r: bool)
    ensures
        r == ranks_before(a@, b@),
{
    a.count > b.count || (a.count == b.count && a.path.as_str().len() <= b.path.as_str().len())
}

/// Ranking and collecting of candidate directories.
pub struct DirectorySearcher;

impl DirectorySearcher {
    /// Orders the entries by count, highest first, then by path length,
    /// shortest first. Equal entries keep a fixed order for the same input.
    pub fn sort_directories(directories: &mut Vec<DirectoryEntry>)
        ensures
            final(directories)@.len() == old(directories)@.len(),
            entry_views(final(directories)@).to_multiset() == entry_views(
                old(directories)@,
            ).to_multiset(),
            is_ranked(entry_views(final(directories)@)),
            forall|i: int|
                0 <= i < final(directories)@.len() - 1 ==> ranks_before(
                    #[trigger] final(directories)@[i]@,
                    final(directories)@[i + 1]@,
                ),
    {
        let ghost orig = entry_views(directories@);
        let mut out: Vec<DirectoryEntry> = Vec::new();
        assert(entry_views(out@).to_multiset().add(entry_views(directories@).to_multiset())
            =~= orig.to_multiset());
        while directories.len() > 0
            invariant
                entry_views(out@).to_multiset().add(entry_views(directories@).to_multiset())
                    == orig.to_multiset(),
                is_ranked(entry_views(out@)),
                forall|i: int, j: int|
                    0 <= i < out.len() && 0 <= j < directories.len() ==> ranks_before(
                        #[trigger] out@[i]@,
                        #[trigger] directories@[j]@,
                    ),
            decreases directories.len(),
        {
            let mut m: usize = 0;
            let mut j: usize = 1;
            while j < directories.len()
                invariant
                    0 <= m < j <= directories.len(),
                    forall|k: int| 0 <= k < j ==> ranks_before(directories@[m as int]@, #[trigger] directories@[k]@),
                decreases directories.len() - j,
            {
                if !ranks_ahead(&directories[m], &directories[j]) {
                    m = j;
                }
                j += 1;
            }
            let ghost before = directories@;
            let ghost out_before = out@;
            let e = directories.remove(m);
            proof {
                assert(entry_views(directories@) =~= entry_views(before).remove(m as int));
                assert(entry_views(before)[m as int] == e@);
            }
            out.push(e);
            proof {
                assert(entry_views(out@) =~= entry_views(out_before).push(e@));
                assert(entry_views(out@).to_multiset().add(entry_views(directories@).to_multiset())
                    =~= orig.to_multiset());
                assert forall|i: int, j: int|
                    0 <= i < out.len() && 0 <= j < directories.len() implies ranks_before(
                        #[trigger] out@[i]@,
                        #[trigger] directories@[j]@,
                    ) by {
                    if i < out.len() - 1 {
                        if j < m {
                            assert(directories@[j] == before[j]);
                        } else {
                            assert(directories@[j] == before[j + 1]);
                        }
                    } else if j < m {
                        assert(directories@[j] == before[j]);
                    } else {
                        assert(directories@[j] == before[j + 1]);
                    }
                }
                assert forall|i: int, j: int|
                    0 <= i < j < out.len() implies ranks_before(
                        #[trigger] entry_views(out@)[i],
                        #[trigger] entry_views(out@)[j],
                    ) by {
                    if j < out.len() - 1 {
                        assert(entry_views(out@)[i] == entry_views(out_before)[i]);
                        assert(entry_views(out@)[j] == entry_views(out_before)[j]);
                    } else {
                        assert(out@[i] == out_before[i]);
                        assert(before[m as int] == e);
                    }
                }
            }
        }
        assert(entry_views(directories@) =~= Seq::<(Seq<char>, u32)>::empty());
        assert(entry_views(out@).to_multiset() =~= orig.to_multiset());
        assert(out@.len() == entry_views(out@).to_multiset().len());
        assert(orig.len() == orig.to_multiset().len());
        assert forall|i: int| 0 <= i < out@.len() - 1 implies ranks_before(
            #[trigger] out@[i]@,
            out@[i + 1]@,
        ) by {
            assert(entry_views(out@)[i] == out@[i]@);
            assert(entry_views(out@)[i + 1] == out@[i + 1]@);
        }
        *directories = out;
    }
}

} // verus!
