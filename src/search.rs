//! Collecting candidate directories from the path index and the usage store.

use vstd::prelude::*;
use crate::entry::{
    DirectoryEntry, DirectorySearcher, SearchResult, entry_paths, entry_views, is_ranked,
};
use crate::error::CddError;
use crate::store::{FrequencyMap, keys_distinct, lists};
use crate::text::{folded_contains, folded_match, lines, text_lines, views};

verus! {

broadcast use vstd::seq_lib::group_to_multiset_ensures;

/// The count that the store holds for `p`, 0 when it holds none.
pub open spec fn count_of(m: Map<Seq<char>, u32>, p: Seq<char>) -> u32 {
    if m.contains_key(p) {
        m[p]
    } else {
        0
    }
}

/// `p` is a directory that a search for `pattern` yields: it is a directory,
/// and either the index returned it or the store holds it and it contains the
/// pattern, ignoring case.
pub open spec fn found_directory(
    pattern: Seq<char>,
    located: Seq<Seq<char>>,
    dirs: Seq<Seq<char>>,
    m: Map<Seq<char>, u32>,
    p: Seq<char>,
) -> bool {
    dirs.contains(p) && (located.contains(p) || (m.contains_key(p) && folded_match(pattern, p)))
}

/// How many of the index's paths are not directories.
pub open spec fn count_files(located: Seq<Seq<char>>, dirs: Seq<Seq<char>>) -> nat
    decreases located.len(),
{
    if located.len() == 0 {
        0
    } else {
        count_files(located.drop_last(), dirs) + if dirs.contains(located.last()) {
            0nat
        } else {
            1nat
        }
    }
}

/// Whether `v` holds `s`.
pub(crate) fn member(v: &Vec<String>, s: &String) -> (r: bool)
    ensures
        r == views(v@).contains(s@),
{
    let mut i: usize = 0;
    while i < v.len()
        invariant
            i <= v.len(),
            forall|k: int| 0 <= k < i ==> #[trigger] v@[k]@ != s@,
        decreases v.len() - i,
    {
        if v[i] == *s {
            assert(views(v@)[i as int] == s@);
            return true;
        }
        i += 1;
    }
    proof {
        if views(v@).contains(s@) {
            let k = choose|k: int| 0 <= k < views(v@).len() && views(v@)[k] == s@;
            assert(v@[k]@ == s@);
        }
    }
    false
}

/// The paths of a sequence of entry views.
pub open spec fn paths_of(s: Seq<(Seq<char>, u32)>) -> Seq<Seq<char>> {
    s.map_values(|x: (Seq<char>, u32)| x.0)
}

/// Entries built from distinct paths, each with its count, keep these
/// properties through any reordering that keeps their multiset.
pub(crate) proof fn lemma_reordered(
    built: Seq<(Seq<char>, u32)>,
    ranked: Seq<(Seq<char>, u32)>,
    m: Map<Seq<char>, u32>,
)
    requires
        paths_of(built).no_duplicates(),
        forall|k: int| 0 <= k < built.len() ==> (#[trigger] built[k]).1 == count_of(m, built[k].0),
        ranked.to_multiset() == built.to_multiset(),
    ensures
        keys_distinct(ranked),
        forall|k: int| 0 <= k < ranked.len() ==> (#[trigger] ranked[k]).1 == count_of(m, ranked[k].0),
        forall|p: Seq<char>|
            #[trigger] paths_of(ranked).contains(p) <==> paths_of(built).contains(p),
{
    let rkeys = paths_of(ranked);
    let keys = paths_of(built);
    assert(built.no_duplicates()) by {
        assert forall|a: int, b: int| 0 <= a < built.len() && 0 <= b < built.len() && a != b implies built[a] != built[b] by {
            assert(keys[a] != keys[b]);
        }
    }
    built.lemma_multiset_has_no_duplicates();
    ranked.lemma_multiset_has_no_duplicates_conv();
    assert forall|k: int| 0 <= k < ranked.len() implies built.contains(#[trigger] ranked[k]) by {
        assert(ranked.to_multiset().count(ranked[k]) > 0);
    }
    assert forall|k: int| 0 <= k < ranked.len() implies (#[trigger] ranked[k]).1 == count_of(m, ranked[k].0) by {
        assert(built.contains(ranked[k]));
    }
    assert forall|a: int, b: int| 0 <= a < ranked.len() && 0 <= b < ranked.len() && a != b implies ranked[a].0 != ranked[b].0 by {
        assert(built.contains(ranked[a]));
        assert(built.contains(ranked[b]));
    }
    assert forall|p: Seq<char>| keys.contains(p) implies rkeys.contains(p) by {
        let a = choose|a: int| 0 <= a < keys.len() && keys[a] == p;
        assert(built.to_multiset().count(built[a]) > 0);
        assert(ranked.contains(built[a]));
        let k = choose|k: int| 0 <= k < ranked.len() && ranked[k] == built[a];
        assert(rkeys[k] == p);
    }
    assert forall|p: Seq<char>| rkeys.contains(p) implies keys.contains(p) by {
        let k = choose|k: int| 0 <= k < rkeys.len() && rkeys[k] == p;
        assert(built.contains(ranked[k]));
        let a = choose|a: int| 0 <= a < built.len() && built[a] == ranked[k];
        assert(keys[a] == p);
    }
}

impl DirectorySearcher {
    /// Merges the index's paths with the store's: `located` is what the index
    /// returned for `pattern`, `directories` the paths that the file system
    /// reports as directories (among those of the index and those of
    /// `recall_candidates`). The result holds each directory found once, with
    /// its count, ranked; the index's other paths are counted as filtered
    /// files. Finding no directory is `NoDirectoriesFound`.
    pub fn search(
        pattern: &str,
        located: &Vec<String>,
        directories: &Vec<String>,
        frequency_map: &FrequencyMap,
    ) -> (r: Result<SearchResult, CddError>)
        requires
            frequency_map.wf(),
        ensures
            match r {
                Err(e) => e == CddError::NoDirectoriesFound && forall|p: Seq<char>|
                    !found_directory(
                        pattern@,
                        views(located@),
                        views(directories@),
                        frequency_map@,
                        p,
                    ),
                Ok(res) => {
                    &&& res.directories.len() > 0
                    &&& res.files_filtered == count_files(views(located@), views(directories@))
                    &&& is_ranked(entry_views(res.directories@))
                    &&& keys_distinct(entry_views(res.directories@))
                    &&& forall|i: int|
                        0 <= i < res.directories.len() ==> (#[trigger] res.directories@[i]).count
                            == count_of(frequency_map@, res.directories@[i].path@)
                    &&& forall|p: Seq<char>|
                        entry_paths(res.directories@).contains(p) <==> found_directory(
                            pattern@,
                            views(located@),
                            views(directories@),
                            frequency_map@,
                            p,
                        )
                },
            },
    {
        let ghost l = views(located@);
        let ghost d = views(directories@);
        let ghost m = frequency_map@;
        let mut unique: Vec<String> = Vec::new();
        let mut files_filtered: usize = 0;
        let mut i: usize = 0;
        assert(l.subrange(0, 0) =~= Seq::<Seq<char>>::empty());
        while i < located.len()
            invariant
                l == views(located@),
                d == views(directories@),
                m == frequency_map@,
                i <= located.len(),
                views(unique@).no_duplicates(),
                forall|q: Seq<char>| #[trigger] views(unique@).contains(q) ==> found_directory(pattern@, l, d, m, q),
                forall|k: int| 0 <= k < i && d.contains(#[trigger] l[k]) ==> views(unique@).contains(l[k]),
                files_filtered == count_files(l.subrange(0, i as int), d),
                files_filtered <= i,
            decreases located.len() - i,
        {
            let ghost before = unique@;
            assert(l.subrange(0, i + 1).drop_last() =~= l.subrange(0, i as int));
            assert(l[i as int] == located@[i as int]@);
            assert(l.contains(l[i as int]));
            if member(directories, &located[i]) {
                if !member(&unique, &located[i]) {
                    unique.push(located[i].clone());
                    assert(views(unique@) =~= views(before).push(l[i as int]));
                    assert(views(unique@)[views(unique@).len() - 1] == l[i as int]);
                    assert forall|q: Seq<char>| views(before).contains(q) implies #[trigger] views(unique@).contains(q) by {
                        let a = choose|a: int| 0 <= a < views(before).len() && views(before)[a] == q;
                        assert(views(unique@)[a] == q);
                    }
                }
                assert(views(unique@).contains(l[i as int]));
            } else {
                files_filtered += 1;
            }
            assert forall|q: Seq<char>| #[trigger] views(unique@).contains(q) implies found_directory(pattern@, l, d, m, q) by {
                if views(before).contains(q) {
                } else {
                    assert(q == l[i as int]);
                }
            }
            assert forall|k: int| 0 <= k < i + 1 && d.contains(#[trigger] l[k]) implies views(unique@).contains(l[k]) by {
                if k < i {
                    assert(views(before).contains(l[k]));
                    let q = choose|q: int| 0 <= q < views(before).len() && views(before)[q] == l[k];
                    assert(views(unique@)[q] == l[k]);
                }
            }
            i += 1;
        }
        assert(l.subrange(0, i as int) =~= l);
        let entries = frequency_map.entries();
        let mut j: usize = 0;
        while j < entries.len()
            invariant
                l == views(located@),
                d == views(directories@),
                m == frequency_map@,
                lists(m, entry_views(entries@)),
                j <= entries.len(),
                views(unique@).no_duplicates(),
                forall|q: Seq<char>| #[trigger] views(unique@).contains(q) ==> found_directory(pattern@, l, d, m, q),
                forall|k: int| 0 <= k < l.len() && d.contains(#[trigger] l[k]) ==> views(unique@).contains(l[k]),
                forall|k: int|
                    0 <= k < j && d.contains(#[trigger] entries@[k].path@) && folded_match(pattern@, entries@[k].path@)
                        ==> views(unique@).contains(entries@[k].path@),
            decreases entries.len() - j,
        {
            let ghost before = unique@;
            let ghost p = entries@[j as int].path@;
            assert(entry_views(entries@)[j as int].0 == p);
            assert(m.contains_key(p));
            if folded_contains(entries[j].path.as_str(), pattern) && member(directories, &entries[j].path) {
                if !member(&unique, &entries[j].path) {
                    unique.push(entries[j].path.clone());
                    assert(views(unique@) =~= views(before).push(p));
                    assert(views(unique@)[views(unique@).len() - 1] == p);
                }
                assert(views(unique@).contains(p));
            }
            assert forall|q: Seq<char>| #[trigger] views(unique@).contains(q) implies found_directory(pattern@, l, d, m, q) by {
                if views(before).contains(q) {
                } else {
                    assert(q == p);
                }
            }
            assert forall|q: Seq<char>| views(before).contains(q) implies #[trigger] views(unique@).contains(q) by {
                let a = choose|a: int| 0 <= a < views(before).len() && views(before)[a] == q;
                assert(views(unique@)[a] == q);
            }
            j += 1;
        }
        proof {
            assert forall|p: Seq<char>| found_directory(pattern@, l, d, m, p) implies #[trigger] views(unique@).contains(p) by {
                if l.contains(p) {
                    let k = choose|k: int| 0 <= k < l.len() && l[k] == p;
                    assert(d.contains(l[k]));
                } else {
                    let k = choose|k: int| 0 <= k < entry_views(entries@).len() && entry_views(entries@)[k].0 == p;
                    assert(entries@[k].path@ == p);
                }
            }
        }
        if unique.len() == 0 {
            assert forall|p: Seq<char>| !found_directory(pattern@, l, d, m, p) by {
                if found_directory(pattern@, l, d, m, p) {
                    assert(views(unique@).contains(p));
                }
            }
            return Err(CddError::NoDirectoriesFound);
        }
        let mut built: Vec<DirectoryEntry> = Vec::new();
        let mut k: usize = 0;
        while k < unique.len()
            invariant
                m == frequency_map@,
                frequency_map.wf(),
                k <= unique.len(),
                built.len() == k,
                forall|a: int| 0 <= a < k ==> (#[trigger] built@[a])@ == (unique@[a]@, count_of(m, unique@[a]@)),
            decreases unique.len() - k,
        {
            let count: u32 = match frequency_map.get(unique[k].as_str()) {
                Some(c) => c,
                None => 0,
            };
            built.push(DirectoryEntry::new(unique[k].clone(), count));
            k += 1;
        }
        let ghost built_view = entry_views(built@);
        assert(paths_of(built_view) =~= views(unique@));
        DirectorySearcher::sort_directories(&mut built);
        proof {
            lemma_reordered(built_view, entry_views(built@), m);
            assert(entry_paths(built@) =~= paths_of(entry_views(built@)));
            assert forall|a: int| 0 <= a < built.len() implies (#[trigger] built@[a]).count == count_of(m, built@[a].path@) by {
                assert(entry_views(built@)[a] == built@[a]@);
            }
            assert(built_view.len() == built_view.to_multiset().len());
            assert(entry_views(built@).len() == entry_views(built@).to_multiset().len());
        }
        Ok(SearchResult::new(built, files_filtered))
    }

    /// The paths that the external index printed, one per line.
    pub fn parse_lookup_output(stdout: &str) -> (r: Vec<String>)
        ensures
            views(r@) == lines(stdout@),
    {
        text_lines(stdout)
    }

    /// The paths of the store that contain `pattern`, ignoring case: those
    /// whose directories a search has to probe besides the index's.
    pub fn recall_candidates(pattern: &str, frequency_map: &FrequencyMap) -> (r: Vec<String>)
        requires
            frequency_map.wf(),
        ensures
            forall|p: Seq<char>|
                views(r@).contains(p) <==> frequency_map@.contains_key(p) && folded_match(
                    pattern@,
                    p,
                ),
    {
        let entries = frequency_map.entries();
        let mut out: Vec<String> = Vec::new();
        let mut j: usize = 0;
        while j < entries.len()
            invariant
                j <= entries.len(),
                lists(frequency_map@, entry_views(entries@)),
                forall|p: Seq<char>|
                    views(out@).contains(p) <==> exists|k: int|
                        0 <= k < j && #[trigger] entries@[k].path@ == p && folded_match(pattern@, p),
            decreases entries.len() - j,
        {
            let ghost before = out@;
            let hit = folded_contains(entries[j].path.as_str(), pattern);
            if hit {
                out.push(entries[j].path.clone());
                assert(views(out@) =~= views(before).push(entries@[j as int].path@));
            }
            assert(!hit ==> out@ == before);
            assert forall|p: Seq<char>|
                views(out@).contains(p) <== exists|k: int|
                    0 <= k < j + 1 && #[trigger] entries@[k].path@ == p && folded_match(pattern@, p) by {
                if exists|k: int| 0 <= k < j + 1 && #[trigger] entries@[k].path@ == p && folded_match(pattern@, p) {
                    let k = choose|k: int| 0 <= k < j + 1 && #[trigger] entries@[k].path@ == p && folded_match(pattern@, p);
                    if k < j {
                        assert(0 <= k < j && entries@[k].path@ == p && folded_match(pattern@, p));
                        assert(views(before).contains(p));
                        let q = choose|q: int| 0 <= q < views(before).len() && views(before)[q] == p;
                        assert(views(out@)[q] == p);
                    } else {
                        assert(views(out@)[views(out@).len() - 1] == p);
                    }
                }
            }
            assert forall|p: Seq<char>|
                views(out@).contains(p) implies exists|k: int|
                    0 <= k < j + 1 && #[trigger] entries@[k].path@ == p && folded_match(pattern@, p) by {
                let q = choose|q: int| 0 <= q < views(out@).len() && views(out@)[q] == p;
                if q < views(before).len() {
                    assert(views(before)[q] == p);
                    assert(views(before).contains(p));
                    let k = choose|k: int| 0 <= k < j && #[trigger] entries@[k].path@ == p && folded_match(pattern@, p);
                    assert(0 <= k < j + 1 && entries@[k].path@ == p);
                } else {
                    assert(entries@[j as int].path@ == p);
                }
            }
            j += 1;
        }
        proof {
            assert forall|p: Seq<char>|
                frequency_map@.contains_key(p) && folded_match(pattern@, p) implies views(out@).contains(p) by {
                let k = choose|k: int| 0 <= k < entry_views(entries@).len() && entry_views(entries@)[k].0 == p;
                assert(entries@[k].path@ == p);
            }
            assert forall|p: Seq<char>| views(out@).contains(p) implies frequency_map@.contains_key(p) by {
                let k = choose|k: int| 0 <= k < j && #[trigger] entries@[k].path@ == p && folded_match(pattern@, p);
                assert(entry_views(entries@)[k].0 == p);
            }
        }
        out
    }
}

} // verus!
