//! The usage store: how often each directory was chosen.

use vstd::prelude::*;
use crate::entry::{DirectoryEntry, entry_views};

verus! {

/// The mapping that a sequence of records gives when each is stored in turn,
/// a later record of a path replacing an earlier one.
pub open spec fn map_of(s: Seq<(Seq<char>, u32)>) -> Map<Seq<char>, u32>
    decreases s.len(),
{
    if s.len() == 0 {
        Map::empty()
    } else {
        map_of(s.drop_last()).insert(s.last().0, s.last().1)
    }
}

/// No path occurs twice among the records.
pub open spec fn keys_distinct(s: Seq<(Seq<char>, u32)>) -> bool {
    forall|i: int, j: int| 0 <= i < s.len() && 0 <= j < s.len() && i != j ==> s[i].0 != s[j].0
}

/// `s` lists the mapping `m`: each of its paths once, with its count.
pub open spec fn lists(m: Map<Seq<char>, u32>, s: Seq<(Seq<char>, u32)>) -> bool {
    &&& keys_distinct(s)
    &&& forall|i: int|
        0 <= i < s.len() ==> m.contains_key(#[trigger] s[i].0) && m[s[i].0] == s[i].1
    &&& forall|k: Seq<char>| #[trigger] m.contains_key(k) ==> exists|i: int| 0 <= i < s.len() && s[i].0 == k
}

/// A listing determines the mapping.
pub proof fn lemma_lists_unique(m1: Map<Seq<char>, u32>, m2: Map<Seq<char>, u32>, s: Seq<(Seq<char>, u32)>)
    requires
        lists(m1, s),
        lists(m2, s),
    ensures
        m1 == m2,
{
    assert forall|k: Seq<char>| m1.contains_key(k) implies m2.contains_key(k) && m1[k] == m2[k] by {
        let i = choose|i: int| 0 <= i < s.len() && s[i].0 == k;
        assert(m2.contains_key(s[i].0));
    }
    assert forall|k: Seq<char>| m2.contains_key(k) implies m1.contains_key(k) by {
        let i = choose|i: int| 0 <= i < s.len() && s[i].0 == k;
        assert(m1.contains_key(s[i].0));
    }
    assert(m1 =~= m2);
}

/// Records with distinct paths list the mapping that they give.
pub proof fn lemma_map_of_lists(s: Seq<(Seq<char>, u32)>)
    requires
        keys_distinct(s),
    ensures
        lists(map_of(s), s),
    decreases s.len(),
{
    if s.len() > 0 {
        let t = s.drop_last();
        assert(keys_distinct(t)) by {
            assert forall|i: int, j: int| 0 <= i < t.len() && 0 <= j < t.len() && i != j implies t[i].0 != t[j].0 by {
                assert(t[i] == s[i] && t[j] == s[j]);
            }
        }
        lemma_map_of_lists(t);
        let m = map_of(s);
        assert forall|i: int| 0 <= i < s.len() implies m.contains_key(#[trigger] s[i].0) && m[s[i].0] == s[i].1 by {
            if i < s.len() - 1 {
                assert(t[i] == s[i]);
                assert(s[i].0 != s.last().0);
            }
        }
        assert forall|k: Seq<char>| #[trigger] m.contains_key(k) implies exists|i: int| 0 <= i < s.len() && s[i].0 == k by {
            if k != s.last().0 {
                assert(map_of(t).contains_key(k));
                let i = choose|i: int| 0 <= i < t.len() && t[i].0 == k;
                assert(s[i] == t[i]);
            } else {
                assert(s[s.len() - 1].0 == k);
            }
        }
    }
}

/// The usage counts of directories, by path.
pub struct FrequencyMap {
    entries: Vec<DirectoryEntry>,
}

impl View for FrequencyMap {
    type V = Map<Seq<char>, u32>;

    closed spec fn view(&self) -> Map<Seq<char>, u32> {
        map_of(entry_views(self.entries@))
    }
}

impl FrequencyMap {
    /// Each path is held once.
    pub closed spec fn wf(&self) -> bool {
        keys_distinct(entry_views(self.entries@))
    }

    proof fn lemma_lists(&self)
        requires
            self.wf(),
        ensures
            lists(self@, entry_views(self.entries@)),
    {
        lemma_map_of_lists(entry_views(self.entries@));
    }

    /// The empty store.
    pub fn new() -> (r: Self)
        ensures
            r.wf(),
            r@ == Map::<Seq<char>, u32>::empty(),
    {
        FrequencyMap { entries: Vec::new() }
    }

    /// The entries of the store, each path once, in an unspecified order.
    pub fn entries(&self) -> (r: &Vec<DirectoryEntry>)
        requires
            self.wf(),
        ensures
            lists(self@, entry_views(r@)),
    {
        proof {
            self.lemma_lists();
        }
        &self.entries
    }

    fn find(&self, path: &String) -> (r: Option<usize>)
        requires
            self.wf(),
        ensures
            match r {
                Some(i) => i < self.entries.len() && self.entries@[i as int].path@ == path@,
                None => !self@.contains_key(path@),
            },
    {
        proof {
            self.lemma_lists();
        }
        let mut i: usize = 0;
        while i < self.entries.len()
            invariant
                i <= self.entries.len(),
                forall|j: int| 0 <= j < i ==> #[trigger] self.entries@[j].path@ != path@,
            decreases self.entries.len() - i,
        {
            if self.entries[i].path == *path {
                return Some(i);
            }
            i += 1;
        }
        proof {
            if self@.contains_key(path@) {
                let j = choose|j: int| 0 <= j < entry_views(self.entries@).len() && entry_views(self.entries@)[j].0 == path@;
                assert(self.entries@[j].path@ == path@);
            }
        }
        None
    }

    /// The count stored for `path`.
    pub fn get(&self, path: &str) -> (r: Option<u32>)
        requires
            self.wf(),
        ensures
            r == (if self@.contains_key(path@) { Some(self@[path@]) } else { None::<u32> }),
    {
        let key = path.to_owned();
        proof {
            self.lemma_lists();
        }
        match self.find(&key) {
            Some(i) => {
                assert(entry_views(self.entries@)[i as int].0 == path@);
                Some(self.entries[i].count)
            },
            None => None,
        }
    }

    /// Whether `path` has a count.
    pub fn contains_key(&self, path: &str) -> (r: bool)
        requires
            self.wf(),
        ensures
            r == self@.contains_key(path@),
    {
        self.get(path).is_some()
    }

    /// Stores `count` for `path`, replacing what was there.
    pub fn insert(&mut self, path: &str, count: u32)
        requires
            old(self).wf(),
        ensures
            final(self).wf(),
            final(self)@ == old(self)@.insert(path@, count),
    {
        let key = path.to_owned();
        proof {
            self.lemma_lists();
        }
        let ghost old_s = entry_views(self.entries@);
        let ghost old_view = self@;
        let ghost target = self@.insert(path@, count);
        match self.find(&key) {
            Some(i) => {
                self.entries.set(i, DirectoryEntry::new(key, count));
                let ghost s = entry_views(self.entries@);
                assert(s =~= old_s.update(i as int, (path@, count)));
                assert(old_s[i as int].0 == path@);
                assert(lists(target, s)) by {
                    assert forall|j: int| 0 <= j < s.len() && j != i implies #[trigger] s[j] == old_s[j] && s[j].0 != path@ by {
                    }
                    assert forall|j: int| 0 <= j < s.len() implies target.contains_key(#[trigger] s[j].0) && target[s[j].0] == s[j].1 by {
                        if j != i {
                            assert(s[j] == old_s[j]);
                        }
                    }
                    assert forall|k: Seq<char>| #[trigger] target.contains_key(k) implies exists|j: int| 0 <= j < s.len() && s[j].0 == k by {
                        if k != path@ {
                            let j = choose|j: int| 0 <= j < old_s.len() && old_s[j].0 == k;
                            assert(s[j].0 == k);
                        } else {
                            assert(s[i as int].0 == k);
                        }
                    }
                }
            },
            None => {
                self.entries.push(DirectoryEntry::new(key, count));
                let ghost s = entry_views(self.entries@);
                assert(s =~= old_s.push((path@, count)));
                assert(lists(target, s)) by {
                    assert forall|j: int| 0 <= j < old_s.len() implies #[trigger] old_s[j].0 != path@ by {
                        assert(old_view.contains_key(old_s[j].0));
                    }
                    assert forall|j: int| 0 <= j < s.len() implies target.contains_key(#[trigger] s[j].0) && target[s[j].0] == s[j].1 by {
                        if j < old_s.len() {
                            assert(s[j] == old_s[j]);
                        }
                    }
                    assert forall|k: Seq<char>| #[trigger] target.contains_key(k) implies exists|j: int| 0 <= j < s.len() && s[j].0 == k by {
                        if k != path@ {
                            let j = choose|j: int| 0 <= j < old_s.len() && old_s[j].0 == k;
                            assert(s[j].0 == k);
                        } else {
                            assert(s[s.len() - 1].0 == k);
                        }
                    }
                }
            },
        }
        proof {
            self.lemma_lists();
            lemma_lists_unique(self@, target, entry_views(self.entries@));
        }
    }

    /// Removes `path` and its count; nothing happens when it is absent.
    pub fn remove(&mut self, path: &str)
        requires
            old(self).wf(),
        ensures
            final(self).wf(),
            final(self)@ == old(self)@.remove(path@),
    {
        let key = path.to_owned();
        proof {
            self.lemma_lists();
        }
        let ghost old_s = entry_views(self.entries@);
        let ghost target = self@.remove(path@);
        match self.find(&key) {
            Some(i) => {
                self.entries.remove(i);
                let ghost s = entry_views(self.entries@);
                assert(s =~= old_s.remove(i as int));
                assert(old_s[i as int].0 == path@);
                assert(lists(target, s)) by {
                    assert forall|j: int| 0 <= j < s.len() implies target.contains_key(#[trigger] s[j].0) && target[s[j].0] == s[j].1 by {
                        if j < i {
                            assert(s[j] == old_s[j]);
                        } else {
                            assert(s[j] == old_s[j + 1]);
                        }
                    }
                    assert forall|k: Seq<char>| #[trigger] target.contains_key(k) implies exists|j: int| 0 <= j < s.len() && s[j].0 == k by {
                        let j = choose|j: int| 0 <= j < old_s.len() && old_s[j].0 == k;
                        if j < i {
                            assert(s[j].0 == k);
                        } else {
                            assert(s[j - 1].0 == k);
                        }
                    }
                }
                proof {
                    self.lemma_lists();
                    lemma_lists_unique(self@, target, s);
                }
            },
            None => {
                assert(self@ =~= target);
            },
        }
    }
}

} // verus!
