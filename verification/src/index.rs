//! The in-memory index: a mapping from each live key to the location of
//! its most recent live record in the log.

use vstd::prelude::*;

verus! {

/// Where one record's payload lives in the log: the byte offset right
/// after the 4-byte length prefix, and the payload length.
#[derive(Clone, Copy, Debug)]
pub struct Location {
    pub start: usize,
    pub len: usize,
}

/// One index entry: a key and the location of its live record.
#[derive(Debug)]
pub struct IndexEntry {
    pub key: String,
    pub loc: Location,
}

/// The map an entry list denotes; later entries shadow earlier ones.
pub open spec fn entries_map(s: Seq<IndexEntry>) -> Map<Seq<char>, Location>
    decreases s.len(),
{
    if s.len() == 0 {
        Map::empty()
    } else {
        entries_map(s.drop_last()).insert(s.last().key@, s.last().loc)
    }
}

/// The number of log bytes the entries' frames occupy: each frame is a
/// 4-byte length prefix plus its payload.
pub open spec fn entries_size(s: Seq<IndexEntry>) -> int
    decreases s.len(),
{
    if s.len() == 0 {
        0
    } else {
        entries_size(s.drop_last()) + 4 + s.last().loc.len
    }
}

/// No two entries share a key.
pub open spec fn distinct_keys(s: Seq<IndexEntry>) -> bool {
    forall|i: int, j: int| 0 <= i < j < s.len() ==> s[i].key@ != s[j].key@
}

/// The key -> location index. The entry order carries no meaning; the
/// denoted map does.
#[derive(Debug)]
pub struct Index {
    pub entries: Vec<IndexEntry>,
}

impl View for Index {
    type V = Map<Seq<char>, Location>;

    open spec fn view(&self) -> Map<Seq<char>, Location> {
        entries_map(self.entries@)
    }
}

/// The denoted map holds exactly the entries' keys, each at its entry's
/// location when keys are distinct.
pub proof fn lemma_entries_map(s: Seq<IndexEntry>)
    ensures
        forall|k: Seq<char>|
            #[trigger] entries_map(s).contains_key(k) ==> exists|j: int|
                0 <= j < s.len() && s[j].key@ == k,
        distinct_keys(s) ==> forall|i: int|
            0 <= i < s.len() ==> entries_map(s).contains_key(#[trigger] s[i].key@)
                && entries_map(s)[s[i].key@] == s[i].loc,
    decreases s.len(),
{
    if s.len() > 0 {
        lemma_entries_map(s.drop_last());
        assert forall|k: Seq<char>| #[trigger]
            entries_map(s).contains_key(k) implies exists|j: int|
            0 <= j < s.len() && s[j].key@ == k by {
            if k == s.last().key@ {
                assert(s[s.len() - 1].key@ == k);
            } else {
                assert(entries_map(s.drop_last()).contains_key(k));
                let j = choose|j: int| 0 <= j < s.drop_last().len() && s.drop_last()[j].key@ == k;
                assert(s[j].key@ == k);
            }
        }
        assert forall|i: int| 0 <= i < s.len() && distinct_keys(s) implies entries_map(
            s,
        ).contains_key(#[trigger] s[i].key@) && entries_map(s)[s[i].key@] == s[i].loc by {
            if i < s.len() - 1 {
                assert(s.drop_last()[i] == s[i]);
                assert(s[i].key@ != s.last().key@);
            }
        }
    }
}

/// Removing entry `i` removes exactly its key from the denoted map and
/// its frame's bytes from the size.
pub proof fn lemma_entries_map_remove(s: Seq<IndexEntry>, i: int)
    requires
        distinct_keys(s),
        0 <= i < s.len(),
    ensures
        entries_map(s.remove(i)) =~= entries_map(s).remove(s[i].key@),
        entries_size(s.remove(i)) == entries_size(s) - 4 - s[i].loc.len,
        distinct_keys(s.remove(i)),
    decreases s.len(),
{
    lemma_entries_map(s);
    lemma_entries_map(s.drop_last());
    if i == s.len() - 1 {
        assert(s.remove(i) =~= s.drop_last());
        assert(!entries_map(s.drop_last()).contains_key(s[i].key@));
    } else {
        assert(s.remove(i).drop_last() =~= s.drop_last().remove(i));
        assert(s.remove(i).last() == s.last());
        lemma_entries_map_remove(s.drop_last(), i);
        assert(s.drop_last()[i] == s[i]);
        assert(s[i].key@ != s.last().key@);
    }
}

impl Index {
    /// Keys are pairwise distinct, so the entry list denotes its map
    /// without shadowing.
    pub open spec fn wf(&self) -> bool {
        distinct_keys(self.entries@)
    }

    /// The log bytes the indexed frames occupy.
    pub open spec fn size(&self) -> int {
        entries_size(self.entries@)
    }

    /// An empty index.
    pub fn new() -> (r: Index)
        ensures
            r.wf(),
            r@ =~= Map::<Seq<char>, Location>::empty(),
            r.size() == 0,
            r.entries@.len() == 0,
    {
        Index { entries: Vec::new() }
    }

    /// The position of a key's entry, if any.
    fn position(&self, key: &String) -> (r: Option<usize>)
        ensures
            r matches Some(i) ==> i < self.entries@.len() && self.entries@[i as int].key@ == key@,
            r is None ==> forall|j: int| 0 <= j < self.entries@.len() ==> self.entries@[j].key@
                != key@,
    {
        let n = self.entries.len();
        let mut i: usize = 0;
        while i < n
            invariant
                n == self.entries@.len(),
                i <= n,
                forall|j: int| 0 <= j < i ==> self.entries@[j].key@ != key@,
            decreases n - i,
        {
            if self.entries[i].key.eq(key) {
                return Some(i);
            }
            i = i + 1;
        }
        None
    }

    /// Number of entries.
    pub fn len(&self) -> (r: usize)
        ensures
            r == self.entries@.len(),
    {
        self.entries.len()
    }

    /// The key of entry `i`.
    pub fn key_at(&self, i: usize) -> (r: &String)
        requires
            i < self.entries@.len(),
        ensures
            r@ == self.entries@[i as int].key@,
    {
        &self.entries[i].key
    }

    /// The location of entry `i`.
    pub fn loc_at(&self, i: usize) -> (r: Location)
        requires
            i < self.entries@.len(),
        ensures
            r == self.entries@[i as int].loc,
    {
        self.entries[i].loc
    }

    /// Look a key up.
    pub fn get(&self, key: &String) -> (r: Option<Location>)
        requires
            self.wf(),
        ensures
            r matches Some(loc) ==> self@.contains_key(key@) && self@[key@] == loc,
            r is None ==> !self@.contains_key(key@),
    {
        proof {
            lemma_entries_map(self.entries@);
        }
        match self.position(key) {
            Some(i) => Some(self.entries[i].loc),
            None => None,
        }
    }

    /// Insert or overwrite a key's location.
    pub fn insert(&mut self, key: String, loc: Location)
        requires
            old(self).wf(),
        ensures
            final(self).wf(),
            final(self)@ =~= old(self)@.insert(key@, loc),
            final(self).size() <= old(self).size() + 4 + loc.len,
            !old(self)@.contains_key(key@) ==> final(self).size() == old(self).size() + 4
                + loc.len,
            !old(self)@.contains_key(key@) ==> final(self).entries@ == old(self).entries@.push(
                (IndexEntry { key, loc }),
            ),
    {
        proof {
            lemma_entries_map(self.entries@);
        }
        match self.position(&key) {
            Some(i) => {
                let ghost s = self.entries@;
                let ghost k = key@;
                let _ = self.entries.remove(i);
                proof {
                    lemma_entries_map_remove(s, i as int);
                }
                let ghost s2 = self.entries@;
                self.entries.push(IndexEntry { key, loc });
                proof {
                    assert(self.entries@.drop_last() =~= s2);
                    assert(entries_map(self.entries@) =~= entries_map(s).insert(k, loc));
                    assert(entries_size(self.entries@) == entries_size(s) - s[i as int].loc.len
                        + loc.len);
                    assert forall|a: int, b: int|
                        0 <= a < b < self.entries@.len() implies self.entries@[a].key@
                        != self.entries@[b].key@ by {
                        if b == self.entries@.len() - 1 {
                            assert(s2[a].key@ != k);
                        }
                    }
                }
            },
            None => {
                let ghost s = self.entries@;
                let ghost k = key@;
                self.entries.push(IndexEntry { key, loc });
                proof {
                    assert(self.entries@.drop_last() =~= s);
                    assert(entries_map(self.entries@) =~= entries_map(s).insert(k, loc));
                    assert forall|a: int, b: int|
                        0 <= a < b < self.entries@.len() implies self.entries@[a].key@
                        != self.entries@[b].key@ by {
                        if b == self.entries@.len() - 1 {
                            assert(s[a].key@ != k);
                        }
                    }
                }
            },
        }
    }

    /// Drop a key, if present.
    pub fn remove(&mut self, key: &String)
        requires
            old(self).wf(),
        ensures
            final(self).wf(),
            final(self)@ =~= old(self)@.remove(key@),
            final(self).size() <= old(self).size(),
    {
        proof {
            lemma_entries_map(self.entries@);
        }
        match self.position(key) {
            Some(i) => {
                let ghost s = self.entries@;
                let _ = self.entries.remove(i);
                proof {
                    lemma_entries_map_remove(s, i as int);
                }
            },
            None => {
                assert(final(self)@ =~= old(self)@.remove(key@));
            },
        }
    }
}

} // verus!
