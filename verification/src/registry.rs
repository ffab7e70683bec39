//! In-memory registry: a mapping from original resource URL to the absolute
//! local path of its cached file.
//!
//! The registry is a derived index of the cache directory, rebuilt at startup
//! by reconciliation and mutated by successful fetch-and-store operations. Its
//! mathematical model is a `Map` from the URL's characters to the path's
//! characters; lookups return snapshot values, never live references.

use vstd::prelude::*;

verus! {

/// The map an entry sequence denotes: later entries win over earlier ones.
spec fn map_of(entries: Seq<(String, String)>) -> Map<Seq<char>, Seq<char>>
    decreases entries.len(),
{
    if entries.len() == 0 {
        Map::empty()
    } else {
        map_of(entries.drop_last()).insert(entries.last().0@, entries.last().1@)
    }
}

/// URL-to-path registry with unique keys.
pub struct Registry {
    entries: Vec<(String, String)>,
}

impl View for Registry {
    type V = Map<Seq<char>, Seq<char>>;

    closed spec fn view(&self) -> Map<Seq<char>, Seq<char>> {
        map_of(self.entries@)
    }
}

/// A key occurs in the map of an entry sequence exactly when some entry
/// holds it.
proof fn lemma_map_of_contains(entries: Seq<(String, String)>, k: Seq<char>)
    ensures
        map_of(entries).contains_key(k) <==> exists|j: int|
            0 <= j < entries.len() && #[trigger] entries[j].0@ == k,
    decreases entries.len(),
{
    if entries.len() == 0 {
    } else {
        lemma_map_of_contains(entries.drop_last(), k);
        if entries.last().0@ == k {
            assert(entries[entries.len() - 1].0@ == k);
        } else {
            if map_of(entries).contains_key(k) {
                let j = choose|j: int|
                    0 <= j < entries.drop_last().len() && #[trigger] entries.drop_last()[j].0@ == k;
                assert(entries[j].0@ == k);
            }
            if exists|j: int| 0 <= j < entries.len() && #[trigger] entries[j].0@ == k {
                let j = choose|j: int| 0 <= j < entries.len() && #[trigger] entries[j].0@ == k;
                assert(entries.drop_last()[j].0@ == k);
            }
        }
    }
}

/// An entry whose key no later entry repeats gives the map's value at its key.
proof fn lemma_map_of_get(entries: Seq<(String, String)>, j: int)
    requires
        0 <= j < entries.len(),
        forall|l: int| j < l < entries.len() ==> #[trigger] entries[l].0@ != entries[j].0@,
    ensures
        map_of(entries).contains_key(entries[j].0@),
        map_of(entries)[entries[j].0@] == entries[j].1@,
    decreases entries.len(),
{
    if j == entries.len() - 1 {
    } else {
        assert(entries.drop_last()[j] == entries[j]);
        lemma_map_of_get(entries.drop_last(), j);
    }
}

/// The map's domain is finite.
proof fn lemma_map_of_finite(entries: Seq<(String, String)>)
    ensures
        map_of(entries).dom().finite(),
    decreases entries.len(),
{
    if entries.len() == 0 {
    } else {
        lemma_map_of_finite(entries.drop_last());
    }
}

/// With unique keys, the map has exactly one member per entry.
proof fn lemma_map_of_len(entries: Seq<(String, String)>)
    requires
        forall|j: int, l: int|
            0 <= j < l < entries.len() ==> #[trigger] entries[j].0@ != #[trigger] entries[l].0@,
    ensures
        map_of(entries).dom().len() == entries.len(),
    decreases entries.len(),
{
    if entries.len() == 0 {
        assert(map_of(entries).dom() =~= Set::<Seq<char>>::empty());
    } else {
        let prefix = entries.drop_last();
        lemma_map_of_len(prefix);
        lemma_map_of_finite(prefix);
        lemma_map_of_contains(prefix, entries.last().0@);
        assert forall|j: int| 0 <= j < prefix.len() implies #[trigger] prefix[j].0@
            != entries.last().0@ by {
            assert(entries[j].0@ != entries[entries.len() - 1].0@);
        }
        assert(!map_of(prefix).contains_key(entries.last().0@));
        assert(map_of(entries).dom() =~= map_of(prefix).dom().insert(entries.last().0@));
    }
}

/// Updating the entry that holds a key, key kept, updates the map at that key.
proof fn lemma_map_of_update(entries: Seq<(String, String)>, j: int, e: (String, String))
    requires
        0 <= j < entries.len(),
        e.0@ == entries[j].0@,
        forall|l: int| j < l < entries.len() ==> #[trigger] entries[l].0@ != entries[j].0@,
    ensures
        map_of(entries.update(j, e)) == map_of(entries).insert(e.0@, e.1@),
    decreases entries.len(),
{
    let updated = entries.update(j, e);
    if j == entries.len() - 1 {
        assert(updated.drop_last() =~= entries.drop_last());
        assert(updated.last() == e);
        assert(map_of(updated) =~= map_of(entries).insert(e.0@, e.1@));
    } else {
        assert(updated.drop_last() =~= entries.drop_last().update(j, e));
        assert(updated.last() == entries.last());
        assert(entries.drop_last()[j] == entries[j]);
        lemma_map_of_update(entries.drop_last(), j, e);
        assert(entries.last().0@ != entries[j].0@);
        assert(map_of(updated) =~= map_of(entries).insert(e.0@, e.1@));
    }
}

impl Registry {
    /// Well-formed: no two entries share a key, so each URL has one path.
    pub closed spec fn wf(&self) -> bool {
        forall|j: int, l: int|
            0 <= j < l < self.entries@.len() ==> #[trigger] self.entries@[j].0@
                != #[trigger] self.entries@[l].0@
    }

    /// An empty registry.
    pub fn new() -> (r: Registry)
        ensures
            r.wf(),
            r@ == Map::<Seq<char>, Seq<char>>::empty(),
    {
        Registry { entries: Vec::new() }
    }

    /// Looks a URL up and returns a snapshot of its stored path, or `None`
    /// when the URL is not registered.
    pub fn get(&self, url: &String) -> (r: Option<String>)
        requires
            self.wf(),
        ensures
            (r matches Some(p) ==> self@.contains_key(url@) && p@ == self@[url@]),
            (r is None ==> !self@.contains_key(url@)),
    {
        let n: usize = self.entries.len();
        let mut j: usize = 0;
        while j < n
            invariant
                j <= n,
                n == self.entries@.len(),
                self.wf(),
                forall|l: int| 0 <= l < j ==> #[trigger] self.entries@[l].0@ != url@,
            decreases n - j,
        {
            if self.entries[j].0 == *url {
                proof {
                    lemma_map_of_get(self.entries@, j as int);
                }
                return Some(self.entries[j].1.clone());
            }
            j = j + 1;
        }
        proof {
            lemma_map_of_contains(self.entries@, url@);
        }
        None
    }

    /// Inserts or replaces the path stored for a URL.
    pub fn insert(&mut self, url: String, path: String)
        requires
            old(self).wf(),
        ensures
            final(self).wf(),
            final(self)@ == old(self)@.insert(url@, path@),
    {
        let n: usize = self.entries.len();
        let mut j: usize = 0;
        while j < n
            invariant
                j <= n,
                n == self.entries@.len(),
                self.wf(),
                self.entries@ == old(self).entries@,
                forall|l: int| 0 <= l < j ==> #[trigger] self.entries@[l].0@ != url@,
            decreases n - j,
        {
            if self.entries[j].0 == *(&url) {
                proof {
                    lemma_map_of_update(self.entries@, j as int, (url, path));
                }
                self.entries[j] = (url, path);
                proof {
                    assert forall|a: int, b: int|
                        0 <= a < b < self.entries@.len() implies #[trigger] self.entries@[a].0@
                        != #[trigger] self.entries@[b].0@ by {
                        assert(old(self).entries@[a].0@ != old(self).entries@[b].0@);
                    }
                }
                return ;
            }
            j = j + 1;
        }
        proof {
            lemma_map_of_contains(self.entries@, url@);
        }
        self.entries.push((url, path));
        proof {
            assert(self.entries@.drop_last() =~= old(self).entries@);
        }
    }

    /// Removes every entry.
    pub fn clear(&mut self)
        ensures
            final(self).wf(),
            final(self)@ == Map::<Seq<char>, Seq<char>>::empty(),
    {
        self.entries.clear();
    }

    /// The number of registered URLs; a diagnostic snapshot.
    pub fn snapshot_len(&self) -> (n: usize)
        requires
            self.wf(),
        ensures
            n == self@.dom().len(),
    {
        proof {
            lemma_map_of_len(self.entries@);
        }
        self.entries.len()
    }
}

} // verus!
