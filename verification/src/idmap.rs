//! A small finite map from value ids to plain values, backed by an
//! append-only association list; the latest binding for an id wins.

use vstd::prelude::*;

verus! {

/// The map an entry list denotes: bindings applied left to right, so the
/// latest entry for an id wins.
pub open spec fn entries_map<V>(s: Seq<(usize, V)>) -> Map<usize, V>
    decreases s.len(),
{
    if s.len() == 0 {
        Map::empty()
    } else {
        entries_map(s.drop_last()).insert(s.last().0, s.last().1)
    }
}

proof fn lemma_entries_map_found<V>(s: Seq<(usize, V)>, id: usize, i: int)
    requires
        0 <= i < s.len(),
        s[i].0 == id,
        forall|j: int| i < j < s.len() ==> (#[trigger] s[j]).0 != id,
    ensures
        entries_map(s).contains_key(id),
        entries_map(s)[id] == s[i].1,
    decreases s.len(),
{
    if i < s.len() - 1 {
        assert(forall|j: int|
            0 <= j < s.drop_last().len() ==> s.drop_last()[j] == s[j]);
        lemma_entries_map_found(s.drop_last(), id, i);
        assert(s.last().0 != id);
    }
}

proof fn lemma_entries_map_missing<V>(s: Seq<(usize, V)>, id: usize)
    requires
        forall|j: int| 0 <= j < s.len() ==> (#[trigger] s[j]).0 != id,
    ensures
        !entries_map(s).contains_key(id),
    decreases s.len(),
{
    if s.len() > 0 {
        assert(forall|j: int|
            0 <= j < s.drop_last().len() ==> s.drop_last()[j] == s[j]);
        lemma_entries_map_missing(s.drop_last(), id);
    }
}

/// A finite map from value ids to copyable values.
pub struct IdMap<V> {
    entries: Vec<(usize, V)>,
}

impl<V: Copy> View for IdMap<V> {
    type V = Map<usize, V>;

    closed spec fn view(&self) -> Map<usize, V> {
        entries_map(self.entries@)
    }
}

impl<V: Copy> IdMap<V> {
    /// Creates an empty map.
    pub fn new() -> (m: Self)
        ensures
            m@ == Map::<usize, V>::empty(),
    {
        Self { entries: Vec::new() }
    }

    /// Looks an id up.
    pub fn get(&self, id: usize) -> (r: Option<V>)
        ensures
            match r {
                Some(v) => self@.contains_key(id) && self@[id] == v,
                None => !self@.contains_key(id),
            },
    {
        let mut i: usize = self.entries.len();
        while i > 0
            invariant
                i <= self.entries@.len(),
                forall|j: int| i <= j < self.entries@.len() ==> (#[trigger] self.entries@[j]).0 != id,
            decreases i,
        {
            i = i - 1;
            let (key, value) = self.entries[i];
            if key == id {
                proof {
                    lemma_entries_map_found(self.entries@, id, i as int);
                }
                return Some(value);
            }
        }
        proof {
            lemma_entries_map_missing(self.entries@, id);
        }
        None
    }

    /// Binds an id to a value, replacing any earlier binding.
    pub fn set(&mut self, id: usize, value: V)
        ensures
            final(self)@ == old(self)@.insert(id, value),
    {
        self.entries.push((id, value));
        proof {
            assert(self.entries@.drop_last() =~= old(self).entries@);
        }
    }
}

} // verus!
