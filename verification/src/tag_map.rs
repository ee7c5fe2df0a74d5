//! An association map from type tags to values.
//!
//! Component and resource records are keyed by a caller-chosen `u64` type
//! tag, one value per tag. The map is a flat vector of entries with
//! pairwise-distinct tags, read in specifications as a `Map<u64, V>`.

use vstd::prelude::*;

verus! {

/// Reads a sequence of tagged entries as a map; later entries win.
pub open spec fn map_of<V>(s: Seq<(u64, V)>) -> Map<u64, V>
    decreases s.len(),
{
    if s.len() == 0 {
        Map::<u64, V>::empty()
    } else {
        map_of(s.drop_last()).insert(s.last().0, s.last().1)
    }
}

/// No tag occurs twice in an entry sequence.
pub(crate) open spec fn tags_distinct<V>(s: Seq<(u64, V)>) -> bool {
    forall|i: int, j: int| 0 <= i < j < s.len() ==> s[i].0 != s[j].0
}

pub(crate) proof fn lemma_distinct_drop_last<V>(s: Seq<(u64, V)>)
    requires
        tags_distinct(s),
        s.len() > 0,
    ensures
        tags_distinct(s.drop_last()),
{
    assert forall|i: int, j: int| 0 <= i < j < s.drop_last().len() implies s.drop_last()[i].0
        != s.drop_last()[j].0 by {
        assert(s.drop_last()[i] == s[i]);
        assert(s.drop_last()[j] == s[j]);
    }
}

/// A tag is in the map's domain exactly when some entry carries it.
pub(crate) proof fn lemma_map_of_mem<V>(s: Seq<(u64, V)>, t: u64)
    ensures
        map_of(s).dom().contains(t) <==> exists|i: int| 0 <= i < s.len() && s[i].0 == t,
    decreases s.len(),
{
    if s.len() > 0 {
        lemma_map_of_mem(s.drop_last(), t);
        if map_of(s).dom().contains(t) {
            if t == s.last().0 {
                assert(s[s.len() - 1].0 == t);
            } else {
                let i = choose|i: int| 0 <= i < s.drop_last().len() && s.drop_last()[i].0 == t;
                assert(s[i].0 == t);
            }
        }
        if exists|i: int| 0 <= i < s.len() && s[i].0 == t {
            let i = choose|i: int| 0 <= i < s.len() && s[i].0 == t;
            if i < s.len() - 1 {
                assert(s.drop_last()[i].0 == t);
            }
        }
    }
}

/// With distinct tags, the entry at any index gives the map's value there.
pub(crate) proof fn lemma_map_of_at<V>(s: Seq<(u64, V)>, i: int)
    requires
        tags_distinct(s),
        0 <= i < s.len(),
    ensures
        map_of(s).dom().contains(s[i].0),
        map_of(s)[s[i].0] == s[i].1,
    decreases s.len(),
{
    if i < s.len() - 1 {
        lemma_distinct_drop_last(s);
        lemma_map_of_at(s.drop_last(), i);
        assert(s.drop_last()[i] == s[i]);
    }
}

/// Replacing the value at an index is a map insert at that entry's tag.
pub(crate) proof fn lemma_map_of_update<V>(s: Seq<(u64, V)>, i: int, v: V)
    requires
        tags_distinct(s),
        0 <= i < s.len(),
    ensures
        map_of(s.update(i, (s[i].0, v))) == map_of(s).insert(s[i].0, v),
    decreases s.len(),
{
    let t = s[i].0;
    let s2 = s.update(i, (t, v));
    if i == s.len() - 1 {
        assert(s2.drop_last() =~= s.drop_last());
        assert(map_of(s2) =~= map_of(s).insert(t, v));
    } else {
        lemma_distinct_drop_last(s);
        lemma_map_of_update(s.drop_last(), i, v);
        assert(s2.drop_last() =~= s.drop_last().update(i, (t, v)));
        assert(s2.last() == s.last());
        assert(map_of(s2) =~= map_of(s).insert(t, v));
    }
}

/// Removing the entry at an index is a map remove of that entry's tag.
pub(crate) proof fn lemma_map_of_remove<V>(s: Seq<(u64, V)>, i: int)
    requires
        tags_distinct(s),
        0 <= i < s.len(),
    ensures
        map_of(s.remove(i)) == map_of(s).remove(s[i].0),
        tags_distinct(s.remove(i)),
    decreases s.len(),
{
    let t = s[i].0;
    assert forall|a: int, b: int| 0 <= a < b < s.remove(i).len() implies s.remove(i)[a].0
        != s.remove(i)[b].0 by {
        if b < i {
            assert(s.remove(i)[a] == s[a]);
            assert(s.remove(i)[b] == s[b]);
        } else if a < i {
            assert(s.remove(i)[a] == s[a]);
            assert(s.remove(i)[b] == s[b + 1]);
        } else {
            assert(s.remove(i)[a] == s[a + 1]);
            assert(s.remove(i)[b] == s[b + 1]);
        }
    }
    if i == s.len() - 1 {
        assert(s.remove(i) =~= s.drop_last());
        lemma_map_of_mem(s.drop_last(), t);
        assert(map_of(s.remove(i)) =~= map_of(s).remove(t));
    } else {
        lemma_distinct_drop_last(s);
        lemma_map_of_remove(s.drop_last(), i);
        assert(s.remove(i).drop_last() =~= s.drop_last().remove(i));
        assert(s.remove(i).last() == s.last());
        assert(map_of(s.remove(i)) =~= map_of(s).remove(t));
    }
}

/// Appending an entry with a fresh tag is a map insert.
pub(crate) proof fn lemma_map_of_push<V>(s: Seq<(u64, V)>, t: u64, v: V)
    ensures
        map_of(s.push((t, v))) == map_of(s).insert(t, v),
{
    assert(s.push((t, v)).drop_last() =~= s);
    assert(map_of(s.push((t, v))) =~= map_of(s).insert(t, v));
}

/// A map from `u64` type tags to values, one value per tag.
pub struct TagMap<V> {
    entries: Vec<(u64, V)>,
}

impl<V> View for TagMap<V> {
    type V = Map<u64, V>;

    closed spec fn view(&self) -> Map<u64, V> {
        map_of(self.entries@)
    }
}

impl<V> TagMap<V> {
    #[verifier::type_invariant]
    spec fn inv(self) -> bool {
        tags_distinct(self.entries@)
    }

    /// The number of stored entries (spec-level).
    pub closed spec fn entry_count(self) -> nat {
        self.entries@.len()
    }

    /// Creates an empty map.
    pub fn new() -> (r: Self)
        ensures
            r@ == Map::<u64, V>::empty(),
            r.entry_count() == 0,
    {
        TagMap { entries: Vec::new() }
    }

    fn find(&self, tag: u64) -> (r: Option<usize>)
        ensures
            match r {
                Some(i) => i < self.entries@.len() && self.entries@[i as int].0 == tag,
                None => forall|i: int| 0 <= i < self.entries@.len() ==> self.entries@[i].0 != tag,
            },
    {
        let mut i: usize = 0;
        while i < self.entries.len()
            invariant
                i <= self.entries@.len(),
                forall|j: int| 0 <= j < i ==> self.entries@[j].0 != tag,
            decreases self.entries@.len() - i,
        {
            if self.entries[i].0 == tag {
                return Some(i);
            }
            i = i + 1;
        }
        None
    }

    /// Whether a value is stored under this tag.
    pub fn contains_tag(&self, tag: u64) -> (r: bool)
        ensures
            r == self@.dom().contains(tag),
    {
        proof {
            lemma_map_of_mem(self.entries@, tag);
        }
        self.find(tag).is_some()
    }

    /// The value stored under this tag, if any.
    pub fn get(&self, tag: u64) -> (r: Option<&V>)
        ensures
            match r {
                Some(v) => self@.dom().contains(tag) && *v == self@[tag],
                None => !self@.dom().contains(tag),
            },
    {
        proof {
            use_type_invariant(&*self);
            lemma_map_of_mem(self.entries@, tag);
        }
        match self.find(tag) {
            Some(i) => {
                proof {
                    lemma_map_of_at(self.entries@, i as int);
                }
                Some(&self.entries[i].1)
            },
            None => None,
        }
    }

    /// Stores a value under a tag, replacing any previous value there.
    pub fn insert(&mut self, tag: u64, value: V)
        ensures
            final(self)@ == old(self)@.insert(tag, value),
            final(self).entry_count() == if old(self)@.dom().contains(tag) {
                old(self).entry_count()
            } else {
                old(self).entry_count() + 1
            },
    {
        proof {
            use_type_invariant(&*self);
            lemma_map_of_mem(self.entries@, tag);
        }
        match self.find(tag) {
            Some(i) => {
                proof {
                    lemma_map_of_update(self.entries@, i as int, value);
                }
                let mut entries: Vec<(u64, V)> = Vec::new();
                std::mem::swap(&mut entries, &mut self.entries);
                let e = &mut entries[i];
                *e = (tag, value);
                proof {
                    assert(tags_distinct(entries@)) by {
                        assert forall|a: int, b: int|
                            0 <= a < b < entries@.len() implies entries@[a].0
                            != entries@[b].0 by {
                            assert(old(self).entries@[a].0 != old(self).entries@[b].0);
                        }
                    }
                }
                self.entries = entries;
            },
            None => {
                proof {
                    lemma_map_of_push(self.entries@, tag, value);
                }
                let mut entries: Vec<(u64, V)> = Vec::new();
                std::mem::swap(&mut entries, &mut self.entries);
                entries.push((tag, value));
                proof {
                    assert(tags_distinct(entries@)) by {
                        assert forall|a: int, b: int|
                            0 <= a < b < entries@.len() implies entries@[a].0
                            != entries@[b].0 by {
                            if b < entries@.len() - 1 {
                                assert(old(self).entries@[a].0 != old(self).entries@[b].0);
                            }
                        }
                    }
                }
                self.entries = entries;
            },
        }
    }

    /// Removes and returns the value stored under a tag, if any.
    pub fn remove(&mut self, tag: u64) -> (r: Option<V>)
        ensures
            final(self)@ == old(self)@.remove(tag),
            match r {
                Some(v) => old(self)@.dom().contains(tag) && v == old(self)@[tag],
                None => !old(self)@.dom().contains(tag),
            },
    {
        proof {
            use_type_invariant(&*self);
            lemma_map_of_mem(self.entries@, tag);
        }
        match self.find(tag) {
            Some(i) => {
                proof {
                    lemma_map_of_at(self.entries@, i as int);
                    lemma_map_of_remove(self.entries@, i as int);
                }
                let mut entries: Vec<(u64, V)> = Vec::new();
                std::mem::swap(&mut entries, &mut self.entries);
                let e = entries.remove(i);
                self.entries = entries;
                Some(e.1)
            },
            None => {
                proof {
                    assert(map_of(self.entries@).remove(tag) =~= map_of(self.entries@));
                }
                None
            },
        }
    }

    /// All tags that currently store a value, each exactly once.
    pub fn tags(&self) -> (r: Vec<u64>)
        ensures
            r@.no_duplicates(),
            forall|t: u64| r@.contains(t) <==> self@.dom().contains(t),
    {
        proof {
            use_type_invariant(&*self);
        }
        let mut r: Vec<u64> = Vec::new();
        let mut i: usize = 0;
        while i < self.entries.len()
            invariant
                i <= self.entries@.len(),
                tags_distinct(self.entries@),
                r@.len() == i,
                forall|j: int| 0 <= j < i ==> r@[j] == self.entries@[j].0,
            decreases self.entries@.len() - i,
        {
            let e = &self.entries[i];
            r.push(e.0);
            i = i + 1;
        }
        proof {
            assert forall|t: u64| r@.contains(t) <==> self@.dom().contains(t) by {
                lemma_map_of_mem(self.entries@, t);
                if self@.dom().contains(t) {
                    let j = choose|j: int| 0 <= j < self.entries@.len() && self.entries@[j].0 == t;
                    assert(r@[j] == t);
                }
                if r@.contains(t) {
                    let j = choose|j: int| 0 <= j < r@.len() && r@[j] == t;
                    assert(self.entries@[j].0 == t);
                }
            }
            assert(r@.no_duplicates()) by {
                assert forall|a: int, b: int| 0 <= a < b < r@.len() implies r@[a] != r@[b] by {
                    assert(self.entries@[a].0 != self.entries@[b].0);
                }
            }
        }
        r
    }
}

} // verus!
