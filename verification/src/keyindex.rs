//! The in-memory index: an exact-equality mapping from key bytes to the
//! offset of that key's most recent record in the log.

use vstd::prelude::*;

verus! {

/// Compares two byte strings for exact equality.
pub fn bytes_eq(x: &[u8], y: &[u8]) -> (r: bool)
    ensures
        r == (x@ == y@),
{
    if x.len() != y.len() {
        assert(x@.len() != y@.len());
        return false;
    }
    let mut i: usize = 0;
    while i < x.len()
        invariant
            i <= x@.len(),
            x@.len() == y@.len(),
            forall|j: int| 0 <= j < i ==> x@[j] == y@[j],
        decreases x@.len() - i,
    {
        if x[i] != y[i] {
            return false;
        }
        i = i + 1;
    }
    proof {
        assert(x@ =~= y@);
    }
    true
}

/// The mapping an entry list denotes; a later entry for a key supersedes an
/// earlier one.
pub open spec fn map_of(s: Seq<(Vec<u8>, u64)>) -> Map<Seq<u8>, u64>
    decreases s.len(),
{
    if s.len() == 0 {
        Map::empty()
    } else {
        map_of(s.drop_last()).insert(s.last().0@, s.last().1)
    }
}

/// Whether no key occurs twice in the entry list.
pub open spec fn unique_keys(s: Seq<(Vec<u8>, u64)>) -> bool {
    forall|i: int, j: int| 0 <= i < j < s.len() ==> s[i].0@ != s[j].0@
}

/// Each entry of a duplicate-free list is visible in its mapping.
proof fn lemma_map_of_entry(s: Seq<(Vec<u8>, u64)>, i: int)
    requires
        unique_keys(s),
        0 <= i < s.len(),
    ensures
        map_of(s).contains_key(s[i].0@),
        map_of(s)[s[i].0@] == s[i].1,
    decreases s.len(),
{
    if i == s.len() - 1 {
    } else {
        assert(s.drop_last()[i] == s[i]);
        lemma_map_of_entry(s.drop_last(), i);
        assert(s[i].0@ != s.last().0@);
    }
}

/// A key that occurs in no entry is absent from the mapping.
proof fn lemma_map_of_absent(s: Seq<(Vec<u8>, u64)>, k: Seq<u8>)
    requires
        forall|i: int| 0 <= i < s.len() ==> s[i].0@ != k,
    ensures
        !map_of(s).contains_key(k),
    decreases s.len(),
{
    if s.len() > 0 {
        assert(forall|i: int| 0 <= i < s.drop_last().len() ==> s.drop_last()[i].0@ != k);
        lemma_map_of_absent(s.drop_last(), k);
    }
}

/// Appending an entry inserts its key into the mapping.
proof fn lemma_map_of_push(s: Seq<(Vec<u8>, u64)>, p: (Vec<u8>, u64))
    ensures
        map_of(s.push(p)) == map_of(s).insert(p.0@, p.1),
{
    assert(s.push(p).drop_last() =~= s);
    assert(s.push(p).last() == p);
}

/// Overwriting the offset of the entry at `i` updates exactly that key.
proof fn lemma_map_of_update(s: Seq<(Vec<u8>, u64)>, i: int, p: (Vec<u8>, u64))
    requires
        unique_keys(s),
        0 <= i < s.len(),
        p.0@ == s[i].0@,
    ensures
        map_of(s.update(i, p)) =~= map_of(s).insert(p.0@, p.1),
        unique_keys(s.update(i, p)),
    decreases s.len(),
{
    let s2 = s.update(i, p);
    assert(forall|a: int, b: int| 0 <= a < b < s2.len() ==> s2[a].0@ != s2[b].0@);
    if i == s.len() - 1 {
        assert(s2.drop_last() =~= s.drop_last());
        assert(s2.last() == p);
        assert(map_of(s2) == map_of(s.drop_last()).insert(p.0@, p.1));
        assert(map_of(s) == map_of(s.drop_last()).insert(s.last().0@, s.last().1));
        assert(map_of(s).insert(p.0@, p.1) =~= map_of(s.drop_last()).insert(p.0@, p.1));
    } else {
        assert(s2.drop_last() =~= s.drop_last().update(i, p));
        assert(s.drop_last()[i] == s[i]);
        lemma_map_of_update(s.drop_last(), i, p);
        assert(s2.last() == s.last());
        assert(s.last().0@ != p.0@);
    }
}

/// Removing the entry at `i` removes exactly that key from the mapping.
proof fn lemma_map_of_remove(s: Seq<(Vec<u8>, u64)>, i: int)
    requires
        unique_keys(s),
        0 <= i < s.len(),
    ensures
        map_of(s.remove(i)) =~= map_of(s).remove(s[i].0@),
        unique_keys(s.remove(i)),
    decreases s.len(),
{
    let s2 = s.remove(i);
    assert(forall|a: int, b: int| 0 <= a < b < s2.len() ==> s2[a].0@ != s2[b].0@);
    if i == s.len() - 1 {
        assert(s2 =~= s.drop_last());
        assert(forall|j: int| 0 <= j < s2.len() ==> s2[j].0@ != s.last().0@);
        lemma_map_of_absent(s2, s.last().0@);
        assert(map_of(s2).remove(s.last().0@) =~= map_of(s2));
        assert(map_of(s) == map_of(s2).insert(s.last().0@, s.last().1));
        assert(map_of(s).remove(s[i].0@) =~= map_of(s2));
    } else {
        assert(s2.drop_last() =~= s.drop_last().remove(i));
        assert(s.drop_last()[i] == s[i]);
        lemma_map_of_remove(s.drop_last(), i);
        assert(s2.last() == s.last());
        assert(s.last().0@ != s[i].0@);
    }
}

/// The in-memory index. It holds each key at most once, together with the
/// offset of that key's most recent record.
pub struct KeyIndex {
    entries: Vec<(Vec<u8>, u64)>,
}

impl View for KeyIndex {
    type V = Map<Seq<u8>, u64>;

    closed spec fn view(&self) -> Map<Seq<u8>, u64> {
        map_of(self.entries@)
    }
}

impl KeyIndex {
    /// Whether the entry list is duplicate-free.
    pub closed spec fn wf(&self) -> bool {
        unique_keys(self.entries@)
    }

    /// The raw entry list, for callers that persist the index wholesale.
    pub closed spec fn entries_view(&self) -> Seq<(Vec<u8>, u64)> {
        self.entries@
    }

    /// An empty index.
    pub fn new() -> (r: Self)
        ensures
            r@ == Map::<Seq<u8>, u64>::empty(),
            r.wf(),
    {
        KeyIndex { entries: Vec::new() }
    }

    /// The position of `key` in the entry list, if it is present.
    fn find_pos(&self, key: &[u8]) -> (r: Option<usize>)
        ensures
            ({
                match r {
                    Some(i) => i < self.entries@.len() && self.entries@[i as int].0@ == key@,
                    None => forall|j: int|
                        0 <= j < self.entries@.len() ==> self.entries@[j].0@ != key@,
                }
            }),
    {
        let mut i: usize = 0;
        while i < self.entries.len()
            invariant
                i <= self.entries@.len(),
                forall|j: int| 0 <= j < i ==> self.entries@[j].0@ != key@,
            decreases self.entries@.len() - i,
        {
            if bytes_eq(self.entries[i].0.as_slice(), key) {
                return Some(i);
            }
            i = i + 1;
        }
        None
    }

    /// The offset stored for `key`, if any.
    pub fn get(&self, key: &[u8]) -> (r: Option<u64>)
        requires
            self.wf(),
        ensures
            ({
                match r {
                    Some(off) => self@.contains_key(key@) && self@[key@] == off,
                    None => !self@.contains_key(key@),
                }
            }),
    {
        match self.find_pos(key) {
            Some(i) => {
                proof {
                    lemma_map_of_entry(self.entries@, i as int);
                }
                Some(self.entries[i].1)
            },
            None => {
                proof {
                    lemma_map_of_absent(self.entries@, key@);
                }
                None
            },
        }
    }

    /// Stores `off` for `key`, superseding any earlier entry for it.
    pub fn set(&mut self, key: &[u8], off: u64)
        requires
            old(self).wf(),
        ensures
            final(self).wf(),
            final(self)@ == old(self)@.insert(key@, off),
    {
        let k = vstd::slice::slice_to_vec(key);
        match self.find_pos(k.as_slice()) {
            Some(i) => {
                proof {
                    lemma_map_of_update(self.entries@, i as int, (k, off));
                }
                self.entries[i] = (k, off);
            },
            None => {
                proof {
                    lemma_map_of_push(self.entries@, (k, off));
                    let s2 = self.entries@.push((k, off));
                    assert forall|a: int, b: int| 0 <= a < b < s2.len() implies s2[a].0@
                        != s2[b].0@ by {
                        if b < self.entries@.len() {
                        } else {
                            assert(s2[a].0@ != key@);
                        }
                    }
                }
                self.entries.push((k, off));
            },
        }
    }

    /// Drops the entry for `key`, if one is present.
    pub fn remove(&mut self, key: &[u8])
        requires
            old(self).wf(),
        ensures
            final(self).wf(),
            final(self)@ == old(self)@.remove(key@),
    {
        match self.find_pos(key) {
            Some(i) => {
                proof {
                    lemma_map_of_remove(self.entries@, i as int);
                }
                self.entries.remove(i);
            },
            None => {
                proof {
                    lemma_map_of_absent(self.entries@, key@);
                    assert(self@.remove(key@) =~= self@);
                }
            },
        }
    }

    /// A copy of the entry list, for callers that persist the index.
    pub fn entries(&self) -> (r: Vec<(Vec<u8>, u64)>)
        ensures
            r@.len() == self.entries_view().len(),
            forall|j: int|
                0 <= j < r@.len() ==> r@[j].0@ == self.entries_view()[j].0@ && r@[j].1
                    == self.entries_view()[j].1,
    {
        let mut out: Vec<(Vec<u8>, u64)> = Vec::new();
        let mut i: usize = 0;
        while i < self.entries.len()
            invariant
                i <= self.entries@.len(),
                out@.len() == i,
                forall|j: int|
                    0 <= j < i ==> out@[j].0@ == self.entries@[j].0@ && out@[j].1
                        == self.entries@[j].1,
            decreases self.entries@.len() - i,
        {
            let k = vstd::slice::slice_to_vec(self.entries[i].0.as_slice());
            let off = self.entries[i].1;
            out.push((k, off));
            i = i + 1;
        }
        out
    }
}

} // verus!
