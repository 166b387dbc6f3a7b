//! Key-sorted mappings from 32-bit indices to values.
//!
//! On the wire these appear as a count followed by `(index, value)` pairs in
//! encounter order; in memory they are kept sorted by key with strictly
//! increasing keys.  Plain insertion gives later duplicate keys last-write
//! wins.

use vstd::prelude::*;

verus! {

/// Keys occur at most once and in strictly increasing order.
pub open spec fn strictly_sorted<V>(s: Seq<(u32, V)>) -> bool {
    forall|i: int, j: int| 0 <= i < j < s.len() ==> s[i].0 < s[j].0
}

/// Index of the first entry whose key is at least `key`, or the length if
/// every key is smaller.
pub open spec fn idx_ge<V>(s: Seq<(u32, V)>, key: u32) -> int
    decreases s.len(),
{
    if s.len() == 0 {
        0
    } else if s[0].0 >= key {
        0
    } else {
        1 + idx_ge(s.skip(1), key)
    }
}

/// Insert `(key, value)` into a key-sorted sequence, replacing the entry
/// with an equal key if one exists (last write wins).
pub open spec fn sorted_insert<V>(s: Seq<(u32, V)>, key: u32, value: V) -> Seq<(u32, V)> {
    let j = idx_ge(s, key);
    if j < s.len() && s[j].0 == key {
        s.update(j, (key, value))
    } else {
        s.insert(j, (key, value))
    }
}

/// Every key of `a` is below every key of `m`.
pub open spec fn keys_below<V>(a: Seq<(u32, V)>, m: Seq<(u32, V)>) -> bool {
    forall|i: int, j: int| 0 <= i < a.len() && 0 <= j < m.len() ==> a[i].0 < m[j].0
}

/// `idx_ge` lands on the boundary between keys below `key` and the rest.
pub proof fn lemma_idx_ge<V>(s: Seq<(u32, V)>, key: u32)
    ensures
        0 <= idx_ge(s, key) <= s.len(),
        forall|i: int| 0 <= i < idx_ge(s, key) ==> s[i].0 < key,
        idx_ge(s, key) < s.len() ==> s[idx_ge(s, key)].0 >= key,
    decreases s.len(),
{
    if s.len() != 0 && s[0].0 < key {
        lemma_idx_ge(s.skip(1), key);
        assert forall|i: int| 0 <= i < idx_ge(s, key) implies s[i].0 < key by {
            if i >= 1 {
                assert(s.skip(1)[i - 1] == s[i]);
            }
        }
        if idx_ge(s, key) < s.len() {
            assert(s.skip(1)[idx_ge(s, key) - 1] == s[idx_ge(s, key)]);
        }
    }
}

/// Inserting preserves strict key sortedness.
pub proof fn lemma_sorted_insert_sorted<V>(s: Seq<(u32, V)>, key: u32, value: V)
    requires
        strictly_sorted(s),
    ensures
        strictly_sorted(sorted_insert(s, key, value)),
{
    lemma_idx_ge(s, key);
    let j = idx_ge(s, key);
    let t = sorted_insert(s, key, value);
    if j < s.len() && s[j].0 == key {
        assert forall|i1: int, i2: int| 0 <= i1 < i2 < t.len() implies t[i1].0 < t[i2].0 by {
            assert(t[i1].0 == s[i1].0);
            assert(t[i2].0 == s[i2].0);
        }
    } else {
        assert forall|i1: int, i2: int| 0 <= i1 < i2 < t.len() implies t[i1].0 < t[i2].0 by {
            if i1 < j {
                assert(t[i1] == s[i1]);
            } else if i1 == j {
                assert(t[i1].0 == key);
            } else {
                assert(t[i1] == s[i1 - 1]);
            }
            if i2 < j {
                assert(t[i2] == s[i2]);
            } else if i2 == j {
                assert(t[i2].0 == key);
            } else {
                assert(t[i2] == s[i2 - 1]);
            }
            if i2 == j && i1 < j {
                assert(s[i1].0 < key);
            }
            if i1 == j && i2 > j {
                assert(s[i2 - 1].0 >= key);
                assert(s[i2 - 1].0 != key);
            }
        }
    }
}

/// Inserting a key above every existing key appends the entry.
pub proof fn lemma_sorted_insert_append<V>(s: Seq<(u32, V)>, key: u32, value: V)
    requires
        forall|i: int| 0 <= i < s.len() ==> s[i].0 < key,
    ensures
        sorted_insert(s, key, value) == s.push((key, value)),
{
    lemma_idx_ge(s, key);
    let j = idx_ge(s, key);
    if j < s.len() {
        assert(s[j].0 < key);
        assert(false);
    }
    assert(s.insert(s.len() as int, (key, value)) =~= s.push((key, value)));
}

/// Every value of an insertion result is either an old value or the new
/// one: a property of all values survives insertion.
pub proof fn lemma_sorted_insert_values<V>(
    s: Seq<(u32, V)>,
    key: u32,
    value: V,
    p: spec_fn(V) -> bool,
)
    requires
        forall|i: int| #![trigger s[i]] 0 <= i < s.len() ==> p(s[i].1),
        p(value),
    ensures
        forall|i: int|
            #![trigger sorted_insert(s, key, value)[i]]
            0 <= i < sorted_insert(s, key, value).len() ==> p(sorted_insert(s, key, value)[i].1),
{
    lemma_idx_ge(s, key);
    let j = idx_ge(s, key);
    let t = sorted_insert(s, key, value);
    assert forall|i: int| #![trigger t[i]] 0 <= i < t.len() implies p(t[i].1) by {
        if j < s.len() && s[j].0 == key {
            if i != j {
                assert(t[i] == s[i]);
            }
        } else {
            if i < j {
                assert(t[i] == s[i]);
            } else if i > j {
                assert(t[i] == s[i - 1]);
            }
        }
    }
}

/// Insertion grows the sequence by at most one entry.
pub proof fn lemma_sorted_insert_len<V>(s: Seq<(u32, V)>, key: u32, value: V)
    ensures
        s.len() <= sorted_insert(s, key, value).len() <= s.len() + 1,
{
    lemma_idx_ge(s, key);
}

/// An ordered mapping from 32-bit indices to text names.
#[derive(Clone, PartialEq, Eq, Debug)]
pub struct NameMap {
    entries: Vec<(u32, String)>,
}

impl View for NameMap {
    type V = Seq<(u32, Seq<char>)>;

    closed spec fn view(&self) -> Seq<(u32, Seq<char>)> {
        Seq::new(self.entries@.len(), |i: int| (self.entries@[i].0, self.entries@[i].1@))
    }
}

impl NameMap {
    /// The keys are strictly increasing.
    pub open spec fn wf(&self) -> bool {
        strictly_sorted(self@)
    }

    /// Create an empty mapping.
    pub fn new() -> (r: NameMap)
        ensures
            r.wf(),
            r@ == Seq::<(u32, Seq<char>)>::empty(),
    {
        let r = NameMap { entries: Vec::new() };
        proof {
            assert(r@ =~= Seq::<(u32, Seq<char>)>::empty());
        }
        r
    }

    /// Number of entries.
    pub fn len(&self) -> (r: usize)
        ensures
            r == self@.len(),
    {
        self.entries.len()
    }

    /// The entry at position `i` in key order.
    pub fn get(&self, i: usize) -> (r: &(u32, String))
        requires
            i < self@.len(),
        ensures
            r.0 == self@[i as int].0,
            r.1@ == self@[i as int].1,
    {
        &self.entries[i]
    }

    /// Insert `(key, value)`, overwriting any entry with an equal key.
    pub fn insert(&mut self, key: u32, value: String)
        requires
            old(self).wf(),
        ensures
            final(self).wf(),
            final(self)@ == sorted_insert(old(self)@, key, value@),
    {
        let mut j: usize = 0;
        while j < self.entries.len() && self.entries[j].0 < key
            invariant
                j <= self.entries@.len(),
                forall|i: int| 0 <= i < j ==> self@[i].0 < key,
                *self == *old(self),
            decreases self.entries@.len() - j,
        {
            j = j + 1;
        }
        proof {
            lemma_idx_ge(self@, key);
            let g = idx_ge(self@, key);
            if j < g {
                assert(self@[j as int].0 < key);
                assert(false);
            }
            if g < j {
                assert(self@[g].0 < key);
                assert(false);
            }
            lemma_sorted_insert_sorted(self@, key, value@);
        }
        if j < self.entries.len() && self.entries[j].0 == key {
            self.entries.remove(j);
            self.entries.insert(j, (key, value));
            proof {
                assert(self@ =~= sorted_insert(old(self)@, key, value@));
            }
        } else {
            self.entries.insert(j, (key, value));
            proof {
                assert(self@ =~= sorted_insert(old(self)@, key, value@));
            }
        }
    }
}

/// An ordered mapping from 32-bit indices to nested name maps.
#[derive(Clone, PartialEq, Eq, Debug)]
pub struct IndirectNameMap {
    entries: Vec<(u32, NameMap)>,
}

impl View for IndirectNameMap {
    type V = Seq<(u32, Seq<(u32, Seq<char>)>)>;

    closed spec fn view(&self) -> Seq<(u32, Seq<(u32, Seq<char>)>)> {
        Seq::new(self.entries@.len(), |i: int| (self.entries@[i].0, self.entries@[i].1@))
    }
}

impl IndirectNameMap {
    /// The outer keys are strictly increasing and every nested map is
    /// well formed.
    pub open spec fn wf(&self) -> bool {
        &&& strictly_sorted(self@)
        &&& forall|i: int| 0 <= i < self@.len() ==> strictly_sorted(#[trigger] self@[i].1)
    }

    /// Create an empty mapping.
    pub fn new() -> (r: IndirectNameMap)
        ensures
            r.wf(),
            r@ == Seq::<(u32, Seq<(u32, Seq<char>)>)>::empty(),
    {
        let r = IndirectNameMap { entries: Vec::new() };
        proof {
            assert(r@ =~= Seq::<(u32, Seq<(u32, Seq<char>)>)>::empty());
        }
        r
    }

    /// Number of entries.
    pub fn len(&self) -> (r: usize)
        ensures
            r == self@.len(),
    {
        self.entries.len()
    }

    /// The entry at position `i` in key order.
    pub fn get(&self, i: usize) -> (r: &(u32, NameMap))
        requires
            i < self@.len(),
        ensures
            r.0 == self@[i as int].0,
            r.1@ == self@[i as int].1,
    {
        &self.entries[i]
    }

    /// Insert `(key, value)`, overwriting any entry with an equal key.
    pub fn insert(&mut self, key: u32, value: NameMap)
        requires
            old(self).wf(),
            value.wf(),
        ensures
            final(self).wf(),
            final(self)@ == sorted_insert(old(self)@, key, value@),
    {
        let mut j: usize = 0;
        while j < self.entries.len() && self.entries[j].0 < key
            invariant
                j <= self.entries@.len(),
                forall|i: int| 0 <= i < j ==> self@[i].0 < key,
                *self == *old(self),
            decreases self.entries@.len() - j,
        {
            j = j + 1;
        }
        proof {
            lemma_idx_ge(self@, key);
            let g = idx_ge(self@, key);
            if j < g {
                assert(self@[j as int].0 < key);
                assert(false);
            }
            if g < j {
                assert(self@[g].0 < key);
                assert(false);
            }
            lemma_sorted_insert_sorted(self@, key, value@);
        }
        if j < self.entries.len() && self.entries[j].0 == key {
            self.entries.remove(j);
            self.entries.insert(j, (key, value));
            proof {
                assert(self@ =~= sorted_insert(old(self)@, key, value@));
            }
        } else {
            self.entries.insert(j, (key, value));
            proof {
                assert(self@ =~= sorted_insert(old(self)@, key, value@));
            }
        }
    }
}

} // verus!
