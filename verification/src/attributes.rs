//! Attribute maps: string key to scalar value, unordered, keys unique.
//!
//! An explicit `Null` value under a key is a first-class "clear this
//! formatting key" marker, distinct from the key being absent. An empty
//! map means "no attributes".

use vstd::prelude::*;
use crate::scalar::{Scalar, ScalarV};

verus! {

/// Mathematical shape of an attribute map.
pub type AttrMapV = Map<Seq<char>, ScalarV>;

/// A formatting attribute map, stored as an association list with unique keys.
pub struct Attributes {
    entries: Vec<(String, Scalar)>,
}

/// The map denoted by an association list; a later entry wins over an
/// earlier one with the same key.
pub open spec fn entries_map(s: Seq<(String, Scalar)>) -> AttrMapV
    decreases s.len(),
{
    if s.len() == 0 {
        Map::empty()
    } else {
        entries_map(s.drop_last()).insert(s.last().0@, s.last().1@)
    }
}

/// No two entries share a key.
pub open spec fn unique_keys(s: Seq<(String, Scalar)>) -> bool {
    forall|i: int, j: int| 0 <= i < j < s.len() ==> s[i].0@ != s[j].0@
}

impl View for Attributes {
    type V = AttrMapV;

    closed spec fn view(&self) -> AttrMapV {
        entries_map(self.entries@)
    }
}

/// The pairs of the map denoted by an association list with unique keys are
/// exactly the entries of the list.
proof fn lemma_entries_map_index(s: Seq<(String, Scalar)>, k: Seq<char>)
    requires
        unique_keys(s),
    ensures
        entries_map(s).contains_key(k) <==> (exists|i: int| 0 <= i < s.len() && s[i].0@ == k),
        forall|i: int| 0 <= i < s.len() && s[i].0@ == k ==> entries_map(s)[k] == s[i].1@,
    decreases s.len(),
{
    if s.len() > 0 {
        let prefix = s.drop_last();
        assert(unique_keys(prefix));
        lemma_entries_map_index(prefix, k);
        if s.last().0@ == k {
            assert(s[s.len() - 1].0@ == k);
        } else {
            assert(entries_map(s).contains_key(k) == entries_map(prefix).contains_key(k));
            if exists|i: int| 0 <= i < s.len() && s[i].0@ == k {
                let i = choose|i: int| 0 <= i < s.len() && s[i].0@ == k;
                assert(i < s.len() - 1);
                assert(prefix[i].0@ == k);
            }
        }
    }
}

impl Attributes {
    /// The stored entries carry pairwise distinct keys.
    pub closed spec fn wf(&self) -> bool {
        unique_keys(self.entries@)
    }

    /// The empty attribute map.
    pub fn new() -> (r: Attributes)
        ensures
            r@ == AttrMapV::empty(),
            r.wf(),
    {
        Attributes { entries: Vec::new() }
    }

    /// Whether the map holds no key at all.
    pub fn is_empty(&self) -> (r: bool)
        requires
            self.wf(),
        ensures
            r == (self@ == AttrMapV::empty()),
    {
        proof {
            if self.entries@.len() > 0 {
                lemma_entries_map_index(self.entries@, self.entries@.last().0@);
                assert(self@.contains_key(self.entries@.last().0@));
            }
        }
        self.entries.len() == 0
    }

    /// The stored key-value pairs, for callers that walk the whole map.
    pub fn entries(&self) -> (r: &Vec<(String, Scalar)>)
        ensures
            entries_map(r@) == self@,
            self.wf() ==> unique_keys(r@),
    {
        &self.entries
    }

    /// Looks a key up.
    pub fn get<'a>(&'a self, key: &String) -> (r: Option<&'a Scalar>)
        requires
            self.wf(),
        ensures
            match r {
                Some(v) => self@.contains_key(key@) && v@ == self@[key@],
                None => !self@.contains_key(key@),
            },
    {
        proof {
            lemma_entries_map_index(self.entries@, key@);
        }
        let n = self.entries.len();
        let mut i: usize = 0;
        while i < n
            invariant
                n == self.entries@.len(),
                i <= n,
                self.wf(),
                forall|j: int| 0 <= j < i ==> self.entries@[j].0@ != key@,
            decreases n - i,
        {
            if self.entries[i].0 == *key {
                proof {
                    lemma_entries_map_index(self.entries@, key@);
                    assert(self.entries@[i as int].0@ == key@);
                    assert(exists|j: int|
                        0 <= j < self.entries@.len() && self.entries@[j].0@ == key@);
                    assert(entries_map(self.entries@).contains_key(key@));
                    assert(entries_map(self.entries@)[key@] == self.entries@[i as int].1@);
                }
                return Some(&self.entries[i].1);
            }
            i = i + 1;
        }
        None
    }

    /// Binds `key` to `value`, replacing any entry the key had.
    pub fn set(&mut self, key: String, value: Scalar)
        requires
            old(self).wf(),
        ensures
            final(self)@ == old(self)@.insert(key@, value@),
            final(self).wf(),
    {
        let n = self.entries.len();
        let mut out: Vec<(String, Scalar)> = Vec::new();
        let mut i: usize = 0;
        while i < n
            invariant
                n == self.entries@.len(),
                i <= n,
                self.wf(),
                out@ == remove_key_entries(self.entries@.take(i as int), key@),
            decreases n - i,
        {
            proof {
                assert(self.entries@.take(i + 1).drop_last() =~= self.entries@.take(i as int));
                assert(self.entries@.take(i + 1).last() == self.entries@[i as int]);
            }
            if !(self.entries[i].0 == *&key) {
                let e = (self.entries[i].0.clone(), self.entries[i].1.clone());
                out.push(e);
            }
            i = i + 1;
        }
        proof {
            assert(self.entries@.take(n as int) =~= self.entries@);
            lemma_remove_key(self.entries@, key@);
        }
        out.push((key, value));
        proof {
            let removed = remove_key_entries(self.entries@, key@);
            assert(out@.drop_last() =~= removed);
            assert(out@.last() == (key, value));
            assert(entries_map(out@) =~= entries_map(self.entries@).insert(key@, value@));
            assert forall|i2: int, j2: int| 0 <= i2 < j2 < out@.len() implies out@[i2].0@
                != out@[j2].0@ by {
                if j2 == out@.len() - 1 {
                    assert(removed[i2].0@ != key@);
                }
            }
        }
        self.entries = out;
    }
}

impl Clone for Attributes {
    fn clone(&self) -> (r: Self)
        ensures
            r@ == self@,
            r.wf() <==> self.wf(),
    {
        let n = self.entries.len();
        let mut out: Vec<(String, Scalar)> = Vec::new();
        let mut i: usize = 0;
        while i < n
            invariant
                n == self.entries@.len(),
                i <= n,
                out@ == self.entries@.take(i as int),
            decreases n - i,
        {
            proof {
                assert(self.entries@.take(i + 1).drop_last() =~= self.entries@.take(i as int));
                assert(self.entries@.take(i + 1).last() == self.entries@[i as int]);
            }
            let e = (self.entries[i].0.clone(), self.entries[i].1.clone());
            out.push(e);
            i = i + 1;
        }
        proof {
            assert(self.entries@.take(n as int) =~= self.entries@);
        }
        Attributes { entries: out }
    }
}

impl Attributes {
    /// Whether one map's pairs all stand in another.
    fn submap_check(&self, other: &Attributes) -> (r: bool)
        requires
            self.wf(),
            other.wf(),
        ensures
            r == self@.submap_of(other@),
    {
        let n = self.entries.len();
        let mut i: usize = 0;
        while i < n
            invariant
                n == self.entries@.len(),
                i <= n,
                self.wf(),
                other.wf(),
                forall|j: int| #![trigger self.entries@[j]]
                    0 <= j < i ==> other@.contains_key(self.entries@[j].0@) && other@[self.entries@[j].0@]
                        == self.entries@[j].1@,
            decreases n - i,
        {
            proof {
                lemma_entries_map_index(self.entries@, self.entries@[i as int].0@);
            }
            let matches_here: bool = match other.get(&self.entries[i].0) {
                Some(w) => self.entries[i].1.eq_scalar(w),
                None => false,
            };
            if !matches_here {
                proof {
                    assert(self@.contains_key(self.entries@[i as int].0@));
                    assert(self@[self.entries@[i as int].0@] == self.entries@[i as int].1@);
                }
                return false;
            }
            i = i + 1;
        }
        proof {
            assert forall|k: Seq<char>| #[trigger] self@.dom().contains(k) implies
                other@.dom().contains(k) && self@[k] == other@[k] by {
                lemma_entries_map_index(self.entries@, k);
                let j = choose|j: int| 0 <= j < self.entries@.len() && self.entries@[j].0@ == k;
                assert(self.entries@[j].1@ == self@[k]);
            }
        }
        true
    }

    /// Map equality: same keys, same values, order of entry never counts.
    pub fn attrs_eq(&self, other: &Attributes) -> (r: bool)
        requires
            self.wf(),
            other.wf(),
        ensures
            r == (self@ == other@),
    {
        proof {
            self@.lemma_submap_eq_iff(other@);
        }
        self.submap_check(other) && other.submap_check(self)
    }
}

/// A map without its `Null`-valued keys: composing onto fresh insert content
/// resolves a clear-formatting marker away instead of carrying it along.
pub open spec fn spec_strip_nulls(m: AttrMapV) -> AttrMapV {
    Map::new(|k: Seq<char>| m.contains_key(k) && m[k] != ScalarV::Null, |k: Seq<char>| m[k])
}

/// Attribute maps merged under compose semantics: `b` wins over `a`, and a
/// `Null` marker survives only when `keep_null` asks for it.
pub open spec fn spec_attrs_compose(a: AttrMapV, b: AttrMapV, keep_null: bool) -> AttrMapV {
    if keep_null {
        a.union_prefer_right(b)
    } else {
        spec_strip_nulls(a.union_prefer_right(b))
    }
}

/// Attribute maps merged under transform semantics: without priority `b`
/// stands as it is; with priority `a`'s keys shadow `b`'s.
pub open spec fn spec_attrs_transform(a: AttrMapV, b: AttrMapV, priority: bool) -> AttrMapV {
    if priority {
        b.remove_keys(a.dom())
    } else {
        b
    }
}

/// Merges two attribute maps under compose semantics.
pub fn attrs_compose(a: &Attributes, b: &Attributes, keep_null: bool) -> (r: Attributes)
    requires
        a.wf(),
        b.wf(),
    ensures
        r@ == spec_attrs_compose(a@, b@, keep_null),
        r.wf(),
{
    let mut merged = a.clone();
    let n = b.entries.len();
    let mut i: usize = 0;
    while i < n
        invariant
            n == b.entries@.len(),
            i <= n,
            a.wf(),
            b.wf(),
            merged.wf(),
            merged@ == a@.union_prefer_right(entries_map(b.entries@.take(i as int))),
        decreases n - i,
    {
        proof {
            assert(b.entries@.take(i + 1).drop_last() =~= b.entries@.take(i as int));
            assert(b.entries@.take(i + 1).last() == b.entries@[i as int]);
        }
        let e = (b.entries[i].0.clone(), b.entries[i].1.clone());
        merged.set(e.0, e.1);
        proof {
            assert(merged@ =~= a@.union_prefer_right(entries_map(b.entries@.take(i + 1))));
        }
        i = i + 1;
    }
    proof {
        assert(b.entries@.take(n as int) =~= b.entries@);
    }
    if keep_null {
        merged
    } else {
        let m = merged.entries.len();
        let mut out = Attributes::new();
        let mut i2: usize = 0;
        while i2 < m
            invariant
                m == merged.entries@.len(),
                i2 <= m,
                merged.wf(),
                out.wf(),
                out@ == spec_strip_nulls(entries_map(merged.entries@.take(i2 as int))),
            decreases m - i2,
        {
            proof {
                assert(merged.entries@.take(i2 + 1).drop_last() =~= merged.entries@.take(
                    i2 as int,
                ));
                assert(merged.entries@.take(i2 + 1).last() == merged.entries@[i2 as int]);
                assert(unique_keys(merged.entries@.take(i2 + 1)));
                lemma_entries_map_index(
                    merged.entries@.take(i2 as int),
                    merged.entries@[i2 as int].0@,
                );
            }
            if !merged.entries[i2].1.is_null() {
                let e = (merged.entries[i2].0.clone(), merged.entries[i2].1.clone());
                out.set(e.0, e.1);
            }
            proof {
                assert(out@ =~= spec_strip_nulls(entries_map(merged.entries@.take(i2 + 1))));
            }
            i2 = i2 + 1;
        }
        proof {
            assert(merged.entries@.take(m as int) =~= merged.entries@);
        }
        out
    }
}

/// Merges two attribute maps under transform semantics.
pub fn attrs_transform(a: &Attributes, b: &Attributes, priority: bool) -> (r: Attributes)
    requires
        a.wf(),
        b.wf(),
    ensures
        r@ == spec_attrs_transform(a@, b@, priority),
        r.wf(),
{
    if !priority {
        return b.clone();
    }
    let n = b.entries.len();
    let mut out = Attributes::new();
    let mut i: usize = 0;
    while i < n
        invariant
            n == b.entries@.len(),
            i <= n,
            a.wf(),
            b.wf(),
            out.wf(),
            out@ == entries_map(b.entries@.take(i as int)).remove_keys(a@.dom()),
        decreases n - i,
    {
        proof {
            assert(b.entries@.take(i + 1).drop_last() =~= b.entries@.take(i as int));
            assert(b.entries@.take(i + 1).last() == b.entries@[i as int]);
        }
        if a.get(&b.entries[i].0).is_none() {
            let e = (b.entries[i].0.clone(), b.entries[i].1.clone());
            out.set(e.0, e.1);
        }
        proof {
            assert(out@ =~= entries_map(b.entries@.take(i + 1)).remove_keys(a@.dom()));
        }
        i = i + 1;
    }
    proof {
        assert(b.entries@.take(n as int) =~= b.entries@);
    }
    out
}

/// The empty attribute map, for building operations that carry no formatting.
pub fn none() -> (r: Attributes)
    ensures
        r@ == AttrMapV::empty(),
        r.wf(),
{
    Attributes::new()
}

/// The association list without any entry under key `k`.
pub open spec fn remove_key_entries(s: Seq<(String, Scalar)>, k: Seq<char>) -> Seq<(String, Scalar)>
    decreases s.len(),
{
    if s.len() == 0 {
        Seq::empty()
    } else if s.last().0@ == k {
        remove_key_entries(s.drop_last(), k)
    } else {
        remove_key_entries(s.drop_last(), k).push(s.last())
    }
}

/// Dropping one key keeps the remaining entries, their order and their
/// uniqueness, and removes exactly that key from the denoted map.
proof fn lemma_remove_key(s: Seq<(String, Scalar)>, k: Seq<char>)
    requires
        unique_keys(s),
    ensures
        unique_keys(remove_key_entries(s, k)),
        forall|i: int| #![trigger remove_key_entries(s, k)[i]]
            0 <= i < remove_key_entries(s, k).len() ==> remove_key_entries(s, k)[i].0@ != k,
        forall|i: int| #![trigger remove_key_entries(s, k)[i]]
            0 <= i < remove_key_entries(s, k).len() ==> exists|i0: int|
                0 <= i0 < s.len() && #[trigger] s[i0] == remove_key_entries(s, k)[i],
        entries_map(remove_key_entries(s, k)) == entries_map(s).remove(k),
    decreases s.len(),
{
    let rm = remove_key_entries(s, k);
    if s.len() == 0 {
        assert(entries_map(rm) =~= entries_map(s).remove(k));
    } else {
        let prefix = s.drop_last();
        assert(unique_keys(prefix));
        lemma_remove_key(prefix, k);
        let rmp = remove_key_entries(prefix, k);
        if s.last().0@ == k {
            assert(rm == rmp);
            assert(entries_map(rm) =~= entries_map(s).remove(k));
            assert forall|i: int| #![trigger rm[i]]
                0 <= i < rm.len() implies exists|i0: int|
                0 <= i0 < s.len() && #[trigger] s[i0] == rm[i] by {
                let i0 = choose|i0: int| 0 <= i0 < prefix.len() && #[trigger] prefix[i0] == rmp[i];
                assert(s[i0] == rm[i]);
            }
        } else {
            assert(rm == rmp.push(s.last()));
            assert(rm.drop_last() =~= rmp);
            assert(rm.last() == s.last());
            assert(entries_map(rm) == entries_map(rmp).insert(s.last().0@, s.last().1@));
            assert(entries_map(rm) =~= entries_map(s).remove(k));
            assert forall|i: int| #![trigger rm[i]]
                0 <= i < rm.len() implies exists|i0: int|
                0 <= i0 < s.len() && #[trigger] s[i0] == rm[i] by {
                if i < rmp.len() {
                    let i0 = choose|i0: int|
                        0 <= i0 < prefix.len() && #[trigger] prefix[i0] == rmp[i];
                    assert(s[i0] == rm[i]);
                } else {
                    assert(s[s.len() - 1] == rm[i]);
                }
            }
            assert forall|i2: int, j2: int| 0 <= i2 < j2 < rm.len() implies rm[i2].0@
                != rm[j2].0@ by {
                if j2 == rm.len() - 1 {
                    let i0 = choose|i0: int| 0 <= i0 < prefix.len() && #[trigger] prefix[i0] == rmp[i2];
                    assert(s[i0].0@ != s.last().0@);
                }
            }
        }
    }
}

} // verus!
