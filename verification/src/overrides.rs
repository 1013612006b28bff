//! The override map: a table of spacing hints keyed by joined trace paths.
//!
//! Entries are inserted when a `display:flex` declaration with a `gap` value
//! is found and removed wholesale, by key prefix, when the traversal leaves
//! the scope that declared them.  The map is an ordered list of entries in
//! which a later entry for a key overrides an earlier one; its model is the
//! finite map they denote.
use vstd::map::*;
use vstd::prelude::*;

use crate::strutil::{is_prefix, starts_with_str, str_eq};

verus! {

/// The finite map an entry list denotes: later entries override earlier
/// ones.
pub open spec fn om(s: Seq<(Seq<char>, Seq<char>)>) -> Map<Seq<char>, Seq<char>>
    decreases s,
{
    if s.len() == 0 {
        Map::empty()
    } else {
        om(s.drop_last()).insert(s.last().0, s.last().1)
    }
}

/// `m` without every key that `p` is a prefix of.
pub open spec fn remove_prefixed(m: Map<Seq<char>, Seq<char>>, p: Seq<char>) -> Map<
    Seq<char>,
    Seq<char>,
> {
    Map::new(|k: Seq<char>| m.dom().contains(k) && !is_prefix(p, k), |k: Seq<char>| m[k])
}

/// A prefix of a prefix is a prefix.
pub proof fn lemma_prefix_trans(p: Seq<char>, q: Seq<char>, k: Seq<char>)
    requires
        is_prefix(p, q),
        is_prefix(q, k),
    ensures
        is_prefix(p, k),
{
    assert forall|i: int| 0 <= i < p.len() implies k.subrange(0, p.len() as int)[i] == p[i] by {
        assert(q.subrange(0, p.len() as int)[i] == p[i]);
        assert(k.subrange(0, q.len() as int)[i] == q[i]);
    }
    assert(k.subrange(0, p.len() as int) =~= p);
}

/// A string is a prefix of itself followed by anything.
pub proof fn lemma_prefix_append(p: Seq<char>, rest: Seq<char>)
    ensures
        is_prefix(p, p + rest),
{
    assert((p + rest).subrange(0, p.len() as int) =~= p);
}

/// A prefix of a string is a prefix of that string followed by anything.
pub proof fn lemma_prefix_extend(p: Seq<char>, a: Seq<char>, b: Seq<char>)
    requires
        is_prefix(p, a),
    ensures
        is_prefix(p, a + b),
{
    assert((a + b).subrange(0, p.len() as int) =~= a.subrange(0, p.len() as int));
}

/// Inserting a key the prefix does not cover commutes with the removal.
pub proof fn lemma_rp_insert_kept(
    m: Map<Seq<char>, Seq<char>>,
    p: Seq<char>,
    k: Seq<char>,
    v: Seq<char>,
)
    requires
        !is_prefix(p, k),
    ensures
        remove_prefixed(m.insert(k, v), p) == remove_prefixed(m, p).insert(k, v),
{
    assert_maps_equal!(remove_prefixed(m.insert(k, v), p), remove_prefixed(m, p).insert(k, v));
}

/// Inserting a key the prefix covers leaves the removal's result unchanged.
pub proof fn lemma_rp_insert_dropped(
    m: Map<Seq<char>, Seq<char>>,
    p: Seq<char>,
    k: Seq<char>,
    v: Seq<char>,
)
    requires
        is_prefix(p, k),
    ensures
        remove_prefixed(m.insert(k, v), p) == remove_prefixed(m, p),
{
    assert_maps_equal!(remove_prefixed(m.insert(k, v), p), remove_prefixed(m, p));
}

/// Removing by a longer prefix first changes nothing about removing by a
/// shorter one.
pub proof fn lemma_rp_absorb(m: Map<Seq<char>, Seq<char>>, p: Seq<char>, q: Seq<char>)
    requires
        is_prefix(p, q),
    ensures
        remove_prefixed(remove_prefixed(m, q), p) == remove_prefixed(m, p),
{
    assert forall|k: Seq<char>|
        remove_prefixed(remove_prefixed(m, q), p).dom().contains(k) == remove_prefixed(
            m,
            p,
        ).dom().contains(k) by {
        if m.dom().contains(k) && !is_prefix(p, k) && is_prefix(q, k) {
            lemma_prefix_trans(p, q, k);
        }
    }
    assert_maps_equal!(remove_prefixed(remove_prefixed(m, q), p), remove_prefixed(m, p));
}

/// Removing by the same prefix twice is the same as once.
pub proof fn lemma_rp_idem(m: Map<Seq<char>, Seq<char>>, p: Seq<char>)
    ensures
        remove_prefixed(remove_prefixed(m, p), p) == remove_prefixed(m, p),
{
    assert_maps_equal!(remove_prefixed(remove_prefixed(m, p), p), remove_prefixed(m, p));
}

/// The scope-tagged table of spacing overrides.
pub struct OverrideMap {
    pub entries: Vec<(String, String)>,
}

impl OverrideMap {
    /// The finite map these entries denote.
    pub open spec fn as_map(&self) -> Map<Seq<char>, Seq<char>> {
        om(self.entries.deep_view())
    }

    /// An empty table.
    pub fn new() -> (r: OverrideMap)
        ensures
            r.as_map() == Map::<Seq<char>, Seq<char>>::empty(),
    {
        let r = OverrideMap { entries: Vec::new() };
        proof {
            assert(r.entries.deep_view() =~= Seq::<(Seq<char>, Seq<char>)>::empty());
        }
        r
    }

    /// Binds `key` to `value`, overriding any earlier entry for it.
    pub fn insert(&mut self, key: String, value: String)
        ensures
            final(self).as_map() == old(self).as_map().insert(key@, value@),
    {
        let ghost before = self.entries.deep_view();
        let ghost kv = (key@, value@);
        self.entries.push((key, value));
        proof {
            assert(self.entries.deep_view() =~= before.push(kv));
            assert(before.push(kv).drop_last() =~= before);
            assert(before.push(kv).last() == kv);
        }
    }

    /// The value bound to `key`, if any: the latest binding wins.
    pub fn get(&self, key: &str) -> (r: Option<String>)
        ensures
            match r {
                Some(v) => self.as_map().dom().contains(key@) && self.as_map()[key@] == v@,
                None => !self.as_map().dom().contains(key@),
            },
    {
        let ghost s = self.entries.deep_view();
        let mut i: usize = self.entries.len();
        proof {
            assert(s.take(s.len() as int) =~= s);
        }
        while i > 0
            invariant
                s == self.entries.deep_view(),
                i <= self.entries@.len(),
                om(s).dom().contains(key@) == om(s.take(i as int)).dom().contains(key@),
                om(s).dom().contains(key@) ==> om(s)[key@] == om(s.take(i as int))[key@],
            decreases i,
        {
            i = i - 1;
            proof {
                assert(s.take(i as int + 1).drop_last() =~= s.take(i as int));
                assert(s.take(i as int + 1).last() == s[i as int]);
                assert(s[i as int].0 == self.entries@[i as int].0@);
                assert(s[i as int].1 == self.entries@[i as int].1@);
            }
            if str_eq(self.entries[i].0.as_str(), key) {
                return Some(self.entries[i].1.clone());
            }
        }
        proof {
            assert(s.take(0) =~= Seq::<(Seq<char>, Seq<char>)>::empty());
        }
        None
    }

    /// Removes every entry whose key has `p` as a prefix, keeping the rest
    /// in order.
    pub fn remove_prefix(&mut self, p: &str)
        ensures
            final(self).as_map() == remove_prefixed(old(self).as_map(), p@),
    {
        let ghost s = self.entries.deep_view();
        let n = self.entries.len();
        let mut kept: Vec<(String, String)> = Vec::new();
        let mut i: usize = 0;
        proof {
            assert(kept.deep_view() =~= Seq::<(Seq<char>, Seq<char>)>::empty());
            assert(s.take(0) =~= Seq::<(Seq<char>, Seq<char>)>::empty());
            assert_maps_equal!(om(kept.deep_view()), remove_prefixed(om(s.take(0)), p@));
        }
        while i < n
            invariant
                s == self.entries.deep_view(),
                n == self.entries@.len(),
                i <= n,
                om(kept.deep_view()) == remove_prefixed(om(s.take(i as int)), p@),
            decreases n - i,
        {
            proof {
                assert(s.take(i as int + 1).drop_last() =~= s.take(i as int));
                assert(s.take(i as int + 1).last() == s[i as int]);
                assert(s[i as int].0 == self.entries@[i as int].0@);
                assert(s[i as int].1 == self.entries@[i as int].1@);
            }
            if starts_with_str(self.entries[i].0.as_str(), p) {
                proof {
                    lemma_rp_insert_dropped(om(s.take(i as int)), p@, s[i as int].0, s[i as int].1);
                }
            } else {
                let ghost before = kept.deep_view();
                let entry = (self.entries[i].0.clone(), self.entries[i].1.clone());
                proof {
                    assert(entry.deep_view() == s[i as int]);
                }
                kept.push(entry);
                proof {
                    assert(kept.deep_view() =~= before.push(s[i as int]));
                    assert(before.push(s[i as int]).drop_last() =~= before);
                    lemma_rp_insert_kept(om(s.take(i as int)), p@, s[i as int].0, s[i as int].1);
                }
            }
            i = i + 1;
        }
        proof {
            assert(s.take(n as int) =~= s);
        }
        self.entries = kept;
    }
}

} // verus!
