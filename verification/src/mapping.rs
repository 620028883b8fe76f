//! The key/value mapping produced by a successful configuration parse.
//!
//! Keys are unique; inserting a value under a key that is already present
//! replaces the earlier value.  The mathematical view of a mapping is a
//! `Map<Seq<char>, Seq<char>>` from key names to decoded values.

use vstd::prelude::*;

verus! {

/// A mapping from configuration variable names to their decoded values.
#[derive(Debug)]
pub struct ConfigMapping {
    entries: Vec<(String, String)>,
}

/// The map described by a sequence of key/value pairs: each pair is added
/// in order, so a later pair with the same key shadows an earlier one.
spec fn entries_map(s: Seq<(String, String)>) -> Map<Seq<char>, Seq<char>>
    decreases s.len(),
{
    if s.len() == 0 {
        Map::empty()
    } else {
        entries_map(s.drop_last()).insert(s.last().0@, s.last().1@)
    }
}

/// A key is in the map of a pair sequence exactly when some pair holds it.
proof fn lemma_entries_map_contains(s: Seq<(String, String)>, k: Seq<char>)
    ensures
        entries_map(s).contains_key(k) <==> exists|i: int| 0 <= i < s.len() && s[i].0@ == k,
    decreases s.len(),
{
    if s.len() > 0 {
        lemma_entries_map_contains(s.drop_last(), k);
        if s.last().0@ == k {
            assert(s[s.len() - 1].0@ == k);
        } else {
            if entries_map(s).contains_key(k) {
                let i = choose|i: int| 0 <= i < s.drop_last().len() && s.drop_last()[i].0@ == k;
                assert(s[i].0@ == k);
            }
            if exists|i: int| 0 <= i < s.len() && s[i].0@ == k {
                let i = choose|i: int| 0 <= i < s.len() && s[i].0@ == k;
                assert(i < s.len() - 1);
                assert(s.drop_last()[i].0@ == k);
            }
        }
    }
}

/// With pairwise-distinct keys, the map sends each stored key to the value
/// stored beside it.
proof fn lemma_entries_map_index(s: Seq<(String, String)>, i: int)
    requires
        0 <= i < s.len(),
        forall|x: int, y: int| 0 <= x < y < s.len() ==> s[x].0@ != s[y].0@,
    ensures
        entries_map(s).contains_key(s[i].0@),
        entries_map(s)[s[i].0@] == s[i].1@,
    decreases s.len(),
{
    if i == s.len() - 1 {
        assert(s.last() == s[i]);
    } else {
        lemma_entries_map_index(s.drop_last(), i);
        assert(s.drop_last()[i] == s[i]);
        assert(s.last().0@ != s[i].0@);
    }
}

/// With pairwise-distinct keys, the map has exactly one entry per pair.
proof fn lemma_entries_map_len(s: Seq<(String, String)>)
    requires
        forall|x: int, y: int| 0 <= x < y < s.len() ==> s[x].0@ != s[y].0@,
    ensures
        entries_map(s).dom().finite(),
        entries_map(s).dom().len() == s.len(),
    decreases s.len(),
{
    if s.len() == 0 {
        assert(entries_map(s).dom() =~= Set::<Seq<char>>::empty());
    } else {
        lemma_entries_map_len(s.drop_last());
        lemma_entries_map_contains(s.drop_last(), s.last().0@);
        assert forall|i: int|
            0 <= i < s.drop_last().len() implies s.drop_last()[i].0@ != s.last().0@ by {
            assert(s[i].0@ != s[s.len() - 1].0@);
        }
        assert(!entries_map(s.drop_last()).dom().contains(s.last().0@));
        assert(entries_map(s).dom() =~= entries_map(s.drop_last()).dom().insert(s.last().0@));
        broadcast use vstd::set::axiom_set_insert_len;

    }
}

/// Replacing the pair whose key has the same view rewrites that one binding.
proof fn lemma_entries_map_update(s: Seq<(String, String)>, i: int, p: (String, String))
    requires
        0 <= i < s.len(),
        s[i].0@ == p.0@,
        forall|x: int, y: int| 0 <= x < y < s.len() ==> s[x].0@ != s[y].0@,
    ensures
        entries_map(s.update(i, p)) == entries_map(s).insert(p.0@, p.1@),
    decreases s.len(),
{
    let t = s.update(i, p);
    if i == s.len() - 1 {
        assert(t.drop_last() =~= s.drop_last());
        assert(t.last() == p);
        assert(entries_map(t) =~= entries_map(s).insert(p.0@, p.1@));
    } else {
        assert(t.last() == s.last());
        assert(t.drop_last() =~= s.drop_last().update(i, p));
        assert(s.drop_last()[i] == s[i]);
        lemma_entries_map_update(s.drop_last(), i, p);
        assert(s.last().0@ != p.0@);
        assert(entries_map(t) == entries_map(s.drop_last()).insert(p.0@, p.1@).insert(
            s.last().0@,
            s.last().1@,
        ));
        assert(entries_map(s.drop_last()).insert(p.0@, p.1@).insert(s.last().0@, s.last().1@)
            =~= entries_map(s).insert(p.0@, p.1@));
    }
}

impl View for ConfigMapping {
    type V = Map<Seq<char>, Seq<char>>;

    closed spec fn view(&self) -> Map<Seq<char>, Seq<char>> {
        entries_map(self.entries@)
    }
}

impl ConfigMapping {
    /// The keys stored in the backing vector are pairwise distinct.
    pub closed spec fn well_formed(self) -> bool {
        forall|i: int, j: int|
            0 <= i < j < self.entries@.len() ==> self.entries@[i].0@ != self.entries@[j].0@
    }

    /// Create an empty mapping.
    pub fn new() -> (r: ConfigMapping)
        ensures
            r.well_formed(),
            r@ == Map::<Seq<char>, Seq<char>>::empty(),
    {
        ConfigMapping { entries: Vec::new() }
    }

    /// Bind `name` to `value`, replacing any earlier binding of `name`.
    pub fn insert(&mut self, name: String, value: String)
        requires
            old(self).well_formed(),
        ensures
            final(self).well_formed(),
            final(self)@ == old(self)@.insert(name@, value@),
    {
        let n = self.entries.len();
        let mut i: usize = 0;
        while i < n
            invariant
                self == old(self),
                self.well_formed(),
                n == self.entries@.len(),
                0 <= i <= n,
                forall|j: int| 0 <= j < i ==> self.entries@[j].0@ != name@,
            decreases n - i,
        {
            if self.entries[i].0.eq(&name) {
                let ghost s = self.entries@;
                proof {
                    assert forall|x: int, y: int|
                        0 <= x < y < s.len() implies s[x].0@ != s[y].0@ by {
                        assert(self.entries@[x].0@ != self.entries@[y].0@);
                    }
                }
                self.entries[i] = (name, value);
                proof {
                    lemma_entries_map_update(s, i as int, self.entries@[i as int]);
                    assert forall|x: int, y: int|
                        0 <= x < y < self.entries@.len() implies self.entries@[x].0@
                        != self.entries@[y].0@ by {
                        assert(s[x].0@ != s[y].0@);
                        assert(self.entries@ == s.update(i as int, (name, value)));
                        if x == i {
                            assert(self.entries@[x].0@ == name@);
                            assert(s[x].0@ == name@);
                        } else {
                            assert(self.entries@[x] == s[x]);
                        }
                        if y == i {
                            assert(self.entries@[y].0@ == name@);
                            assert(s[y].0@ == name@);
                        } else {
                            assert(self.entries@[y] == s[y]);
                        }
                    }
                }
                return ;
            }
            i += 1;
        }
        let ghost s = self.entries@;
        self.entries.push((name, value));
        proof {
            assert(self.entries@.drop_last() =~= s);
            assert(self.entries@.last() == (name, value));
            lemma_entries_map_contains(s, name@);
        }
    }

    /// Look up the value bound to `name`.
    pub fn get(&self, name: &str) -> (r: Option<&String>)
        requires
            self.well_formed(),
        ensures
            match r {
                Some(v) => self@.contains_key(name@) && v@ == self@[name@],
                None => !self@.contains_key(name@),
            },
    {
        let n = self.entries.len();
        let mut i: usize = 0;
        while i < n
            invariant
                n == self.entries@.len(),
                0 <= i <= n,
                self.well_formed(),
                forall|j: int| 0 <= j < i ==> self.entries@[j].0@ != name@,
            decreases n - i,
        {
            if crate::str_eq(self.entries[i].0.as_str(), name) {
                proof {
                    lemma_entries_map_index(self.entries@, i as int);
                }
                return Some(&self.entries[i].1);
            }
            i += 1;
        }
        proof {
            lemma_entries_map_contains(self.entries@, name@);
        }
        None
    }

    /// The bindings held by the mapping, one pair per key.
    pub fn entries(&self) -> (r: Vec<(String, String)>)
        requires
            self.well_formed(),
        ensures
            r@.len() == self@.dom().len(),
            forall|i: int|
                0 <= i < r@.len() ==> self@.contains_key(#[trigger] r@[i].0@) && self@[r@[i].0@]
                    == r@[i].1@,
    {
        let n = self.entries.len();
        let mut r: Vec<(String, String)> = Vec::new();
        let mut i: usize = 0;
        while i < n
            invariant
                n == self.entries@.len(),
                0 <= i <= n,
                r@.len() == i,
                self.well_formed(),
                forall|j: int|
                    0 <= j < i ==> r@[j].0@ == self.entries@[j].0@ && r@[j].1@
                        == self.entries@[j].1@,
            decreases n - i,
        {
            r.push((self.entries[i].0.clone(), self.entries[i].1.clone()));
            i += 1;
        }
        proof {
            lemma_entries_map_len(self.entries@);
            assert forall|j: int|
                0 <= j < r@.len() implies self@.contains_key(#[trigger] r@[j].0@)
                && self@[r@[j].0@] == r@[j].1@ by {
                lemma_entries_map_index(self.entries@, j);
            }
        }
        r
    }

    /// The number of bindings held by the mapping.
    pub fn len(&self) -> (r: usize)
        requires
            self.well_formed(),
        ensures
            r == self@.dom().len(),
    {
        proof {
            lemma_entries_map_len(self.entries@);
        }
        self.entries.len()
    }
}

} // verus!
