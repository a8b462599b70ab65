//! A map from attribute paths to value texts.
use vstd::prelude::*;

verus! {

/// The map that a sequence of insertions builds, the later winning.
pub open spec fn map_of(s: Seq<(String, String)>) -> Map<Seq<char>, Seq<char>>
    decreases s.len(),
{
    if s.len() == 0 {
        Map::empty()
    } else {
        map_of(s.drop_last()).insert(s.last().0@, s.last().1@)
    }
}

/// No key occurs twice.
pub open spec fn keys_unique(s: Seq<(String, String)>) -> bool {
    forall|i: int, j: int| 0 <= i < j < s.len() ==> s[i].0@ != s[j].0@
}

pub proof fn lemma_map_of(s: Seq<(String, String)>)
    requires
        keys_unique(s),
    ensures
        map_of(s).dom().finite(),
        map_of(s).dom().len() == s.len(),
        forall|i: int| 0 <= i < s.len() ==> #[trigger] map_of(s).contains_key(s[i].0@) && map_of(s)[s[i].0@] == s[i].1@,
        forall|k: Seq<char>| map_of(s).contains_key(k) ==> exists|i: int| 0 <= i < s.len() && #[trigger] s[i].0@ == k,
    decreases s.len(),
{
    if s.len() > 0 {
        let p = s.drop_last();
        assert(keys_unique(p));
        lemma_map_of(p);
        assert(!map_of(p).contains_key(s.last().0@)) by {
            if map_of(p).contains_key(s.last().0@) {
                let i = choose|i: int| 0 <= i < p.len() && #[trigger] p[i].0@ == s.last().0@;
                assert(s[i].0@ != s[s.len() - 1].0@);
            }
        }
        assert forall|i: int| 0 <= i < s.len() implies #[trigger] map_of(s).contains_key(s[i].0@) && map_of(s)[s[i].0@] == s[i].1@ by {
            if i < s.len() - 1 {
                assert(p[i] == s[i]);
                assert(s[i].0@ != s[s.len() - 1].0@);
            }
        }
        assert forall|k: Seq<char>| map_of(s).contains_key(k) implies exists|i: int| 0 <= i < s.len() && #[trigger] s[i].0@ == k by {
            if k != s.last().0@ {
                let i = choose|i: int| 0 <= i < p.len() && #[trigger] p[i].0@ == k;
                assert(s[i] == p[i]);
            } else {
                assert(s[s.len() - 1].0@ == k);
            }
        }
    }
}

/// A map from attribute paths to the texts of their values.
pub struct AttrMap {
    entries: Vec<(String, String)>,
}

impl View for AttrMap {
    type V = Map<Seq<char>, Seq<char>>;

    closed spec fn view(&self) -> Map<Seq<char>, Seq<char>> {
        map_of(self.entries@)
    }
}

impl AttrMap {
    #[verifier::type_invariant]
    spec fn inv(self) -> bool {
        keys_unique(self.entries@)
    }

    /// The empty map.
    pub fn new() -> (m: AttrMap)
        ensures
            m@ == Map::<Seq<char>, Seq<char>>::empty(),
    {
        AttrMap { entries: Vec::new() }
    }

    /// Binds `k` to `v`, replacing an earlier binding of `k`.
    pub fn insert(&mut self, k: String, v: String)
        ensures
            final(self)@ == old(self)@.insert(k@, v@),
    {
        proof {
            use_type_invariant(&*self);
            lemma_map_of(self.entries@);
        }
        let ghost old_entries = self.entries@;
        let mut i: usize = 0;
        while i < self.entries.len()
            invariant
                i <= self.entries.len(),
                self.entries@ == old_entries,
                old_entries == old(self).entries@,
                keys_unique(old_entries),
                forall|j: int| 0 <= j < i ==> old_entries[j].0@ != k@,
            decreases self.entries.len() - i,
        {
            if self.entries[i].0 == k {
                let ghost e = old_entries.update(i as int, (k, v));
                proof {
                    lemma_map_of(old_entries);
                    assert(keys_unique(e));
                    lemma_map_of(e);
                    assert forall|key: Seq<char>| map_of(e).contains_key(key) <==> map_of(old_entries).insert(k@, v@).contains_key(key) by {
                        if map_of(e).contains_key(key) {
                            let j = choose|j: int| 0 <= j < e.len() && #[trigger] e[j].0@ == key;
                            if j != i {
                                assert(map_of(old_entries).contains_key(old_entries[j].0@));
                            }
                        }
                        if map_of(old_entries).contains_key(key) && key != k@ {
                            let j = choose|j: int| 0 <= j < old_entries.len() && #[trigger] old_entries[j].0@ == key;
                            assert(e[j] == old_entries[j]);
                            assert(map_of(e).contains_key(e[j].0@));
                        }
                        if key == k@ {
                            assert(map_of(e).contains_key(e[i as int].0@));
                        }
                    }
                    assert forall|key: Seq<char>| map_of(e).contains_key(key) implies map_of(e)[key] == map_of(old_entries).insert(k@, v@)[key] by {
                        let j = choose|j: int| 0 <= j < e.len() && #[trigger] e[j].0@ == key;
                        if j != i {
                            assert(e[j] == old_entries[j]);
                            assert(map_of(old_entries)[old_entries[j].0@] == old_entries[j].1@);
                        }
                    }
                    assert(map_of(e) =~= map_of(old_entries).insert(k@, v@));
                }
                let mut es: Vec<(String, String)> = Vec::new();
                std::mem::swap(&mut es, &mut self.entries);
                es.set(i, (k, v));
                proof {
                    assert(es@ =~= e);
                }
                self.entries = es;
                proof {
                    assert(self@ == map_of(e));
                    assert(map_of(e) == map_of(old_entries).insert(k@, v@));
                }
                return;
            }
            i = i + 1;
        }
        let ghost e = old_entries.push((k, v));
        proof {
            assert(e.drop_last() =~= old_entries);
            assert(keys_unique(e)) by {
                assert forall|a: int, b: int| 0 <= a < b < e.len() implies e[a].0@ != e[b].0@ by {
                    if b < e.len() - 1 {
                        assert(e[a] == old_entries[a] && e[b] == old_entries[b]);
                    }
                }
            }
        }
        let mut es: Vec<(String, String)> = Vec::new();
        std::mem::swap(&mut es, &mut self.entries);
        es.push((k, v));
        self.entries = es;
    }

    /// The value text bound to `k`.
    pub fn get(&self, k: &str) -> (r: Option<&String>)
        ensures
            r matches Some(v) ==> self@.contains_key(k@) && self@[k@] == v@,
            r is None ==> !self@.contains_key(k@),
    {
        proof {
            use_type_invariant(self);
            lemma_map_of(self.entries@);
        }
        let mut i: usize = 0;
        while i < self.entries.len()
            invariant
                i <= self.entries.len(),
                keys_unique(self.entries@),
                forall|j: int| 0 <= j < i ==> self.entries@[j].0@ != k@,
            decreases self.entries.len() - i,
        {
            if crate::strings::str_eq(self.entries[i].0.as_str(), k) {
                proof {
                    lemma_map_of(self.entries@);
                    assert(map_of(self.entries@).contains_key(self.entries@[i as int].0@));
                }
                return Some(&self.entries[i].1);
            }
            i = i + 1;
        }
        proof {
            if map_of(self.entries@).contains_key(k@) {
                let j = choose|j: int| 0 <= j < self.entries@.len() && #[trigger] self.entries@[j].0@ == k@;
            }
        }
        None
    }

    /// The number of bindings.
    pub fn len(&self) -> (n: usize)
        ensures
            n == self@.dom().len(),
    {
        proof {
            use_type_invariant(self);
            lemma_map_of(self.entries@);
        }
        self.entries.len()
    }

    /// The number of bindings, with the facts that tie them to the map.
    pub fn entry_count(&self) -> (n: usize)
        ensures
            n == self.pairs().len(),
            keys_unique(self.pairs()),
            self@ == map_of(self.pairs()),
    {
        proof {
            use_type_invariant(self);
        }
        self.entries.len()
    }

    /// The bindings, in the order they were made.
    pub closed spec fn pairs(self) -> Seq<(String, String)> {
        self.entries@
    }

    /// The `i`-th binding.
    pub fn entry(&self, i: usize) -> (r: (&String, &String))
        requires
            i < self.pairs().len(),
        ensures
            r.0@ == self.pairs()[i as int].0@,
            r.1@ == self.pairs()[i as int].1@,
    {
        (&self.entries[i].0, &self.entries[i].1)
    }
}

} // verus!
