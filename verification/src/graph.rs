use vstd::prelude::*;
use crate::vertex::Vertex;

verus! {

/// The adjacency map denoted by a sequence of keyed entries; a later entry
/// for the same key wins.
pub open spec fn map_of(s: Seq<(Vertex, Vec<Vertex>)>) -> Map<Vertex, Seq<Vertex>>
    decreases s.len(),
{
    if s.len() == 0 {
        Map::empty()
    } else {
        map_of(s.drop_last()).insert(s.last().0, s.last().1@)
    }
}

/// The keys of a sequence of entries, in order.
pub open spec fn keys_of(s: Seq<(Vertex, Vec<Vertex>)>) -> Seq<Vertex> {
    s.map_values(|e: (Vertex, Vec<Vertex>)| e.0)
}

proof fn lemma_map_of_contains(s: Seq<(Vertex, Vec<Vertex>)>)
    ensures
        forall|k: Vertex| #[trigger] map_of(s).contains_key(k) <==> keys_of(s).contains(k),
    decreases s.len(),
{
    if s.len() == 0 {
        assert forall|k: Vertex| #[trigger] map_of(s).contains_key(k) <==> keys_of(
            s,
        ).contains(k) by {
            assert(!map_of(s).contains_key(k));
            assert(keys_of(s).len() == 0);
        }
    } else {
        let sdl = s.drop_last();
        lemma_map_of_contains(sdl);
        assert(map_of(s) == map_of(sdl).insert(s.last().0, s.last().1@));
        assert(keys_of(sdl) =~= keys_of(s).drop_last());
        assert forall|k: Vertex| #[trigger] map_of(s).contains_key(k) implies keys_of(
            s,
        ).contains(k) by {
            if k == s.last().0 {
                assert(keys_of(s)[s.len() - 1] == k);
            } else {
                assert(map_of(sdl).contains_key(k));
                assert(keys_of(sdl).contains(k));
                let t = choose|t: int| 0 <= t < keys_of(sdl).len() && keys_of(sdl)[t] == k;
                assert(keys_of(s)[t] == k);
            }
        }
        assert forall|k: Vertex| keys_of(s).contains(k) implies #[trigger] map_of(
            s,
        ).contains_key(k) by {
            let t = choose|t: int| 0 <= t < keys_of(s).len() && keys_of(s)[t] == k;
            if t < s.len() - 1 {
                assert(keys_of(sdl)[t] == k);
                assert(keys_of(sdl).contains(k));
                assert(map_of(sdl).contains_key(k));
            } else {
                assert(k == s.last().0);
            }
        }
    }
}

proof fn lemma_map_of_get(s: Seq<(Vertex, Vec<Vertex>)>, i: int)
    requires
        keys_of(s).no_duplicates(),
        0 <= i < s.len(),
    ensures
        map_of(s).contains_key(s[i].0),
        map_of(s)[s[i].0] == s[i].1@,
    decreases s.len(),
{
    if i == s.len() - 1 {
        assert(s.last() == s[i]);
    } else {
        assert(keys_of(s.drop_last()) =~= keys_of(s).drop_last());
        assert(keys_of(s.drop_last()).no_duplicates());
        lemma_map_of_get(s.drop_last(), i);
        assert(s.drop_last()[i] == s[i]);
        assert(keys_of(s)[i] != keys_of(s)[s.len() - 1]);
        assert(s[i].0 != s.last().0);
    }
}

proof fn lemma_map_of_len(s: Seq<(Vertex, Vec<Vertex>)>)
    requires
        keys_of(s).no_duplicates(),
    ensures
        map_of(s).dom().finite(),
        map_of(s).dom().len() == s.len(),
    decreases s.len(),
{
    if s.len() > 0 {
        assert(keys_of(s.drop_last()) =~= keys_of(s).drop_last());
        assert(keys_of(s.drop_last()).no_duplicates());
        lemma_map_of_len(s.drop_last());
        lemma_map_of_contains(s.drop_last());
        let k = s.last().0;
        assert(!keys_of(s.drop_last()).contains(k)) by {
            if keys_of(s.drop_last()).contains(k) {
                let t = choose|t: int| 0 <= t < keys_of(s.drop_last()).len()
                    && keys_of(s.drop_last())[t] == k;
                assert(keys_of(s)[t] == keys_of(s)[s.len() - 1]);
            }
        }
        assert(!map_of(s.drop_last()).dom().contains(k));
        assert(map_of(s).dom() =~= map_of(s.drop_last()).dom().insert(k));
        vstd::set_lib::lemma_len_union::<Vertex>(
            map_of(s.drop_last()).dom(),
            Set::empty().insert(k),
        );
        assert(map_of(s.drop_last()).dom().insert(k) =~=
            map_of(s.drop_last()).dom().union(Set::empty().insert(k)));
    }
}

proof fn lemma_map_of_update(s: Seq<(Vertex, Vec<Vertex>)>, i: int, p: (Vertex, Vec<Vertex>))
    requires
        keys_of(s).no_duplicates(),
        0 <= i < s.len(),
        p.0 == s[i].0,
    ensures
        map_of(s.update(i, p)) == map_of(s).insert(p.0, p.1@),
    decreases s.len(),
{
    let su = s.update(i, p);
    if i == s.len() - 1 {
        assert(su.drop_last() =~= s.drop_last());
        assert(su.last() == p);
        assert(map_of(su) =~= map_of(s).insert(p.0, p.1@));
    } else {
        assert(keys_of(s.drop_last()) =~= keys_of(s).drop_last());
        assert(keys_of(s.drop_last()).no_duplicates());
        assert(su.drop_last() =~= s.drop_last().update(i, p));
        assert(s.drop_last()[i] == s[i]);
        lemma_map_of_update(s.drop_last(), i, p);
        assert(su.last() == s.last());
        assert(p.0 != s.last().0) by {
            assert(keys_of(s)[i] != keys_of(s)[s.len() - 1]);
        }
        assert(map_of(su) =~= map_of(s).insert(p.0, p.1@));
    }
}

/// An adjacency mapping from a vertex to the ordered list of its neighboring
/// vertices, with each key held at most once.
pub struct Graph {
    entries: Vec<(Vertex, Vec<Vertex>)>,
}

impl View for Graph {
    type V = Map<Vertex, Seq<Vertex>>;

    closed spec fn view(&self) -> Map<Vertex, Seq<Vertex>> {
        map_of(self.entries@)
    }
}

impl Graph {
    /// The graph's keys in insertion order.
    pub closed spec fn key_seq(self) -> Seq<Vertex> {
        keys_of(self.entries@)
    }

    /// Each key is held at most once.
    pub closed spec fn wf(self) -> bool {
        self.key_seq().no_duplicates()
    }

    /// What a well-formed graph guarantees about its key sequence: it is
    /// duplicate-free, exactly covers the adjacency map's domain, and has
    /// the domain's length.
    pub proof fn lemma_wf_facts(self)
        requires
            self.wf(),
        ensures
            self.key_seq().no_duplicates(),
            self.key_seq().len() == self@.dom().len(),
            self@.dom().finite(),
            forall|i: int| 0 <= i < self.key_seq().len()
                ==> self@.contains_key(#[trigger] self.key_seq()[i]),
            forall|k: Vertex| #[trigger] self@.contains_key(k) ==> self.key_seq().contains(k),
    {
        lemma_map_of_contains(self.entries@);
        lemma_map_of_len(self.entries@);
        assert forall|i: int| 0 <= i < self.key_seq().len()
            implies self@.contains_key(#[trigger] self.key_seq()[i]) by {
            assert(keys_of(self.entries@).contains(self.key_seq()[i]));
        }
    }

    pub fn new() -> (r: Graph)
        ensures
            r@ == Map::<Vertex, Seq<Vertex>>::empty(),
            r.wf(),
            r.key_seq() == Seq::<Vertex>::empty(),
    {
        let g = Graph { entries: Vec::new() };
        proof {
            assert(g.key_seq() =~= Seq::<Vertex>::empty());
        }
        g
    }

    /// The position of `v`'s entry, when it has one.
    fn position_of(&self, v: &Vertex) -> (r: Option<usize>)
        ensures
            match r {
                Some(i) => i < self.entries@.len() && self.entries@[i as int].0 == *v,
                None => forall|j: int| 0 <= j < self.entries@.len()
                    ==> (#[trigger] self.entries@[j]).0 != *v,
            },
    {
        let n = self.entries.len();
        let mut i: usize = 0;
        while i < n
            invariant
                i <= n,
                n == self.entries@.len(),
                forall|j: int| 0 <= j < i ==> (#[trigger] self.entries@[j]).0 != *v,
            decreases n - i,
        {
            if self.entries[i].0 == *v {
                return Some(i);
            }
            i = i + 1;
        }
        None
    }

    /// Bind `key` to `neighbors`, replacing any earlier binding, as an
    /// insertion into a value-keyed map does.
    pub fn insert(&mut self, key: Vertex, neighbors: Vec<Vertex>)
        requires
            old(self).wf(),
        ensures
            final(self).wf(),
            final(self)@ == old(self)@.insert(key, neighbors@),
    {
        let ghost old_entries = self.entries@;
        match self.position_of(&key) {
            Some(i) => {
                self.entries.set(i, (key, neighbors));
                proof {
                    lemma_map_of_update(old_entries, i as int, self.entries@[i as int]);
                    assert(keys_of(self.entries@) =~= keys_of(old_entries));
                }
            }
            None => {
                self.entries.push((key, neighbors));
                proof {
                    assert(self.entries@.drop_last() =~= old_entries);
                    assert(keys_of(self.entries@) =~= keys_of(old_entries).push(key));
                    assert(keys_of(old_entries).no_duplicates());
                    assert(!keys_of(old_entries).contains(key)) by {
                        if keys_of(old_entries).contains(key) {
                            let t = choose|t: int| 0 <= t < keys_of(old_entries).len()
                                && keys_of(old_entries)[t] == key;
                            assert(old_entries[t].0 == key);
                        }
                    }
                    assert(keys_of(self.entries@).no_duplicates());
                }
            }
        }
    }

    pub fn contains_key(&self, v: &Vertex) -> (r: bool)
        ensures
            r == self@.contains_key(*v),
    {
        proof {
            lemma_map_of_contains(self.entries@);
        }
        match self.position_of(v) {
            Some(i) => {
                proof {
                    assert(keys_of(self.entries@)[i as int] == *v);
                }
                true
            }
            None => {
                proof {
                    if self@.contains_key(*v) {
                        let t = choose|t: int| 0 <= t < keys_of(self.entries@).len()
                            && keys_of(self.entries@)[t] == *v;
                        assert(self.entries@[t].0 == *v);
                    }
                }
                false
            }
        }
    }

    /// The neighbor list bound to `v`, when `v` is a key.
    pub fn neighbors<'a>(&'a self, v: &Vertex) -> (r: Option<&'a Vec<Vertex>>)
        requires
            self.wf(),
        ensures
            match r {
                Some(nb) => self@.contains_key(*v) && nb@ == self@[*v],
                None => !self@.contains_key(*v),
            },
    {
        proof {
            lemma_map_of_contains(self.entries@);
        }
        match self.position_of(v) {
            Some(i) => {
                proof {
                    lemma_map_of_get(self.entries@, i as int);
                }
                Some(&self.entries[i].1)
            }
            None => {
                proof {
                    if self@.contains_key(*v) {
                        let t = choose|t: int| 0 <= t < keys_of(self.entries@).len()
                            && keys_of(self.entries@)[t] == *v;
                        assert(self.entries@[t].0 == *v);
                    }
                }
                None
            }
        }
    }

    /// The number of keys.
    pub fn len(&self) -> (r: usize)
        requires
            self.wf(),
        ensures
            r == self@.dom().len(),
            r == self.key_seq().len(),
    {
        proof {
            lemma_map_of_len(self.entries@);
        }
        self.entries.len()
    }

    /// The key at position `i` of the key sequence.
    pub fn key_at(&self, i: usize) -> (r: Vertex)
        requires
            self.wf(),
            i < self@.dom().len(),
        ensures
            r == self.key_seq()[i as int],
    {
        proof {
            lemma_map_of_len(self.entries@);
        }
        self.entries[i].0
    }
}

} // verus!
