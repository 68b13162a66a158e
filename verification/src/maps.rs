//! Small association-list maps with distinct keys, used by the analyses and
//! the optimiser.  Entries keep their insertion order, so walking a map is
//! deterministic.

use vstd::prelude::*;

verus! {

/// A key that can be compared for equality of its view.
pub trait MapKey: View + Sized {
    fn key_eq(&self, other: &Self) -> (r: bool)
        ensures
            r == (self@ == other@);

    fn key_clone(&self) -> (r: Self)
        ensures
            r@ == self@;
}

impl MapKey for u32 {
    fn key_eq(&self, other: &Self) -> (r: bool) {
        *self == *other
    }

    fn key_clone(&self) -> (r: Self) {
        *self
    }
}

impl MapKey for usize {
    fn key_eq(&self, other: &Self) -> (r: bool) {
        *self == *other
    }

    fn key_clone(&self) -> (r: Self) {
        *self
    }
}

impl MapKey for i32 {
    fn key_eq(&self, other: &Self) -> (r: bool) {
        *self == *other
    }

    fn key_clone(&self) -> (r: Self) {
        *self
    }
}

impl MapKey for String {
    fn key_eq(&self, other: &Self) -> (r: bool) {
        *self == *other
    }

    fn key_clone(&self) -> (r: Self) {
        self.clone()
    }
}

/// The map denoted by a list of entries (later entries win).
pub open spec fn assoc_view<K: View, V>(s: Seq<(K, V)>) -> Map<K::V, V>
    decreases s.len(),
{
    if s.len() == 0 {
        Map::empty()
    } else {
        assoc_view(s.drop_last()).insert(s.last().0@, s.last().1)
    }
}

/// No two entries share a key.
pub open spec fn distinct_keys<K: View, V>(s: Seq<(K, V)>) -> bool {
    forall|i: int, j: int| 0 <= i < j < s.len() ==> s[i].0@ != s[j].0@
}

/// The keys of a list of entries, in order.
pub open spec fn keys_of<K: View, V>(s: Seq<(K, V)>) -> Seq<K::V> {
    s.map_values(|e: (K, V)| e.0@)
}

/// A list of distinct entries denotes exactly its entries.
pub proof fn lemma_assoc_view<K: View, V>(s: Seq<(K, V)>)
    requires
        distinct_keys(s),
    ensures
        forall|x: K::V| #[trigger] assoc_view(s).contains_key(x) <==> exists|i: int| 0 <= i < s.len() && s[i].0@ == x,
        forall|i: int| 0 <= i < s.len() ==> assoc_view(s).contains_key(#[trigger] s[i].0@) && assoc_view(s)[s[i].0@] == s[i].1,
    decreases s.len(),
{
    if s.len() > 0 {
        let t = s.drop_last();
        assert(distinct_keys(t));
        lemma_assoc_view(t);
        assert forall|x: K::V| #[trigger] assoc_view(s).contains_key(x) implies exists|i: int| 0 <= i < s.len() && s[i].0@ == x by {
            if x == s.last().0@ {
                assert(s[s.len() - 1].0@ == x);
            } else {
                assert(assoc_view(t).contains_key(x));
                let i = choose|i: int| 0 <= i < t.len() && t[i].0@ == x;
                assert(t[i] == s[i]);
                assert(s[i].0@ == x);
            }
        }
        assert forall|x: K::V| (exists|i: int| 0 <= i < s.len() && s[i].0@ == x) implies #[trigger] assoc_view(s).contains_key(x) by {
            let i = choose|i: int| 0 <= i < s.len() && s[i].0@ == x;
            if i < s.len() - 1 {
                assert(t[i] == s[i]);
                assert(t[i].0@ == x);
            }
        }
        assert forall|i: int| 0 <= i < s.len() implies assoc_view(s).contains_key(#[trigger] s[i].0@) && assoc_view(s)[s[i].0@] == s[i].1 by {
            if i < s.len() - 1 {
                assert(t[i] == s[i]);
                assert(s[i].0@ != s[s.len() - 1].0@);
            }
        }
    }
}

/// An association list with distinct keys.
pub struct AssocMap<K, V> {
    entries: Vec<(K, V)>,
}

impl<K: MapKey, V> View for AssocMap<K, V> {
    type V = Map<K::V, V>;

    closed spec fn view(&self) -> Map<K::V, V> {
        assoc_view(self.entries@)
    }
}

impl<K: MapKey, V> AssocMap<K, V> {
    /// The entries, in insertion order.
    pub closed spec fn entries(&self) -> Seq<(K, V)> {
        self.entries@
    }

    /// The well-formedness invariant: keys are distinct and the view is the
    /// map of the entries.
    pub closed spec fn wf(&self) -> bool {
        distinct_keys(self.entries@)
    }

    pub proof fn lemma_entries(&self)
        requires
            self.wf(),
        ensures
            distinct_keys(self.entries()),
            forall|x: K::V| #[trigger] self@.contains_key(x) <==> exists|i: int| 0 <= i < self.entries().len() && self.entries()[i].0@ == x,
            forall|i: int| 0 <= i < self.entries().len() ==> self@.contains_key(#[trigger] self.entries()[i].0@) && self@[self.entries()[i].0@] == self.entries()[i].1,
    {
        lemma_assoc_view(self.entries@);
        assert(self@ == assoc_view(self.entries@));
        assert(self.entries() == self.entries@);
    }

    pub fn new() -> (r: Self)
        ensures
            r.wf(),
            r@ == Map::<K::V, V>::empty(),
            r.entries().len() == 0,
    {
        AssocMap { entries: Vec::new() }
    }

    pub fn len(&self) -> (r: usize)
        ensures
            r == self.entries().len(),
    {
        self.entries.len()
    }

    pub fn is_empty(&self) -> (r: bool)
        requires
            self.wf(),
        ensures
            r == (self@ == Map::<K::V, V>::empty()),
            r == (self.entries().len() == 0),
    {
        proof {
            lemma_assoc_view(self.entries@);
            if self.entries@.len() > 0 {
                assert(self@.contains_key(self.entries@[0].0@));
                assert(!Map::<K::V, V>::empty().contains_key(self.entries@[0].0@));
            }
        }
        self.entries.len() == 0
    }

    /// The key of the `i`-th entry.
    pub fn key_at(&self, i: usize) -> (r: &K)
        requires
            i < self.entries().len(),
        ensures
            *r == self.entries()[i as int].0,
    {
        &self.entries[i].0
    }

    /// The value of the `i`-th entry.
    pub fn value_at(&self, i: usize) -> (r: &V)
        requires
            i < self.entries().len(),
        ensures
            *r == self.entries()[i as int].1,
    {
        &self.entries[i].1
    }

    fn find(&self, k: &K) -> (r: Option<usize>)
        requires
            self.wf(),
        ensures
            r matches Some(i) ==> i < self.entries().len() && self.entries()[i as int].0@ == k@,
            r is None ==> !self@.contains_key(k@),
    {
        proof {
            lemma_assoc_view(self.entries@);
        }
        let mut i: usize = 0;
        while i < self.entries.len()
            invariant
                i <= self.entries@.len(),
                forall|j: int| 0 <= j < i ==> self.entries@[j].0@ != k@,
            decreases self.entries@.len() - i,
        {
            if self.entries[i].0.key_eq(k) {
                return Some(i);
            }
            i += 1;
        }
        None
    }

    pub fn contains_key(&self, k: &K) -> (r: bool)
        requires
            self.wf(),
        ensures
            r == self@.contains_key(k@),
    {
        proof {
            lemma_assoc_view(self.entries@);
        }
        match self.find(k) {
            Some(i) => {
                proof {
                    assert(self@.contains_key(self.entries@[i as int].0@));
                }
                true
            },
            None => false,
        }
    }

    pub fn get(&self, k: &K) -> (r: Option<&V>)
        requires
            self.wf(),
        ensures
            match r {
                Some(v) => self@.contains_key(k@) && self@[k@] == *v,
                None => !self@.contains_key(k@),
            },
    {
        proof {
            lemma_assoc_view(self.entries@);
        }
        match self.find(k) {
            Some(i) => Some(&self.entries[i].1),
            None => None,
        }
    }

    pub fn insert(&mut self, k: K, v: V)
        requires
            old(self).wf(),
        ensures
            final(self).wf(),
            final(self)@ == old(self)@.insert(k@, v),
    {
        proof {
            lemma_assoc_view(self.entries@);
        }
        match self.find(&k) {
            Some(i) => {
                let ghost old_s = self.entries@;
                self.entries.set(i, (k, v));
                proof {
                    let s = self.entries@;
                    assert(distinct_keys(s)) by {
                        assert forall|a: int, b: int| 0 <= a < b < s.len() implies s[a].0@ != s[b].0@ by {
                            if a != i && b != i {
                                assert(s[a] == old_s[a] && s[b] == old_s[b]);
                            } else if a == i {
                                assert(old_s[b].0@ != old_s[a].0@);
                            } else {
                                assert(old_s[b].0@ != old_s[a].0@);
                            }
                        }
                    }
                    lemma_assoc_view(s);
                    lemma_assoc_view(old_s);
                    assert forall|x: K::V| #[trigger] assoc_view(s).contains_key(x) == assoc_view(old_s).insert(k@, v).contains_key(x) by {
                        if assoc_view(old_s).contains_key(x) && x != k@ {
                            let j = choose|j: int| 0 <= j < old_s.len() && old_s[j].0@ == x;
                            assert(s[j].0@ == x);
                        }
                        if assoc_view(s).contains_key(x) {
                            let j = choose|j: int| 0 <= j < s.len() && s[j].0@ == x;
                            if j != i {
                                assert(old_s[j].0@ == x);
                            }
                        }
                        assert(s[i as int].0@ == k@);
                    }
                    assert forall|x: K::V| #[trigger] assoc_view(s).contains_key(x) implies assoc_view(s)[x] == assoc_view(old_s).insert(k@, v)[x] by {
                        let j = choose|j: int| 0 <= j < s.len() && s[j].0@ == x;
                        if j != i {
                            assert(old_s[j] == s[j]);
                        }
                    }
                    assert(assoc_view(s) =~= assoc_view(old_s).insert(k@, v));
                }
            },
            None => {
                let ghost old_s = self.entries@;
                self.entries.push((k, v));
                proof {
                    let s = self.entries@;
                    assert(s.drop_last() =~= old_s);
                    assert(distinct_keys(s)) by {
                        assert forall|a: int, b: int| 0 <= a < b < s.len() implies s[a].0@ != s[b].0@ by {
                            if b == s.len() - 1 {
                                assert(assoc_view(old_s).contains_key(old_s[a].0@));
                            } else {
                                assert(s[a] == old_s[a] && s[b] == old_s[b]);
                            }
                        }
                    }
                }
            },
        }
    }

    pub fn remove(&mut self, k: &K)
        requires
            old(self).wf(),
        ensures
            final(self).wf(),
            final(self)@ == old(self)@.remove(k@),
    {
        proof {
            lemma_assoc_view(self.entries@);
        }
        match self.find(k) {
            Some(i) => {
                let ghost old_s = self.entries@;
                let _ = self.entries.remove(i);
                proof {
                    let s = self.entries@;
                    assert(s =~= old_s.remove(i as int));
                    assert(distinct_keys(s)) by {
                        assert forall|a: int, b: int| 0 <= a < b < s.len() implies s[a].0@ != s[b].0@ by {
                            if b < i {
                                assert(s[a] == old_s[a] && s[b] == old_s[b]);
                            } else if a < i {
                                assert(s[a] == old_s[a] && s[b] == old_s[b + 1]);
                            } else {
                                assert(s[a] == old_s[a + 1] && s[b] == old_s[b + 1]);
                            }
                        }
                    }
                    lemma_assoc_view(s);
                    lemma_assoc_view(old_s);
                    assert forall|x: K::V| #[trigger] assoc_view(s).contains_key(x) == assoc_view(old_s).remove(k@).contains_key(x) by {
                        if assoc_view(s).contains_key(x) {
                            let j = choose|j: int| 0 <= j < s.len() && s[j].0@ == x;
                            if j < i {
                                assert(old_s[j].0@ == x);
                                assert(old_s[j].0@ != old_s[i as int].0@);
                            } else {
                                assert(old_s[j + 1].0@ == x);
                                assert(old_s[j + 1].0@ != old_s[i as int].0@);
                            }
                        }
                        if assoc_view(old_s).remove(k@).contains_key(x) {
                            let j = choose|j: int| 0 <= j < old_s.len() && old_s[j].0@ == x;
                            assert(j != i);
                            if j < i {
                                assert(s[j].0@ == x);
                            } else {
                                assert(s[j - 1].0@ == x);
                            }
                        }
                    }
                    assert forall|x: K::V| #[trigger] assoc_view(s).contains_key(x) implies assoc_view(s)[x] == assoc_view(old_s).remove(k@)[x] by {
                        let j = choose|j: int| 0 <= j < s.len() && s[j].0@ == x;
                        if j < i {
                            assert(old_s[j] == s[j]);
                        } else {
                            assert(old_s[j + 1] == s[j]);
                        }
                    }
                    assert(assoc_view(s) =~= assoc_view(old_s).remove(k@));
                }
            },
            None => {
                proof {
                    assert(self@ =~= self@.remove(k@));
                }
            },
        }
    }

    pub fn clear(&mut self)
        ensures
            final(self).wf(),
            final(self)@ == Map::<K::V, V>::empty(),
            final(self).entries().len() == 0,
    {
        self.entries.clear();
    }
}

} // verus!

verus! {

/// A finite set of vreg or label ids.
pub type IdSet = AssocMap<u32, ()>;

} // verus!

verus! {

impl MapKey for (u8, u32, u32, u8) {
    fn key_eq(&self, other: &Self) -> (r: bool) {
        self.0 == other.0 && self.1 == other.1 && self.2 == other.2 && self.3 == other.3
    }

    fn key_clone(&self) -> (r: Self) {
        *self
    }
}

} // verus!

verus! {

/// `y` is reached from `x` by `n` steps through `f`.
pub open spec fn chain<K>(f: Map<K, K>, x: K, y: K, n: nat) -> bool
    decreases n,
{
    if n == 0 {
        x == y
    } else {
        f.contains_key(x) && chain(f, f[x], y, (n - 1) as nat)
    }
}

/// `y` is reached from `x` by one step or more through `f`.
pub open spec fn forwards_to<K>(f: Map<K, K>, x: K, y: K) -> bool {
    exists|n: nat| n >= 1 && #[trigger] chain(f, x, y, n)
}

/// `f` sends each key of `f0`, and no other, to a key that `f0` reaches
/// from it.
pub open spec fn forward_ok<K>(f0: Map<K, K>, f: Map<K, K>) -> bool {
    &&& f.dom() == f0.dom()
    &&& forall|x: K| #[trigger] f.contains_key(x) ==> forwards_to(f0, x, f[x])
}

/// Steps through a map compose.
pub proof fn lemma_chain_trans<K>(f: Map<K, K>, x: K, y: K, z: K, n: nat, m: nat)
    requires
        chain(f, x, y, n),
        chain(f, y, z, m),
    ensures
        chain(f, x, z, n + m),
    decreases n,
{
    if n > 0 {
        lemma_chain_trans(f, f[x], y, z, (n - 1) as nat, m);
        assert((n + m - 1) as nat == ((n - 1) as nat + m) as nat);
    }
}

/// Reaching through a map is transitive.
pub proof fn lemma_forwards_trans<K>(f: Map<K, K>, x: K, y: K, z: K)
    requires
        forwards_to(f, x, y),
        forwards_to(f, y, z),
    ensures
        forwards_to(f, x, z),
{
    let n = choose|n: nat| n >= 1 && #[trigger] chain(f, x, y, n);
    let m = choose|m: nat| m >= 1 && #[trigger] chain(f, y, z, m);
    lemma_chain_trans(f, x, y, z, n, m);
    assert(chain(f, x, z, n + m));
}

/// A map is reached from itself by one step.
pub proof fn lemma_forward_ok_refl<K>(f: Map<K, K>)
    ensures
        forward_ok(f, f),
{
    assert forall|x: K| #[trigger] f.contains_key(x) implies forwards_to(f, x, f[x]) by {
        assert(chain(f, f[x], f[x], 0));
        assert(chain(f, x, f[x], 1));
    }
}

} // verus!
