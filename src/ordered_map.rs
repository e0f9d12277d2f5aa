use vstd::prelude::*;

verus! {

/// Keys that carry an injective rank into the integers. A map keeps its
/// entries in increasing rank, so walking it visits the keys in their order.
pub trait Ranked: Copy + Sized {
    spec fn rank(&self) -> int;

    fn rank_of(&self) -> (r: u64)
        ensures
            r == self.rank(),
    ;

    proof fn lemma_rank_injective(a: Self, b: Self)
        ensures
            a.rank() == b.rank() <==> a == b,
    ;
}

/// The entries are in strictly increasing rank, so no key appears twice.
pub open spec fn rank_sorted<K: Ranked, V>(s: Seq<(K, V)>) -> bool {
    forall|i: int, j: int| 0 <= i < j < s.len() ==> s[i].0.rank() < s[j].0.rank()
}

pub open spec fn has_key<K, V>(s: Seq<(K, V)>, k: K) -> bool {
    exists|i: int| 0 <= i < s.len() && s[i].0 == k
}

/// The value stored under `k`, if any.
pub open spec fn lookup<K, V>(s: Seq<(K, V)>, k: K) -> Option<V> {
    if has_key(s, k) {
        Some(s[choose|i: int| 0 <= i < s.len() && s[i].0 == k].1)
    } else {
        None
    }
}

/// In a sorted entry list, the entry at `i` is the one that `lookup` finds.
pub proof fn lemma_lookup_at<K: Ranked, V>(s: Seq<(K, V)>, i: int)
    requires
        rank_sorted(s),
        0 <= i < s.len(),
    ensures
        has_key(s, s[i].0),
        lookup(s, s[i].0) == Some(s[i].1),
{
    let k = s[i].0;
    assert(has_key(s, k));
    let j = choose|j: int| 0 <= j < s.len() && s[j].0 == k;
    if j != i {
        assert(s[i].0.rank() != s[j].0.rank());
    }
}

/// After an insertion, the keys are the old keys and the new one.
pub proof fn lemma_has_key_after_insert<K, V>(s: Seq<(K, V)>, i: int, e: (K, V), k: K)
    requires
        0 <= i <= s.len(),
    ensures
        has_key(s.insert(i, e), k) <==> (has_key(s, k) || k == e.0),
{
    let t = s.insert(i, e);
    if has_key(s, k) {
        let j = choose|j: int| 0 <= j < s.len() && s[j].0 == k;
        if j < i {
            assert(t[j] == s[j]);
        } else {
            assert(t[j + 1] == s[j]);
        }
    }
    if k == e.0 {
        assert(t[i] == e);
    }
    if has_key(t, k) {
        let j = choose|j: int| 0 <= j < t.len() && t[j].0 == k;
        if j < i {
            assert(t[j] == s[j]);
        } else if j > i {
            assert(t[j] == s[j - 1]);
        }
    }
}

/// An association list kept sorted by the rank of its keys.
#[derive(Debug, PartialEq, Eq)]
pub struct OrderedMap<K: Ranked, V: Copy> {
    entries: Vec<(K, V)>,
}

impl<K: Ranked, V: Copy> View for OrderedMap<K, V> {
    type V = Seq<(K, V)>;

    closed spec fn view(&self) -> Seq<(K, V)> {
        self.entries@
    }
}

impl<K: Ranked, V: Copy> Clone for OrderedMap<K, V> {
    fn clone(&self) -> (r: Self)
        ensures
            r@ == self@,
    {
        proof {
            use_type_invariant(self);
        }
        let mut entries: Vec<(K, V)> = Vec::new();
        let mut i: usize = 0;
        while i < self.entries.len()
            invariant
                i <= self.entries@.len(),
                rank_sorted(self.entries@),
                entries@ == self.entries@.subrange(0, i as int),
            decreases self.entries@.len() - i,
        {
            entries.push(self.entries[i]);
            i = i + 1;
            assert(entries@ == self.entries@.subrange(0, i as int));
        }
        assert(entries@ == self.entries@.subrange(0, i as int));
        assert(entries@ =~= self.entries@);
        OrderedMap { entries }
    }
}

impl<K: Ranked, V: Copy> OrderedMap<K, V> {
    #[verifier::type_invariant]
    spec fn sorted(&self) -> bool {
        rank_sorted(self.entries@)
    }

    pub fn new() -> (m: Self)
        ensures
            m@ == Seq::<(K, V)>::empty(),
    {
        OrderedMap { entries: Vec::new() }
    }

    pub fn len(&self) -> (n: usize)
        ensures
            n == self@.len(),
            rank_sorted(self@),
    {
        proof {
            use_type_invariant(self);
        }
        self.entries.len()
    }

    pub fn is_empty(&self) -> (r: bool)
        ensures
            r == (self@.len() == 0),
    {
        self.entries.len() == 0
    }

    /// The entry at index `i`, in rank order.
    pub fn entry(&self, i: usize) -> (e: (K, V))
        requires
            i < self@.len(),
        ensures
            e == self@[i as int],
            rank_sorted(self@),
    {
        proof {
            use_type_invariant(self);
        }
        self.entries[i]
    }

    /// The index of the entry for `k`.
    pub fn find(&self, k: &K) -> (r: Option<usize>)
        ensures
            match r {
                Some(i) => i < self@.len() && self@[i as int].0 == *k,
                None => !has_key(self@, *k),
            },
    {
        let target = k.rank_of();
        let mut i: usize = 0;
        while i < self.entries.len()
            invariant
                i <= self.entries@.len(),
                target == k.rank(),
                forall|j: int| 0 <= j < i ==> self.entries@[j].0 != *k,
            decreases self.entries@.len() - i,
        {
            if self.entries[i].0.rank_of() == target {
                proof {
                    K::lemma_rank_injective(self.entries@[i as int].0, *k);
                }
                return Some(i);
            }
            proof {
                K::lemma_rank_injective(self.entries@[i as int].0, *k);
            }
            i = i + 1;
        }
        None
    }

    pub fn contains_key(&self, k: &K) -> (r: bool)
        ensures
            r == has_key(self@, *k),
    {
        self.find(k).is_some()
    }

    /// The value stored under `k`.
    pub fn get(&self, k: &K) -> (r: Option<&V>)
        ensures
            match r {
                Some(v) => lookup(self@, *k) == Some(*v),
                None => lookup(self@, *k) is None,
            },
    {
        proof {
            use_type_invariant(self);
        }
        match self.find(k) {
            Some(i) => {
                proof {
                    lemma_lookup_at(self@, i as int);
                }
                Some(&self.entries[i].1)
            },
            None => None,
        }
    }

    /// The keys, in rank order.
    pub fn keys(&self) -> (r: Vec<K>)
        ensures
            r@ == self@.map_values(|e: (K, V)| e.0),
    {
        let mut r: Vec<K> = Vec::new();
        let mut i: usize = 0;
        while i < self.entries.len()
            invariant
                i <= self.entries@.len(),
                r@ == self.entries@.subrange(0, i as int).map_values(|e: (K, V)| e.0),
            decreases self.entries@.len() - i,
        {
            r.push(self.entries[i].0);
            i = i + 1;
            assert(self.entries@.subrange(0, i as int) == self.entries@.subrange(
                0,
                i - 1,
            ).push(self.entries@[i - 1]));
        }
        assert(self.entries@.subrange(0, i as int) == self.entries@);
        r
    }

    /// Adds an entry for a key that is not yet present, at its place in rank order.
    pub(crate) fn insert_new(&mut self, k: K, v: V)
        requires
            !has_key(old(self)@, k),
        ensures
            exists|i: int| 0 <= i <= old(self)@.len() && final(self)@ == old(self)@.insert(i, (k, v)),
    {
        proof {
            use_type_invariant(&*self);
        }
        let target = k.rank_of();
        let mut i: usize = 0;
        while i < self.entries.len() && self.entries[i].0.rank_of() < target
            invariant
                i <= self.entries@.len(),
                target == k.rank(),
                forall|j: int| 0 <= j < i ==> self.entries@[j].0.rank() < k.rank(),
            decreases self.entries@.len() - i,
        {
            i = i + 1;
        }
        proof {
            if i < self.entries@.len() {
                K::lemma_rank_injective(self.entries@[i as int].0, k);
                assert(self.entries@[i as int].0 != k);
            }
        }
        let ghost before = self.entries@;
        let mut entries: Vec<(K, V)> = Vec::new();
        std::mem::swap(&mut self.entries, &mut entries);
        entries.insert(i, (k, v));
        assert(rank_sorted(entries@)) by {
            assert forall|a: int, b: int| 0 <= a < b < entries@.len() implies
                entries@[a].0.rank() < entries@[b].0.rank() by {
                if b < i {
                } else if b == i {
                } else if a < i {
                } else if a == i {
                    assert(before[i as int].0.rank() <= before[b - 1].0.rank());
                } else {
                }
            }
        }
        self.entries = entries;
    }

    /// Replaces the value of the entry at index `i`.
    pub(crate) fn set_at(&mut self, i: usize, v: V)
        requires
            i < old(self)@.len(),
        ensures
            final(self)@ == old(self)@.update(i as int, (old(self)@[i as int].0, v)),
    {
        proof {
            use_type_invariant(&*self);
        }
        let k = self.entries[i].0;
        let mut entries: Vec<(K, V)> = Vec::new();
        std::mem::swap(&mut self.entries, &mut entries);
        entries.set(i, (k, v));
        self.entries = entries;
    }

    /// Removes the entry at index `i`.
    pub(crate) fn remove_at(&mut self, i: usize)
        requires
            i < old(self)@.len(),
        ensures
            final(self)@ == old(self)@.remove(i as int),
    {
        proof {
            use_type_invariant(&*self);
        }
        let mut entries: Vec<(K, V)> = Vec::new();
        std::mem::swap(&mut self.entries, &mut entries);
        entries.remove(i);
        assert(rank_sorted(entries@)) by {
            assert forall|a: int, b: int| 0 <= a < b < entries@.len() implies
                entries@[a].0.rank() < entries@[b].0.rank() by {
                if a >= i {
                    assert(old(self)@[a + 1].0.rank() < old(self)@[b + 1].0.rank());
                } else if b >= i {
                    assert(old(self)@[a].0.rank() < old(self)@[b + 1].0.rank());
                }
            }
        }
        self.entries = entries;
    }

    /// Removes every entry.
    pub(crate) fn clear(&mut self)
        ensures
            final(self)@ == Seq::<(K, V)>::empty(),
    {
        self.entries = Vec::new();
    }
}

} // verus!
