//! A table keyed by hashes, with at most one entry per key, kept in the order
//! in which keys were first inserted.
use vstd::prelude::*;

verus! {

pub open spec fn keys_distinct<T>(s: Seq<(crate::sha256::Hash, T)>) -> bool {
    forall|i: int, j: int| 0 <= i < j < s.len() ==> #[trigger] s[i].0 != #[trigger] s[j].0
}

pub open spec fn has_key<T>(s: Seq<(crate::sha256::Hash, T)>, k: crate::sha256::Hash) -> bool {
    exists|i: int| 0 <= i < s.len() && #[trigger] s[i].0 == k
}

/// The position of key `k`, or -1.
pub open spec fn index_of<T>(s: Seq<(crate::sha256::Hash, T)>, k: crate::sha256::Hash) -> int {
    if has_key(s, k) {
        choose|i: int| 0 <= i < s.len() && #[trigger] s[i].0 == k
    } else {
        -1
    }
}

pub open spec fn lookup<T>(s: Seq<(crate::sha256::Hash, T)>, k: crate::sha256::Hash) -> Option<T> {
    if has_key(s, k) {
        Some(s[index_of(s, k)].1)
    } else {
        None
    }
}

/// Insertion: the entry of `k` replaced in place, or appended.
pub open spec fn insert_entry<T>(s: Seq<(crate::sha256::Hash, T)>, k: crate::sha256::Hash, v: T) -> Seq<
    (crate::sha256::Hash, T),
> {
    if has_key(s, k) {
        s.update(index_of(s, k), (k, v))
    } else {
        s.push((k, v))
    }
}

/// Removal of the entry of `k`, the others keeping their order.
pub open spec fn remove_entry<T>(s: Seq<(crate::sha256::Hash, T)>, k: crate::sha256::Hash) -> Seq<
    (crate::sha256::Hash, T),
> {
    if has_key(s, k) {
        s.remove(index_of(s, k))
    } else {
        s
    }
}

pub proof fn lemma_index_of<T>(s: Seq<(crate::sha256::Hash, T)>, k: crate::sha256::Hash, i: int)
    requires
        keys_distinct(s),
        0 <= i < s.len(),
        s[i].0 == k,
    ensures
        has_key(s, k),
        index_of(s, k) == i,
        lookup(s, k) == Some(s[i].1),
{
}

pub proof fn lemma_insert_distinct<T>(s: Seq<(crate::sha256::Hash, T)>, k: crate::sha256::Hash, v: T)
    requires
        keys_distinct(s),
    ensures
        keys_distinct(insert_entry(s, k, v)),
        lookup(insert_entry(s, k, v), k) == Some(v),
        forall|k2: crate::sha256::Hash|
            k2 != k ==> #[trigger] lookup(insert_entry(s, k, v), k2) == lookup(s, k2),
{
    let t = insert_entry(s, k, v);
    if has_key(s, k) {
        let idx = index_of(s, k);
        assert(t.len() == s.len());
        lemma_index_of(t, k, idx);
        assert forall|k2: crate::sha256::Hash| k2 != k implies #[trigger] lookup(t, k2) == lookup(s, k2) by {
            if has_key(s, k2) {
                let j = index_of(s, k2);
                lemma_index_of(t, k2, j);
            } else {
                if has_key(t, k2) {
                    let j = choose|j: int| 0 <= j < t.len() && #[trigger] t[j].0 == k2;
                    assert(s[j].0 == k2);
                }
            }
        }
    } else {
        lemma_index_of(t, k, s.len() as int);
        assert forall|k2: crate::sha256::Hash| k2 != k implies #[trigger] lookup(t, k2) == lookup(s, k2) by {
            if has_key(s, k2) {
                let j = index_of(s, k2);
                lemma_index_of(t, k2, j);
            } else {
                if has_key(t, k2) {
                    let j = choose|j: int| 0 <= j < t.len() && #[trigger] t[j].0 == k2;
                    assert(s[j].0 == k2);
                }
            }
        }
    }
}

pub proof fn lemma_remove_distinct<T>(s: Seq<(crate::sha256::Hash, T)>, k: crate::sha256::Hash)
    requires
        keys_distinct(s),
    ensures
        keys_distinct(remove_entry(s, k)),
        lookup(remove_entry(s, k), k) is None,
        forall|k2: crate::sha256::Hash|
            k2 != k ==> #[trigger] lookup(remove_entry(s, k), k2) == lookup(s, k2),
{
    let t = remove_entry(s, k);
    if has_key(s, k) {
        let idx = index_of(s, k);
        assert forall|i: int, j: int| 0 <= i < j < t.len() implies #[trigger] t[i].0 != #[trigger] t[j].0 by {
            let i2 = if i < idx { i } else { i + 1 };
            let j2 = if j < idx { j } else { j + 1 };
            assert(t[i] == s[i2] && t[j] == s[j2]);
        }
        if has_key(t, k) {
            let j = choose|j: int| 0 <= j < t.len() && #[trigger] t[j].0 == k;
            let j2 = if j < idx { j } else { j + 1 };
            assert(t[j] == s[j2]);
        }
        assert forall|k2: crate::sha256::Hash| k2 != k implies #[trigger] lookup(t, k2) == lookup(s, k2) by {
            if has_key(s, k2) {
                let j = index_of(s, k2);
                let j2 = if j < idx { j } else { j - 1 };
                assert(t[j2] == s[j]);
                lemma_index_of(t, k2, j2);
            } else {
                if has_key(t, k2) {
                    let j = choose|j: int| 0 <= j < t.len() && #[trigger] t[j].0 == k2;
                    let j2 = if j < idx { j } else { j + 1 };
                    assert(t[j] == s[j2]);
                }
            }
        }
    }
}

/// The entries whose flag is set, in order.
pub open spec fn select_entries<T>(s: Seq<(crate::sha256::Hash, T)>, flags: Seq<bool>) -> Seq<
    (crate::sha256::Hash, T),
>
    decreases s.len(),
{
    if s.len() == 0 {
        s
    } else {
        let kept = select_entries(s.drop_last(), flags.take(s.len() - 1));
        if flags[s.len() - 1] {
            kept.push(s.last())
        } else {
            kept
        }
    }
}

pub proof fn lemma_select_distinct<T>(s: Seq<(crate::sha256::Hash, T)>, flags: Seq<bool>)
    requires
        keys_distinct(s),
        flags.len() == s.len(),
    ensures
        keys_distinct(select_entries(s, flags)),
        forall|j: int|
            0 <= j < select_entries(s, flags).len() ==> #[trigger] has_key(
                s,
                select_entries(s, flags)[j].0,
            ),
    decreases s.len(),
{
    if s.len() > 0 {
        let s2 = s.drop_last();
        let f2 = flags.take(s.len() - 1);
        lemma_select_distinct(s2, f2);
        let kept = select_entries(s2, f2);
        assert forall|j: int| 0 <= j < kept.len() implies #[trigger] has_key(s, kept[j].0) by {
            assert(has_key(s2, kept[j].0));
            let i = choose|i: int| 0 <= i < s2.len() && #[trigger] s2[i].0 == kept[j].0;
            assert(s[i].0 == kept[j].0);
        }
        if flags[s.len() - 1] {
            let t = kept.push(s.last());
            assert(select_entries(s, flags) == t);
            assert forall|j: int| 0 <= j < t.len() implies #[trigger] has_key(s, t[j].0) by {
                if j < kept.len() {
                    assert(t[j] == kept[j]);
                } else {
                    assert(s[s.len() - 1].0 == t[j].0);
                }
            }
            assert forall|a: int, b: int| 0 <= a < b < t.len() implies #[trigger] t[a].0 != #[trigger] t[b].0 by {
                if b < kept.len() {
                    assert(t[a] == kept[a] && t[b] == kept[b]);
                } else {
                    assert(has_key(s2, kept[a].0));
                    let i = choose|i: int| 0 <= i < s2.len() && #[trigger] s2[i].0 == kept[a].0;
                    assert(s[i].0 == t[a].0);
                }
            }
        } else {
            assert(select_entries(s, flags) == kept);
        }
    }
}

proof fn lemma_select_take<T>(s: Seq<(crate::sha256::Hash, T)>, flags: Seq<bool>, k: int)
    requires
        0 <= k < s.len(),
        flags.len() == s.len(),
    ensures
        select_entries(s.take(k + 1), flags.take(k + 1)) == if flags[k] {
            select_entries(s.take(k), flags.take(k)).push(s[k])
        } else {
            select_entries(s.take(k), flags.take(k))
        },
{
    assert(s.take(k + 1).drop_last() =~= s.take(k));
    assert(flags.take(k + 1).take(k) =~= flags.take(k));
}

/// Entries keyed by hashes, at most one per key, in insertion order.
pub struct HashIndex<T> {
    entries: Vec<(crate::sha256::Hash, T)>,
}

impl<T> View for HashIndex<T> {
    type V = Seq<(crate::sha256::Hash, T)>;

    closed spec fn view(&self) -> Seq<(crate::sha256::Hash, T)> {
        self.entries@
    }
}

impl<T> HashIndex<T> {
    #[verifier::type_invariant]
    spec fn inv(self) -> bool {
        keys_distinct(self.entries@)
    }

    pub fn new() -> (r: HashIndex<T>)
        ensures
            r@ == Seq::<(crate::sha256::Hash, T)>::empty(),
    {
        HashIndex { entries: Vec::new() }
    }

    pub fn len(&self) -> (r: usize)
        ensures
            r == self@.len(),
            keys_distinct(self@),
    {
        proof {
            use_type_invariant(self);
        }
        self.entries.len()
    }

    pub fn is_empty(&self) -> (r: bool)
        ensures
            r == (self@.len() == 0),
    {
        self.entries.len() == 0
    }

    /// The entry at position `i`.
    pub fn entry(&self, i: usize) -> (r: &(crate::sha256::Hash, T))
        requires
            i < self@.len(),
        ensures
            *r == self@[i as int],
            keys_distinct(self@),
    {
        proof {
            use_type_invariant(self);
        }
        &self.entries[i]
    }

    /// The position of `key`, if present.
    pub fn position(&self, key: &crate::sha256::Hash) -> (r: Option<usize>)
        ensures
            r is Some <==> has_key(self@, *key),
            r matches Some(i) ==> i == index_of(self@, *key),
            keys_distinct(self@),
    {
        proof {
            use_type_invariant(self);
        }
        let mut i: usize = 0;
        while i < self.entries.len()
            invariant
                i <= self.entries.len(),
                keys_distinct(self.entries@),
                forall|j: int| 0 <= j < i ==> #[trigger] self.entries@[j].0 != *key,
            decreases self.entries.len() - i,
        {
            if self.entries[i].0 == *key {
                proof {
                    lemma_index_of(self.entries@, *key, i as int);
                }
                return Some(i);
            }
            i = i + 1;
        }
        None
    }

    pub fn contains_key(&self, key: &crate::sha256::Hash) -> (r: bool)
        ensures
            r == has_key(self@, *key),
            keys_distinct(self@),
    {
        self.position(key).is_some()
    }

    pub fn get(&self, key: &crate::sha256::Hash) -> (r: Option<&T>)
        ensures
            r matches Some(v) ==> lookup(self@, *key) == Some(*v),
            r is None ==> lookup(self@, *key) is None,
            keys_distinct(self@),
    {
        match self.position(key) {
            Some(i) => Some(&self.entries[i].1),
            None => None,
        }
    }

    /// Sets the value of `key`, in place where it is present.
    pub fn insert(&mut self, key: crate::sha256::Hash, value: T)
        ensures
            final(self)@ == insert_entry(old(self)@, key, value),
            keys_distinct(old(self)@),
            keys_distinct(final(self)@),
    {
        proof {
            use_type_invariant(&*self);
            lemma_insert_distinct(self.entries@, key, value);
        }
        match self.position(&key) {
            Some(i) => {
                let mut entries = Vec::new();
                std::mem::swap(&mut entries, &mut self.entries);
                entries.set(i, (key, value));
                self.entries = entries;
            },
            None => {
                let mut entries = Vec::new();
                std::mem::swap(&mut entries, &mut self.entries);
                entries.push((key, value));
                self.entries = entries;
            },
        }
    }

    /// Removes the entry of `key`, returning its value.
    pub fn remove(&mut self, key: &crate::sha256::Hash) -> (r: Option<T>)
        ensures
            final(self)@ == remove_entry(old(self)@, *key),
            r == lookup(old(self)@, *key),
            keys_distinct(old(self)@),
            keys_distinct(final(self)@),
    {
        proof {
            use_type_invariant(&*self);
            lemma_remove_distinct(self.entries@, *key);
        }
        match self.position(key) {
            Some(i) => {
                let mut entries = Vec::new();
                std::mem::swap(&mut entries, &mut self.entries);
                let (_, value) = entries.remove(i);
                self.entries = entries;
                Some(value)
            },
            None => None,
        }
    }

    /// Keeps the entries whose flag is set, in order.
    pub fn retain_flags(&mut self, keep: &Vec<bool>)
        requires
            keep@.len() == old(self)@.len(),
        ensures
            final(self)@ == select_entries(old(self)@, keep@),
            keys_distinct(final(self)@),
    {
        proof {
            use_type_invariant(&*self);
            lemma_select_distinct(self.entries@, keep@);
        }
        let ghost orig = self.entries@;
        let mut rest: Vec<(crate::sha256::Hash, T)> = Vec::new();
        std::mem::swap(&mut rest, &mut self.entries);
        let n = rest.len();
        let mut kept: Vec<(crate::sha256::Hash, T)> = Vec::new();
        let mut k: usize = 0;
        assert(orig.take(0) =~= Seq::<(crate::sha256::Hash, T)>::empty());
        while k < n
            invariant
                n == orig.len(),
                keep@.len() == n,
                k <= n,
                rest@ =~= orig.subrange(k as int, n as int),
                kept@ == select_entries(orig.take(k as int), keep@.take(k as int)),
            decreases n - k,
        {
            proof {
                lemma_select_take(orig, keep@, k as int);
            }
            let e = rest.remove(0);
            if keep[k] {
                kept.push(e);
            }
            k = k + 1;
        }
        assert(orig.take(n as int) =~= orig);
        assert(keep@.take(n as int) =~= keep@);
        self.entries = kept;
    }

    pub fn clear(&mut self)
        ensures
            final(self)@ == Seq::<(crate::sha256::Hash, T)>::empty(),
    {
        self.entries = Vec::new();
    }
}

impl<T: Copy> Clone for HashIndex<T> {
    fn clone(&self) -> (r: HashIndex<T>)
        ensures
            r@ == self@,
    {
        let mut entries: Vec<(crate::sha256::Hash, T)> = Vec::new();
        let mut i: usize = 0;
        let n = self.len();
        while i < n
            invariant
                n == self@.len(),
                keys_distinct(self@),
                i <= n,
                entries@ == self@.take(i as int),
            decreases n - i,
        {
            entries.push(*self.entry(i));
            i = i + 1;
            assert(entries@ =~= self@.take(i as int));
        }
        assert(self@.take(n as int) =~= self@);
        HashIndex { entries }
    }
}

impl<T: Copy> HashIndex<T> {
    /// The values, in order.
    pub fn values(&self) -> (r: Vec<T>)
        ensures
            r@ == self@.map_values(|e: (crate::sha256::Hash, T)| e.1),
    {
        let mut out: Vec<T> = Vec::new();
        let mut i: usize = 0;
        while i < self.entries.len()
            invariant
                i <= self.entries.len(),
                out@ == self.entries@.take(i as int).map_values(|e: (crate::sha256::Hash, T)| e.1),
            decreases self.entries.len() - i,
        {
            out.push(self.entries[i].1);
            i = i + 1;
            assert(out@ =~= self.entries@.take(i as int).map_values(|e: (crate::sha256::Hash, T)| e.1));
        }
        assert(self.entries@.take(i as int) =~= self.entries@);
        out
    }
}

} // verus!
