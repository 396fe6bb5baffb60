//! A map from names to values, kept sorted by name in code-point order
//! (the order a `BTreeMap<String, _>` walks its keys in).
use vstd::prelude::*;
use crate::text::{chars_lt, str_lt, str_eq, lemma_chars_lt_irreflexive, lemma_chars_lt_total,
    lemma_chars_lt_transitive, lemma_chars_lt_asymmetric};

verus! {

/// Strictly increasing in code-point order.
pub open spec fn strictly_sorted(s: Seq<Seq<char>>) -> bool {
    forall|i: int, j: int| 0 <= i < j < s.len() ==> chars_lt(#[trigger] s[i], #[trigger] s[j])
}

/// The keys of `m`, in increasing code-point order.
pub open spec fn sorted_keys<V>(m: Map<Seq<char>, V>) -> Seq<Seq<char>> {
    choose|s: Seq<Seq<char>>| strictly_sorted(s) && s.to_set() == m.dom()
}

/// Two strictly sorted sequences with the same elements are equal.
pub proof fn lemma_sorted_unique(a: Seq<Seq<char>>, b: Seq<Seq<char>>)
    requires
        strictly_sorted(a),
        strictly_sorted(b),
        a.to_set() == b.to_set(),
    ensures
        a == b,
    decreases a.len(),
{
    if a.len() == 0 {
        if b.len() > 0 {
            assert(b.to_set().contains(b[0]));
        }
        assert(a =~= b);
    } else {
        if b.len() == 0 {
            assert(a.to_set().contains(a[0]));
        }
        assert(a.to_set().contains(a[0]));
        assert(b.to_set().contains(a[0]));
        let j = choose|j: int| 0 <= j < b.len() && b[j] == a[0];
        assert(a.to_set().contains(b[0]));
        let i = choose|i: int| 0 <= i < a.len() && a[i] == b[0];
        if j > 0 {
            assert(chars_lt(b[0], b[j]));
            if i > 0 {
                assert(chars_lt(a[0], a[i]));
                lemma_chars_lt_asymmetric(a[0], a[i]);
            } else {
                lemma_chars_lt_irreflexive(a[0]);
            }
        }
        assert(a[0] == b[0]);
        let a1 = a.drop_first();
        let b1 = b.drop_first();
        assert forall|x: Seq<char>| a1.to_set().contains(x) implies b1.to_set().contains(x) by {
            let k = choose|k: int| 0 <= k < a1.len() && a1[k] == x;
            assert(a[k + 1] == x);
            assert(chars_lt(a[0], x));
            assert(a.to_set().contains(x));
            let m = choose|m: int| 0 <= m < b.len() && b[m] == x;
            if m == 0 {
                lemma_chars_lt_irreflexive(x);
            }
            assert(b1[m - 1] == x);
        }
        assert forall|x: Seq<char>| b1.to_set().contains(x) implies a1.to_set().contains(x) by {
            let k = choose|k: int| 0 <= k < b1.len() && b1[k] == x;
            assert(b[k + 1] == x);
            assert(chars_lt(b[0], x));
            assert(b.to_set().contains(x));
            let m = choose|m: int| 0 <= m < a.len() && a[m] == x;
            if m == 0 {
                lemma_chars_lt_irreflexive(x);
            }
            assert(a1[m - 1] == x);
        }
        assert(a1.to_set() =~= b1.to_set());
        lemma_sorted_unique(a1, b1);
        assert(a =~= b) by {
            assert forall|k: int| 0 <= k < a.len() implies a[k] == b[k] by {
                if k > 0 {
                    assert(a[k] == a1[k - 1]);
                    assert(b[k] == b1[k - 1]);
                }
            }
        }
    }
}

/// Entries sorted strictly by key: at most one entry per key.
pub struct SortedMap<V> {
    pub entries: Vec<(String, V)>,
}

impl<V> SortedMap<V> {
    pub open spec fn len(self) -> nat {
        self.entries@.len()
    }

    pub open spec fn key_at(self, i: int) -> Seq<char> {
        self.entries@[i].0@
    }

    pub open spec fn val_at(self, i: int) -> V {
        self.entries@[i].1
    }

    /// Keys strictly increase along the entries.
    pub open spec fn wf(self) -> bool {
        forall|i: int, j: int|
            0 <= i < j < self.len() ==> chars_lt(#[trigger] self.key_at(i), #[trigger] self.key_at(j))
    }

    pub open spec fn has(self, k: Seq<char>) -> bool {
        exists|i: int| 0 <= i < self.len() && self.key_at(i) == k
    }

    pub open spec fn index_of(self, k: Seq<char>) -> int {
        choose|i: int| 0 <= i < self.len() && self.key_at(i) == k
    }

    /// The value stored under `k`, if any.
    pub open spec fn lookup(self, k: Seq<char>) -> Option<V> {
        if self.has(k) {
            Some(self.val_at(self.index_of(k)))
        } else {
            None
        }
    }

    /// The map the entries stand for.
    pub open spec fn table(self) -> Map<Seq<char>, V> {
        Map::new(|k: Seq<char>| self.has(k), |k: Seq<char>| self.lookup(k)->Some_0)
    }

    /// The keys in entry order.
    pub open spec fn keys(self) -> Seq<Seq<char>> {
        Seq::new(self.len(), |i: int| self.key_at(i))
    }

    /// The values in entry order.
    pub open spec fn values(self) -> Seq<V> {
        Seq::new(self.len(), |i: int| self.val_at(i))
    }

    /// The entries of a sorted map list its keys in increasing order.
    pub proof fn lemma_keys_sorted(self)
        requires
            self.wf(),
        ensures
            self.keys() == sorted_keys(self.table()),
    {
        let ks = self.keys();
        assert(strictly_sorted(ks));
        assert forall|k: Seq<char>| ks.to_set().contains(k) == self.table().dom().contains(k) by {
            if ks.to_set().contains(k) {
                let i = choose|i: int| 0 <= i < ks.len() && ks[i] == k;
                assert(self.key_at(i) == k);
            }
            if self.has(k) {
                let i = choose|i: int| 0 <= i < self.len() && self.key_at(i) == k;
                assert(ks[i] == k);
            }
        }
        assert(ks.to_set() =~= self.table().dom());
        let c = sorted_keys(self.table());
        lemma_sorted_unique(ks, c);
    }

    pub proof fn lemma_unique(self, i: int, j: int)
        requires
            self.wf(),
            0 <= i < self.len(),
            0 <= j < self.len(),
            self.key_at(i) == self.key_at(j),
        ensures
            i == j,
    {
        if i < j {
            lemma_chars_lt_irreflexive(self.key_at(i));
        } else if j < i {
            lemma_chars_lt_irreflexive(self.key_at(i));
        }
    }

    pub proof fn lemma_lookup_at(self, i: int)
        requires
            self.wf(),
            0 <= i < self.len(),
        ensures
            self.has(self.key_at(i)),
            self.index_of(self.key_at(i)) == i,
            self.lookup(self.key_at(i)) == Some(self.val_at(i)),
    {
        let j = self.index_of(self.key_at(i));
        self.lemma_unique(i, j);
    }

    proof fn lemma_table_of_lookups(pre: Self, post: Self, k: Seq<char>, v: V)
        requires
            forall|key: Seq<char>| #[trigger] post.lookup(key) == if key == k {
                Some(v)
            } else {
                pre.lookup(key)
            },
        ensures
            post.table() == pre.table().insert(k, v),
    {
        assert forall|key: Seq<char>| #[trigger] post.has(key) == pre.table().insert(k, v).contains_key(key) by {
            let l = post.lookup(key);
        }
        assert(post.table() =~= pre.table().insert(k, v));
    }

    /// An empty map.
    pub fn new() -> (r: Self)
        ensures
            r.len() == 0,
            r.wf(),
            r.table() == Map::<Seq<char>, V>::empty(),
    {
        let r = SortedMap { entries: Vec::new() };
        assert(r.table() =~= Map::<Seq<char>, V>::empty());
        r
    }

    /// Where `k` stands or would stand: `(true, i)` when entry `i` has
    /// key `k`, `(false, i)` when `k` would be inserted before entry `i`.
    fn search(&self, k: &str) -> (r: (bool, usize))
        requires
            self.wf(),
        ensures
            r.1 <= self.len(),
            forall|i: int| 0 <= i < r.1 ==> chars_lt(#[trigger] self.key_at(i), k@),
            r.0 ==> r.1 < self.len() && self.key_at(r.1 as int) == k@,
            !r.0 ==> forall|i: int| r.1 <= i < self.len() ==> chars_lt(k@, #[trigger] self.key_at(i)),
    {
        let n = self.entries.len();
        let mut i: usize = 0;
        while i < n && str_lt(self.entries[i].0.as_str(), k)
            invariant
                n == self.len(),
                i <= n,
                forall|j: int| 0 <= j < i ==> chars_lt(#[trigger] self.key_at(j), k@),
            decreases n - i,
        {
            i = i + 1;
        }
        if i < n && str_eq(self.entries[i].0.as_str(), k) {
            (true, i)
        } else {
            proof {
                if i < n {
                    lemma_chars_lt_total(self.key_at(i as int), k@);
                    assert forall|j: int| i <= j < self.len() implies chars_lt(k@, #[trigger] self.key_at(j)) by {
                        if j > i {
                            lemma_chars_lt_transitive(k@, self.key_at(i as int), self.key_at(j));
                        }
                    }
                }
            }
            (false, i)
        }
    }

    /// Whether the keys strictly increase along the entries.
    pub fn check_wf(&self) -> (r: bool)
        ensures
            r == self.wf(),
    {
        let n = self.entries.len();
        if n == 0 {
            return true;
        }
        let mut i: usize = 1;
        while i < n
            invariant
                1 <= i <= n,
                n == self.len(),
                forall|a: int, b: int| 0 <= a < b < i ==> chars_lt(#[trigger] self.key_at(a), #[trigger] self.key_at(b)),
            decreases n - i,
        {
            if !str_lt(self.entries[i - 1].0.as_str(), self.entries[i].0.as_str()) {
                assert(!chars_lt(self.key_at(i - 1), self.key_at(i as int)));
                return false;
            }
            proof {
                assert forall|a: int, b: int| 0 <= a < b < i + 1 implies chars_lt(#[trigger] self.key_at(a), #[trigger] self.key_at(b)) by {
                    if b == i && a < i - 1 {
                        lemma_chars_lt_transitive(self.key_at(a), self.key_at(i - 1), self.key_at(b));
                    }
                }
            }
            i = i + 1;
        }
        true
    }

    /// Whether some entry has key `k`.
    pub fn contains_key(&self, k: &str) -> (r: bool)
        requires
            self.wf(),
        ensures
            r == self.has(k@),
    {
        let (found, i) = self.search(k);
        proof {
            if !found && self.has(k@) {
                let j = self.index_of(k@);
                if j < i {
                    lemma_chars_lt_irreflexive(k@);
                } else {
                    lemma_chars_lt_irreflexive(k@);
                }
            }
        }
        found
    }

    /// The value under `k`, if any.
    pub fn get(&self, k: &str) -> (r: Option<&V>)
        requires
            self.wf(),
        ensures
            r matches Some(v) ==> self.lookup(k@) == Some(*v),
            r is None ==> !self.has(k@),
    {
        let (found, i) = self.search(k);
        if found {
            proof {
                self.lemma_lookup_at(i as int);
            }
            Some(&self.entries[i].1)
        } else {
            proof {
                if self.has(k@) {
                    let j = self.index_of(k@);
                    lemma_chars_lt_irreflexive(k@);
                    if j < i {
                    } else {
                    }
                }
            }
            None
        }
    }

    /// Stores `v` under `k`, replacing what was there.
    pub fn insert(&mut self, k: String, v: V)
        requires
            old(self).wf(),
        ensures
            final(self).wf(),
            final(self).len() == old(self).len() + if old(self).has(k@) { 0int } else { 1int },
            forall|key: Seq<char>| #[trigger] final(self).lookup(key) == if key == k@ {
                Some(v)
            } else {
                old(self).lookup(key)
            },
            final(self).table() == old(self).table().insert(k@, v),
    {
        let ghost pre = *self;
        let (found, i) = self.search(k.as_str());
        let ghost kv = k@;
        if found {
            self.entries.set(i, (k, v));
            proof {
                let post = *self;
                assert(forall|j: int| 0 <= j < post.len() ==> #[trigger] post.key_at(j) == pre.key_at(j));
                assert(post.wf());
                post.lemma_lookup_at(i as int);
                assert forall|key: Seq<char>| #[trigger] post.lookup(key) == if key == kv {
                    Some(v)
                } else {
                    pre.lookup(key)
                } by {
                    if key != kv {
                        if pre.has(key) {
                            let j = pre.index_of(key);
                            pre.lemma_lookup_at(j);
                            post.lemma_lookup_at(j);
                        } else {
                            if post.has(key) {
                                let j = post.index_of(key);
                                assert(pre.key_at(j) == key);
                            }
                        }
                    }
                }
                pre.lemma_lookup_at(i as int);
                Self::lemma_table_of_lookups(pre, post, kv, v);
            }
        } else {
            self.entries.insert(i, (k, v));
            proof {
                let post = *self;
                assert(forall|j: int| 0 <= j < i ==> #[trigger] post.key_at(j) == pre.key_at(j));
                assert(forall|j: int| i < j < post.len() ==> #[trigger] post.key_at(j) == pre.key_at(j - 1));
                assert(post.key_at(i as int) == kv);
                assert forall|a: int, b: int| 0 <= a < b < post.len() implies chars_lt(
                    #[trigger] post.key_at(a),
                    #[trigger] post.key_at(b),
                ) by {
                    if b < i {
                    } else if a < i && b == i {
                    } else if a < i && b > i {
                        lemma_chars_lt_transitive(pre.key_at(a), kv, pre.key_at(b - 1));
                    } else if a == i {
                    } else {
                        assert(pre.key_at(a - 1) == post.key_at(a));
                    }
                }
                assert(post.wf());
                post.lemma_lookup_at(i as int);
                if pre.has(kv) {
                    let j = pre.index_of(kv);
                    lemma_chars_lt_irreflexive(kv);
                    if j < i {
                    } else {
                    }
                }
                assert forall|key: Seq<char>| #[trigger] post.lookup(key) == if key == kv {
                    Some(v)
                } else {
                    pre.lookup(key)
                } by {
                    if key != kv {
                        if pre.has(key) {
                            let j = pre.index_of(key);
                            pre.lemma_lookup_at(j);
                            if j < i {
                                post.lemma_lookup_at(j);
                            } else {
                                post.lemma_lookup_at(j + 1);
                            }
                        } else {
                            if post.has(key) {
                                let j = post.index_of(key);
                                if j < i {
                                    assert(pre.key_at(j) == key);
                                } else if j > i {
                                    assert(pre.key_at(j - 1) == key);
                                }
                            }
                        }
                    }
                }
                Self::lemma_table_of_lookups(pre, post, kv, v);
            }
        }
    }

    /// Stores `v` under `k` only when `k` has no entry yet.
    pub fn insert_absent(&mut self, k: String, v: V)
        requires
            old(self).wf(),
        ensures
            final(self).wf(),
            old(self).has(k@) ==> *final(self) == *old(self),
            !old(self).has(k@) ==> final(self).len() == old(self).len() + 1,
            forall|key: Seq<char>| #[trigger] final(self).lookup(key) == if key == k@ && !old(
                self,
            ).has(k@) {
                Some(v)
            } else {
                old(self).lookup(key)
            },
            final(self).table() == if old(self).table().contains_key(k@) {
                old(self).table()
            } else {
                old(self).table().insert(k@, v)
            },
    {
        if !self.contains_key(k.as_str()) {
            self.insert(k, v);
        }
    }
}

} // verus!
