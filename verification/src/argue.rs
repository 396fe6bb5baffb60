//! The Dung argumentation reading of a coherence lattice: two claims
//! attack each other when they sit together in some minimal conflict;
//! a claim is skeptically accepted when every maximal coherent position
//! keeps it, credulously when some position does, and defeated when
//! none does.
use vstd::prelude::*;
use crate::text::{chars_lt, str_lt, str_eq, copy_string, contains_str, lemma_chars_lt_irreflexive,
    lemma_chars_lt_transitive, lemma_chars_lt_total, lemma_chars_lt_asymmetric};

verus! {

/// The two ids in code-point order (`(a, b)` when `a <= b`).
pub open spec fn ordered(a: Seq<char>, b: Seq<char>) -> (Seq<char>, Seq<char>) {
    if !chars_lt(b, a) {
        (a, b)
    } else {
        (b, a)
    }
}

/// Lexicographic order on id pairs.
pub open spec fn pair_lt(p: (Seq<char>, Seq<char>), q: (Seq<char>, Seq<char>)) -> bool {
    chars_lt(p.0, q.0) || (p.0 == q.0 && chars_lt(p.1, q.1))
}

/// Strictly increasing in pair order.
pub open spec fn pairs_sorted(s: Seq<(Seq<char>, Seq<char>)>) -> bool {
    forall|i: int, j: int| 0 <= i < j < s.len() ==> pair_lt(#[trigger] s[i], #[trigger] s[j])
}

/// Every attack: each two members of a minimal conflict, ordered.
pub open spec fn attack_set(muses: Seq<Seq<Seq<char>>>) -> Set<(Seq<char>, Seq<char>)> {
    Set::new(
        |p: (Seq<char>, Seq<char>)|
            exists|m: int, i: int, j: int|
                0 <= m < muses.len() && 0 <= i < j < muses[m].len() && p == ordered(
                    #[trigger] muses[m][i],
                    #[trigger] muses[m][j],
                ),
    )
}

/// The attacks, each once, in pair order.
pub open spec fn attack_list(muses: Seq<Seq<Seq<char>>>) -> Seq<(Seq<char>, Seq<char>)> {
    choose|s: Seq<(Seq<char>, Seq<char>)>| pairs_sorted(s) && s.to_set() == attack_set(muses)
}

/// Ids in some extension.
pub open spec fn in_some(mss: Seq<Seq<Seq<char>>>, id: Seq<char>) -> bool {
    exists|e: int| 0 <= e < mss.len() && mss[e].contains(id)
}

/// Ids in every extension (there being at least one).
pub open spec fn in_all(mss: Seq<Seq<Seq<char>>>, id: Seq<char>) -> bool {
    mss.len() > 0 && forall|e: int| 0 <= e < mss.len() ==> #[trigger] mss[e].contains(id)
}

/// The ids of `active` that satisfy `keep`, in order.
pub open spec fn select(active: Seq<Seq<char>>, keep: spec_fn(Seq<char>) -> bool) -> Seq<Seq<char>>
    decreases active.len(),
{
    if active.len() == 0 {
        Seq::empty()
    } else if keep(active.last()) {
        select(active.drop_last(), keep).push(active.last())
    } else {
        select(active.drop_last(), keep)
    }
}

/// The argumentation framework as plain values.
pub struct AfView {
    pub attacks: Seq<(Seq<char>, Seq<char>)>,
    pub skeptical: Seq<Seq<char>>,
    pub credulous: Seq<Seq<char>>,
    pub defeated: Seq<Seq<char>>,
}

/// The argumentation framework read off minimal conflicts `muses` and
/// maximal coherent positions `mss` over the `active` claims.
pub open spec fn framework(muses: Seq<Seq<Seq<char>>>, mss: Seq<Seq<Seq<char>>>, active: Seq<Seq<char>>) -> AfView {
    AfView {
        attacks: attack_list(muses),
        skeptical: select(active, |id: Seq<char>| in_all(mss, id)),
        credulous: select(active, |id: Seq<char>| in_some(mss, id)),
        defeated: select(active, |id: Seq<char>| !in_some(mss, id)),
    }
}

/// The framework: attack edges (each a two-element list, in order) and
/// the three acceptance classes.
#[derive(Clone, Debug, PartialEq)]
pub struct Af {
    pub attacks: Vec<Vec<String>>,
    pub skeptical: Vec<String>,
    pub credulous: Vec<String>,
    pub defeated: Vec<String>,
}

pub open spec fn vv(v: Seq<Vec<String>>) -> Seq<Seq<Seq<char>>> {
    Seq::new(v.len(), |i: int| v[i].deep_view())
}

pub open spec fn af_view(af: Af) -> AfView {
    AfView {
        attacks: Seq::new(af.attacks@.len(), |i: int| (af.attacks@[i]@[0]@, af.attacks@[i]@[1]@)),
        skeptical: af.skeptical.deep_view(),
        credulous: af.credulous.deep_view(),
        defeated: af.defeated.deep_view(),
    }
}

impl Af {
    /// No attacks, nobody accepted or defeated.
    pub fn empty() -> (r: Af)
        ensures
            af_view(r).attacks.len() == 0,
            af_view(r).skeptical.len() == 0,
            af_view(r).credulous.len() == 0,
            af_view(r).defeated.len() == 0,
    {
        Af { attacks: Vec::new(), skeptical: Vec::new(), credulous: Vec::new(), defeated: Vec::new() }
    }
}

pub proof fn lemma_pair_lt_transitive(p: (Seq<char>, Seq<char>), q: (Seq<char>, Seq<char>), r: (Seq<char>, Seq<char>))
    requires
        pair_lt(p, q),
        pair_lt(q, r),
    ensures
        pair_lt(p, r),
{
    if chars_lt(p.0, q.0) && chars_lt(q.0, r.0) {
        lemma_chars_lt_transitive(p.0, q.0, r.0);
    } else if chars_lt(p.0, q.0) {
    } else if chars_lt(q.0, r.0) {
    } else {
        lemma_chars_lt_transitive(p.1, q.1, r.1);
    }
}

pub proof fn lemma_pair_lt_irreflexive(p: (Seq<char>, Seq<char>))
    ensures
        !pair_lt(p, p),
{
    lemma_chars_lt_irreflexive(p.0);
    lemma_chars_lt_irreflexive(p.1);
}

pub proof fn lemma_pair_lt_total(p: (Seq<char>, Seq<char>), q: (Seq<char>, Seq<char>))
    ensures
        p == q || pair_lt(p, q) || pair_lt(q, p),
{
    lemma_chars_lt_total(p.0, q.0);
    lemma_chars_lt_total(p.1, q.1);
}

/// Two strictly sorted pair lists with the same elements are equal.
pub proof fn lemma_pairs_unique(a: Seq<(Seq<char>, Seq<char>)>, b: Seq<(Seq<char>, Seq<char>)>)
    requires
        pairs_sorted(a),
        pairs_sorted(b),
        a.to_set() == b.to_set(),
    ensures
        a == b,
    decreases a.len(),
{
    if a.len() == 0 {
        if b.len() > 0 {
            assert(b.to_set().contains(b[0]));
        }
        assert(a =~= b);
    } else {
        if b.len() == 0 {
            assert(a.to_set().contains(a[0]));
        }
        assert(a.to_set().contains(a[0]));
        assert(b.to_set().contains(a[0]));
        let j = choose|j: int| 0 <= j < b.len() && b[j] == a[0];
        assert(a.to_set().contains(b[0]));
        let i = choose|i: int| 0 <= i < a.len() && a[i] == b[0];
        if j > 0 {
            assert(pair_lt(b[0], b[j]));
            if i > 0 {
                assert(pair_lt(a[0], a[i]));
                lemma_pair_lt_transitive(a[0], a[i], a[0]);
                lemma_pair_lt_irreflexive(a[0]);
            } else {
                lemma_pair_lt_irreflexive(a[0]);
            }
        }
        let a1 = a.drop_first();
        let b1 = b.drop_first();
        assert forall|x: (Seq<char>, Seq<char>)| a1.to_set().contains(x) implies b1.to_set().contains(x) by {
            let k = choose|k: int| 0 <= k < a1.len() && a1[k] == x;
            assert(a[k + 1] == x);
            assert(pair_lt(a[0], x));
            assert(a.to_set().contains(x));
            let m = choose|m: int| 0 <= m < b.len() && b[m] == x;
            if m == 0 {
                lemma_pair_lt_irreflexive(x);
            }
            assert(b1[m - 1] == x);
        }
        assert forall|x: (Seq<char>, Seq<char>)| b1.to_set().contains(x) implies a1.to_set().contains(x) by {
            let k = choose|k: int| 0 <= k < b1.len() && b1[k] == x;
            assert(b[k + 1] == x);
            assert(pair_lt(b[0], x));
            assert(b.to_set().contains(x));
            let m = choose|m: int| 0 <= m < a.len() && a[m] == x;
            if m == 0 {
                lemma_pair_lt_irreflexive(x);
            }
            assert(a1[m - 1] == x);
        }
        assert(a1.to_set() =~= b1.to_set());
        lemma_pairs_unique(a1, b1);
        assert(a =~= b) by {
            assert forall|k: int| 0 <= k < a.len() implies a[k] == b[k] by {
                if k > 0 {
                    assert(a[k] == a1[k - 1]);
                    assert(b[k] == b1[k - 1]);
                }
            }
        }
    }
}

/// Sorted, duplicate-free list of id pairs.
struct PairSet {
    items: Vec<(String, String)>,
}

impl PairSet {
    spec fn view_seq(self) -> Seq<(Seq<char>, Seq<char>)> {
        Seq::new(self.items@.len(), |i: int| (self.items@[i].0@, self.items@[i].1@))
    }

    fn pair_lt_exec(a: &(String, String), b0: &String, b1: &String) -> (r: bool)
        ensures
            r == pair_lt((a.0@, a.1@), (b0@, b1@)),
    {
        str_lt(a.0.as_str(), b0.as_str()) || (str_eq(a.0.as_str(), b0.as_str()) && str_lt(a.1.as_str(), b1.as_str()))
    }

    /// Adds the pair unless it is already there, keeping the order.
    fn add(&mut self, x: String, y: String)
        requires
            pairs_sorted(old(self).view_seq()),
        ensures
            pairs_sorted(final(self).view_seq()),
            final(self).view_seq().to_set() == old(self).view_seq().to_set().insert((x@, y@)),
    {
        let ghost pre = self.view_seq();
        let ghost p = (x@, y@);
        let mut i: usize = 0;
        let mut go = true;
        while go && i < self.items.len()
            invariant
                i <= self.items@.len(),
                pre == self.view_seq(),
                p == (x@, y@),
                forall|j: int| 0 <= j < i ==> pair_lt(#[trigger] pre[j], p),
                !go ==> i < self.items@.len() && !pair_lt(pre[i as int], p),
            decreases self.items.len() - i + if go { 1int } else { 0int },
        {
            let it = &self.items[i];
            let lt = Self::pair_lt_exec(it, &x, &y);
            proof {
                assert(*it == self.items@[i as int]);
                assert(pre[i as int] == (self.items@[i as int].0@, self.items@[i as int].1@));

            }
            if lt {
                i = i + 1;
            } else {
                go = false;
            }
        }
        if i < self.items.len() && str_eq(self.items[i].0.as_str(), x.as_str()) && str_eq(
            self.items[i].1.as_str(),
            y.as_str(),
        ) {
            proof {
                assert(pre[i as int] == p);
                assert(pre.to_set().insert(p) =~= pre.to_set());
            }
            return;
        }
        proof {
            if i < pre.len() {
                lemma_pair_lt_total(pre[i as int], p);
                assert forall|j: int| i <= j < pre.len() implies pair_lt(p, #[trigger] pre[j]) by {
                    if j > i {
                        lemma_pair_lt_transitive(p, pre[i as int], pre[j]);
                    }
                }
            }
        }
        self.items.insert(i, (x, y));
        proof {
            let post = self.view_seq();
            assert(post =~= pre.insert(i as int, p));
            assert forall|a: int, b: int| 0 <= a < b < post.len() implies pair_lt(#[trigger] post[a], #[trigger] post[b]) by {
                if b < i {
                } else if a < i && b == i {
                } else if a < i && b > i {
                    lemma_pair_lt_transitive(pre[a], p, pre[b - 1]);
                } else if a == i {
                } else {
                }
            }
            assert(post.to_set() =~= pre.to_set().insert(p)) by {
                assert forall|q: (Seq<char>, Seq<char>)| post.to_set().contains(q) implies pre.to_set().insert(p).contains(q) by {
                    let k = choose|k: int| 0 <= k < post.len() && post[k] == q;
                    if k < i {
                        assert(pre[k] == q);
                    } else if k > i {
                        assert(pre[k - 1] == q);
                    }
                }
                assert forall|q: (Seq<char>, Seq<char>)| pre.to_set().insert(p).contains(q) implies post.to_set().contains(q) by {
                    if q == p {
                        assert(post[i as int] == p);
                    } else {
                        let k = choose|k: int| 0 <= k < pre.len() && pre[k] == q;
                        if k < i {
                            assert(post[k] == q);
                        } else {
                            assert(post[k + 1] == q);
                        }
                    }
                }
            }
        }
    }
}

/// The attack pairs contributed by entries before (m, i, j) in
/// lexicographic index order.
spec fn pairs_before(muses: Seq<Seq<Seq<char>>>, bm: int, bi: int, bj: int) -> Set<(Seq<char>, Seq<char>)> {
    Set::new(
        |p: (Seq<char>, Seq<char>)|
            exists|m: int, i: int, j: int|
                0 <= m < muses.len() && 0 <= i < j < muses[m].len() && (m < bm || (m == bm && i < bi)
                    || (m == bm && i == bi && j < bj)) && p == ordered(
                    #[trigger] muses[m][i],
                    #[trigger] muses[m][j],
                ),
    )
}

fn ordered_exec(a: &String, b: &String) -> (r: (String, String))
    ensures
        (r.0@, r.1@) == ordered(a@, b@),
{
    if !str_lt(b.as_str(), a.as_str()) {
        (copy_string(a), copy_string(b))
    } else {
        (copy_string(b), copy_string(a))
    }
}

/// Every pair of claims that share a minimal conflict, each pair once,
/// in order.
pub fn attack_edges(muses: &Vec<Vec<String>>) -> (r: Vec<Vec<String>>)
    ensures
        Seq::new(r@.len(), |i: int| (r@[i]@[0]@, r@[i]@[1]@)) == attack_list(vv(muses@)),
        forall|i: int| 0 <= i < r@.len() ==> #[trigger] r@[i]@.len() == 2,
{
    let ghost ms = vv(muses@);
    let mut set = PairSet { items: Vec::new() };
    let mut m: usize = 0;
    proof {
        assert(set.view_seq().to_set() =~= pairs_before(ms, 0, 0, 0));
    }
    while m < muses.len()
        invariant
            m <= muses@.len(),
            ms == vv(muses@),
            pairs_sorted(set.view_seq()),
            set.view_seq().to_set() == pairs_before(ms, m as int, 0, 0),
        decreases muses.len() - m,
    {
        let mm = &muses[m];
        let mut i: usize = 0;
        while i < mm.len()
            invariant
                m < muses@.len(),
                mm == muses@[m as int],
                i <= mm@.len(),
                ms == vv(muses@),
                pairs_sorted(set.view_seq()),
                set.view_seq().to_set() == pairs_before(ms, m as int, i as int, 0),
            decreases mm.len() - i,
        {
            let mut j: usize = i + 1;
            proof {
                assert(pairs_before(ms, m as int, i as int, 0) =~= pairs_before(ms, m as int, i as int, i + 1)) by {
                    assert forall|p| pairs_before(ms, m as int, i as int, i + 1).contains(p) implies pairs_before(
                        ms,
                        m as int,
                        i as int,
                        0,
                    ).contains(p) by {
                        let (a, b, c) = choose|a: int, b: int, c: int|
                            0 <= a < ms.len() && 0 <= b < c < ms[a].len() && (a < m || (a == m && b < i) || (a == m && b == i
                                && c < i + 1)) && p == ordered(#[trigger] ms[a][b], #[trigger] ms[a][c]);
                    }
                }
            }
            while j < mm.len()
                invariant
                    m < muses@.len(),
                    mm == muses@[m as int],
                    i < mm@.len(),
                    i + 1 <= j <= mm@.len(),
                    ms == vv(muses@),
                    pairs_sorted(set.view_seq()),
                    set.view_seq().to_set() == pairs_before(ms, m as int, i as int, j as int),
                decreases mm.len() - j,
            {
                let (x, y) = ordered_exec(&mm[i], &mm[j]);
                let ghost p = (x@, y@);
                set.add(x, y);
                proof {
                    assert(ms[m as int][i as int] == mm@[i as int]@);
                    assert(ms[m as int][j as int] == mm@[j as int]@);
                    assert(set.view_seq().to_set() =~= pairs_before(ms, m as int, i as int, j + 1)) by {
                        assert forall|q| pairs_before(ms, m as int, i as int, j + 1).contains(q) implies set.view_seq().to_set().contains(q) by {
                            let (a, b, c) = choose|a: int, b: int, c: int|
                                0 <= a < ms.len() && 0 <= b < c < ms[a].len() && (a < m || (a == m && b < i) || (a == m && b
                                    == i && c < j + 1)) && q == ordered(#[trigger] ms[a][b], #[trigger] ms[a][c]);
                            if !(a == m && b == i && c == j) {
                                assert(pairs_before(ms, m as int, i as int, j as int).contains(q));
                            }
                        }
                        assert forall|q| set.view_seq().to_set().contains(q) implies pairs_before(ms, m as int, i as int, j + 1).contains(q) by {
                            if q == p {
                                assert(q == ordered(ms[m as int][i as int], ms[m as int][j as int]));
                            } else {
                                assert(pairs_before(ms, m as int, i as int, j as int).contains(q));
                                let (a, b, c) = choose|a: int, b: int, c: int|
                                    0 <= a < ms.len() && 0 <= b < c < ms[a].len() && (a < m || (a == m && b < i) || (a == m
                                        && b == i && c < j)) && q == ordered(#[trigger] ms[a][b], #[trigger] ms[a][c]);
                            }
                        }
                    }
                }
                j = j + 1;
            }
            proof {
                assert(pairs_before(ms, m as int, i as int, j as int) =~= pairs_before(ms, m as int, i + 1, 0)) by {
                    assert forall|q| pairs_before(ms, m as int, i + 1, 0).contains(q) implies pairs_before(ms, m as int, i as int, j as int).contains(q) by {
                        let (a, b, c) = choose|a: int, b: int, c: int|
                            0 <= a < ms.len() && 0 <= b < c < ms[a].len() && (a < m || (a == m && b < i + 1) || (a == m && b
                                == i + 1 && c < 0)) && q == ordered(#[trigger] ms[a][b], #[trigger] ms[a][c]);
                        assert(ms[m as int].len() == mm@.len());
                    }
                    assert forall|q| pairs_before(ms, m as int, i as int, j as int).contains(q) implies pairs_before(ms, m as int, i + 1, 0).contains(q) by {
                        let (a, b, c) = choose|a: int, b: int, c: int|
                            0 <= a < ms.len() && 0 <= b < c < ms[a].len() && (a < m || (a == m && b < i) || (a == m && b
                                == i && c < j)) && q == ordered(#[trigger] ms[a][b], #[trigger] ms[a][c]);
                    }
                }
            }
            i = i + 1;
        }
        proof {
            assert(pairs_before(ms, m as int, i as int, 0) =~= pairs_before(ms, m + 1, 0, 0)) by {
                assert forall|q| pairs_before(ms, m + 1, 0, 0).contains(q) implies pairs_before(ms, m as int, i as int, 0).contains(q) by {
                    let (a, b, c) = choose|a: int, b: int, c: int|
                        0 <= a < ms.len() && 0 <= b < c < ms[a].len() && (a < m + 1 || (a == m + 1 && b < 0) || (a == m
                            + 1 && b == 0 && c < 0)) && q == ordered(#[trigger] ms[a][b], #[trigger] ms[a][c]);
                    assert(ms[m as int].len() == mm@.len());
                }
                assert forall|q| pairs_before(ms, m as int, i as int, 0).contains(q) implies pairs_before(ms, m + 1, 0, 0).contains(q) by {
                    let (a, b, c) = choose|a: int, b: int, c: int|
                        0 <= a < ms.len() && 0 <= b < c < ms[a].len() && (a < m || (a == m && b < i) || (a == m && b == i
                            && c < 0)) && q == ordered(#[trigger] ms[a][b], #[trigger] ms[a][c]);
                }
            }
        }
        m = m + 1;
    }
    proof {
        assert(pairs_before(ms, m as int, 0, 0) =~= attack_set(ms)) by {
            assert forall|q| attack_set(ms).contains(q) implies pairs_before(ms, m as int, 0, 0).contains(q) by {
                let (a, b, c) = choose|a: int, b: int, c: int|
                    0 <= a < ms.len() && 0 <= b < c < ms[a].len() && q == ordered(#[trigger] ms[a][b], #[trigger] ms[a][c]);
            }
        }
        lemma_pairs_unique(set.view_seq(), attack_list(ms));
    }
    // flatten into two-element lists
    let mut r: Vec<Vec<String>> = Vec::new();
    let mut k: usize = 0;
    while k < set.items.len()
        invariant
            k <= set.items@.len(),
            r@.len() == k,
            forall|t: int| 0 <= t < k ==> #[trigger] r@[t]@.len() == 2,
            forall|t: int| 0 <= t < k ==> (#[trigger] r@[t]@[0]@, r@[t]@[1]@) == set.view_seq()[t],
        decreases set.items.len() - k,
    {
        let mut e: Vec<String> = Vec::new();
        e.push(copy_string(&set.items[k].0));
        e.push(copy_string(&set.items[k].1));
        r.push(e);
        k = k + 1;
    }
    proof {
        assert(Seq::new(r@.len(), |i: int| (r@[i]@[0]@, r@[i]@[1]@)) =~= set.view_seq());
    }
    r
}

fn in_some_exec(mss: &Vec<Vec<String>>, id: &String) -> (r: bool)
    ensures
        r == in_some(vv(mss@), id@),
{
    let mut e: usize = 0;
    while e < mss.len()
        invariant
            e <= mss@.len(),
            forall|k: int| 0 <= k < e ==> !(#[trigger] vv(mss@)[k]).contains(id@),
        decreases mss.len() - e,
    {
        if contains_str(&mss[e], id.as_str()) {
            assert(vv(mss@)[e as int] == mss@[e as int].deep_view());
            return true;
        }
        assert(vv(mss@)[e as int] == mss@[e as int].deep_view());
        e = e + 1;
    }
    false
}

fn in_all_exec(mss: &Vec<Vec<String>>, id: &String) -> (r: bool)
    ensures
        r == in_all(vv(mss@), id@),
{
    if mss.len() == 0 {
        return false;
    }
    let mut e: usize = 0;
    while e < mss.len()
        invariant
            e <= mss@.len(),
            mss@.len() > 0,
            forall|k: int| 0 <= k < e ==> (#[trigger] vv(mss@)[k]).contains(id@),
        decreases mss.len() - e,
    {
        assert(vv(mss@)[e as int] == mss@[e as int].deep_view());
        if !contains_str(&mss[e], id.as_str()) {
            return false;
        }
        e = e + 1;
    }
    true
}

/// The argumentation framework of minimal conflicts `muses` and maximal
/// coherent positions `mss` over the `active` claims.
pub fn argumentation(muses: &Vec<Vec<String>>, mss: &Vec<Vec<String>>, active: &Vec<String>) -> (r: Af)
    ensures
        af_view(r) == framework(vv(muses@), vv(mss@), active.deep_view()),
        forall|i: int| 0 <= i < r.attacks@.len() ==> #[trigger] r.attacks@[i]@.len() == 2,
{
    let attacks = attack_edges(muses);
    let ghost ms = vv(mss@);
    let ghost av = active.deep_view();
    let ghost ks = |id: Seq<char>| in_all(ms, id);
    let ghost kc = |id: Seq<char>| in_some(ms, id);
    let ghost kd = |id: Seq<char>| !in_some(ms, id);
    let mut skeptical: Vec<String> = Vec::new();
    let mut credulous: Vec<String> = Vec::new();
    let mut defeated: Vec<String> = Vec::new();
    let mut i: usize = 0;
    proof {
        assert(av.take(0) =~= Seq::<Seq<char>>::empty());
    }
    while i < active.len()
        invariant
            i <= active@.len(),
            ms == vv(mss@),
            av == active.deep_view(),
            ks == (|id: Seq<char>| in_all(ms, id)),
            kc == (|id: Seq<char>| in_some(ms, id)),
            kd == (|id: Seq<char>| !in_some(ms, id)),
            skeptical.deep_view() == select(av.take(i as int), ks),
            credulous.deep_view() == select(av.take(i as int), kc),
            defeated.deep_view() == select(av.take(i as int), kd),
        decreases active.len() - i,
    {
        proof {
            assert(av.take(i + 1).drop_last() =~= av.take(i as int));
            assert(av.take(i + 1).last() == active@[i as int]@);
        }
        let id = &active[i];
        if in_all_exec(mss, id) {
            let ghost pre = skeptical.deep_view();
            skeptical.push(copy_string(id));
            assert(skeptical.deep_view() =~= pre.push(id@));
        }
        if in_some_exec(mss, id) {
            let ghost pre = credulous.deep_view();
            credulous.push(copy_string(id));
            assert(credulous.deep_view() =~= pre.push(id@));
        } else {
            let ghost pre = defeated.deep_view();
            defeated.push(copy_string(id));
            assert(defeated.deep_view() =~= pre.push(id@));
        }
        i = i + 1;
    }
    proof {
        assert(av.take(i as int) =~= av);
    }
    let r = Af { attacks, skeptical, credulous, defeated };
    proof {
        assert(af_view(r).attacks =~= attack_list(vv(muses@)));
    }
    r
}

} // verus!
