//! Subsets by size and the minimal hitting sets of a family of sets: an
//! independent way to get every minimal correction set from the minimal
//! conflicts.
use vstd::prelude::*;
use crate::text::{contains_str, copy_string};

verus! {

/// The `k`-element subsets of `start..n` as ascending position lists,
/// in lexicographic order.
pub open spec fn combos(start: int, n: int, k: nat) -> Seq<Seq<usize>>
    decreases k, n - start,
{
    if k == 0 {
        seq![Seq::empty()]
    } else if start >= n || start < 0 {
        Seq::empty()
    } else {
        combos(start + 1, n, (k - 1) as nat).map_values(|c: Seq<usize>| seq![start as usize] + c) + combos(
            start + 1,
            n,
            k,
        )
    }
}

/// The `k`-element subsets of `0..n` in lexicographic order; none when
/// `k` is 0 or more than `n`.
pub open spec fn combinations_of(n: nat, k: nat) -> Seq<Seq<usize>> {
    if k == 0 || k > n {
        Seq::empty()
    } else {
        combos(0, n as int, k)
    }
}

/// The non-empty subsets of `0..n`, smaller sizes first, each size in
/// lexicographic order, up to size `m`.
pub open spec fn cands_upto(n: nat, m: nat) -> Seq<Seq<usize>>
    decreases m,
{
    if m == 0 {
        Seq::empty()
    } else {
        cands_upto(n, (m - 1) as nat) + combinations_of(n, m)
    }
}

/// `cand` shares an element with `s`.
pub open spec fn hits(s: Seq<Seq<char>>, cand: Seq<Seq<char>>) -> bool {
    exists|e: int| 0 <= e < s.len() && cand.contains(#[trigger] s[e])
}

/// `cand` shares an element with every set.
pub open spec fn hits_all(sets: Seq<Seq<Seq<char>>>, cand: Seq<Seq<char>>) -> bool {
    forall|i: int| 0 <= i < sets.len() ==> hits(#[trigger] sets[i], cand)
}

/// Every element of `f` is in `cand`.
pub open spec fn covers(f: Seq<Seq<char>>, cand: Seq<Seq<char>>) -> bool {
    forall|e: int| 0 <= e < f.len() ==> cand.contains(#[trigger] f[e])
}

/// The universe elements at the positions `c`.
pub open spec fn pick(universe: Seq<Seq<char>>, c: Seq<usize>) -> Seq<Seq<char>> {
    c.map_values(|i: usize| universe[i as int])
}

/// The hitting sets found after offering the candidates `cs` in turn:
/// a candidate is kept when it hits every set and contains none kept
/// before it.
pub open spec fn mhs_from(sets: Seq<Seq<Seq<char>>>, universe: Seq<Seq<char>>, cs: Seq<Seq<usize>>) -> Seq<Seq<Seq<char>>>
    decreases cs.len(),
{
    if cs.len() == 0 {
        Seq::empty()
    } else {
        let found = mhs_from(sets, universe, cs.drop_last());
        let cand = pick(universe, cs.last());
        if hits_all(sets, cand) && !(exists|j: int| 0 <= j < found.len() && covers(#[trigger] found[j], cand)) {
            found.push(cand)
        } else {
            found
        }
    }
}

/// The minimal hitting sets of `sets` over `universe`, smallest first;
/// none for an empty family.
pub open spec fn hitting_sets(sets: Seq<Seq<Seq<char>>>, universe: Seq<Seq<char>>) -> Seq<Seq<Seq<char>>> {
    if sets.len() == 0 {
        Seq::empty()
    } else {
        mhs_from(sets, universe, cands_upto(universe.len(), universe.len()))
    }
}

fn combos_exec(start: usize, n: usize, k: usize) -> (r: Vec<Vec<usize>>)
    ensures
        r@.len() == combos(start as int, n as int, k as nat).len(),
        forall|i: int| 0 <= i < r@.len() ==> #[trigger] r@[i]@ == combos(start as int, n as int, k as nat)[i],
    decreases k, n - start,
{
    if k == 0 {
        let mut r: Vec<Vec<usize>> = Vec::new();
        r.push(Vec::new());
        proof {
            assert(r@[0]@ =~= Seq::<usize>::empty());
        }
        return r;
    }
    if start >= n {
        return Vec::new();
    }
    let a = combos_exec(start + 1, n, k - 1);
    let b = combos_exec(start + 1, n, k);
    let ghost sa = combos(start as int + 1, n as int, (k - 1) as nat);
    let ghost sb = combos(start as int + 1, n as int, k as nat);
    let ghost want = sa.map_values(|c: Seq<usize>| seq![start as usize] + c) + sb;
    assert(combos(start as int, n as int, k as nat) == want);
    let mut r: Vec<Vec<usize>> = Vec::new();
    let mut i: usize = 0;
    while i < a.len()
        invariant
            i <= a@.len(),
            a@.len() == sa.len(),
            forall|j: int| 0 <= j < a@.len() ==> #[trigger] a@[j]@ == sa[j],
            r@.len() == i,
            forall|j: int| 0 <= j < i ==> #[trigger] r@[j]@ == seq![start as usize] + sa[j],
        decreases a.len() - i,
    {
        let mut c: Vec<usize> = Vec::new();
        c.push(start);
        let mut t: usize = 0;
        while t < a[i].len()
            invariant
                i < a@.len(),
                t <= a@[i as int]@.len(),
                c@ == seq![start as usize] + a@[i as int]@.take(t as int),
            decreases a[i as int]@.len() - t,
        {
            c.push(a[i][t]);
            proof {
                assert(a@[i as int]@.take(t + 1) =~= a@[i as int]@.take(t as int).push(a@[i as int]@[t as int]));
            }
            t = t + 1;
        }
        proof {
            assert(a@[i as int]@.take(t as int) =~= a@[i as int]@);
        }
        r.push(c);
        i = i + 1;
    }
    let mut j: usize = 0;
    while j < b.len()
        invariant
            j <= b@.len(),
            a@.len() == sa.len(),
            b@.len() == sb.len(),
            forall|x: int| 0 <= x < b@.len() ==> #[trigger] b@[x]@ == sb[x],
            r@.len() == a@.len() + j,
            forall|x: int| 0 <= x < a@.len() ==> #[trigger] r@[x]@ == seq![start as usize] + sa[x],
            forall|x: int| a@.len() <= x < a@.len() + j ==> #[trigger] r@[x]@ == sb[x - a@.len()],
        decreases b.len() - j,
    {
        let mut c: Vec<usize> = Vec::new();
        let mut t: usize = 0;
        while t < b[j].len()
            invariant
                j < b@.len(),
                t <= b@[j as int]@.len(),
                c@ == b@[j as int]@.take(t as int),
            decreases b[j as int]@.len() - t,
        {
            c.push(b[j][t]);
            proof {
                assert(b@[j as int]@.take(t + 1) =~= b@[j as int]@.take(t as int).push(b@[j as int]@[t as int]));
            }
            t = t + 1;
        }
        proof {
            assert(b@[j as int]@.take(t as int) =~= b@[j as int]@);
        }
        r.push(c);
        j = j + 1;
    }
    proof {
        assert forall|x: int| 0 <= x < r@.len() implies #[trigger] r@[x]@ == want[x] by {
            if x < a@.len() {
                assert(want[x] == seq![start as usize] + sa[x]);
            } else {
                assert(want[x] == sb[x - a@.len()]);
            }
        }
    }
    r
}

/// The `k`-element subsets of `0..n` as ascending position lists, in
/// lexicographic order; none when `k` is 0 or more than `n`.
pub fn combinations(n: usize, k: usize) -> (r: Vec<Vec<usize>>)
    ensures
        r@.len() == combinations_of(n as nat, k as nat).len(),
        forall|i: int| 0 <= i < r@.len() ==> #[trigger] r@[i]@ == combinations_of(n as nat, k as nat)[i],
{
    if k == 0 || k > n {
        return Vec::new();
    }
    combos_exec(0, n, k)
}

/// Whether `cand` shares an element with every set.
fn hits_all_exec(sets: &Vec<Vec<String>>, cand: &Vec<String>) -> (r: bool)
    ensures
        r == hits_all(sets.deep_view(), cand.deep_view()),
{
    let ghost sv = sets.deep_view();
    let ghost cv = cand.deep_view();
    let mut i: usize = 0;
    while i < sets.len()
        invariant
            i <= sets@.len(),
            sv == sets.deep_view(),
            cv == cand.deep_view(),
            forall|x: int| 0 <= x < i ==> hits(#[trigger] sv[x], cv),
        decreases sets.len() - i,
    {
        let mut hit = false;
        let mut e: usize = 0;
        while e < sets[i].len()
            invariant
                i < sets@.len(),
                e <= sets@[i as int]@.len(),
                sv == sets.deep_view(),
                cv == cand.deep_view(),
                hit == exists|y: int| 0 <= y < e && cv.contains(#[trigger] sv[i as int][y]),
            decreases sets[i as int]@.len() - e,
        {
            proof {
                assert(sv[i as int][e as int] == sets@[i as int]@[e as int]@);
            }
            if contains_str(cand, sets[i][e].as_str()) {
                hit = true;
            }
            e = e + 1;
        }
        if !hit {
            proof {
                assert(sv[i as int].len() == sets@[i as int]@.len());
            }
            return false;
        }
        i = i + 1;
    }
    true
}

/// Whether every element of `f` is in `cand`.
fn covers_exec(f: &Vec<String>, cand: &Vec<String>) -> (r: bool)
    ensures
        r == covers(f.deep_view(), cand.deep_view()),
{
    let mut e: usize = 0;
    while e < f.len()
        invariant
            e <= f@.len(),
            forall|y: int| 0 <= y < e ==> cand.deep_view().contains(#[trigger] f.deep_view()[y]),
        decreases f.len() - e,
    {
        proof {
            assert(f.deep_view()[e as int] == f@[e as int]@);
        }
        if !contains_str(cand, f[e].as_str()) {
            return false;
        }
        e = e + 1;
    }
    true
}

/// The minimal hitting sets of `sets` over `universe`: each subset of
/// the universe, smallest first and each size in lexicographic order of
/// positions, that shares an element with every set and contains no
/// hitting set found before it. None for an empty family.
pub fn minimal_hitting_sets(sets: &Vec<Vec<String>>, universe: &Vec<String>) -> (r: Vec<Vec<String>>)
    ensures
        r.deep_view() == hitting_sets(sets.deep_view(), universe.deep_view()),
{
    let ghost sv = sets.deep_view();
    let ghost uv = universe.deep_view();
    if sets.len() == 0 {
        return Vec::new();
    }
    let n = universe.len();
    let mut found: Vec<Vec<String>> = Vec::new();
    let mut done: usize = 0;
    proof {
        assert(found.deep_view() =~= mhs_from(sv, uv, cands_upto(n as nat, 0)));
    }
    while done < n
        invariant
            done <= n,
            n == universe@.len(),
            sv == sets.deep_view(),
            uv == universe.deep_view(),
            found.deep_view() == mhs_from(sv, uv, cands_upto(n as nat, done as nat)),
        decreases n - done,
    {
        let size = done + 1;
        let cmbs = combinations(n, size);
        let ghost before = cands_upto(n as nat, (size - 1) as nat);
        let ghost cc = combinations_of(n as nat, size as nat);
        let mut j: usize = 0;
        proof {
            assert(before + cc.take(0) =~= before);
        }
        while j < cmbs.len()
            invariant
                j <= cmbs@.len(),
                1 <= size <= n,
                n == universe@.len(),
                sv == sets.deep_view(),
                uv == universe.deep_view(),
                cmbs@.len() == cc.len(),
                cc == combinations_of(n as nat, size as nat),
                forall|x: int| 0 <= x < cmbs@.len() ==> #[trigger] cmbs@[x]@ == cc[x],
                found.deep_view() == mhs_from(sv, uv, before + cc.take(j as int)),
            decreases cmbs.len() - j,
        {
            proof {
                lemma_combos_below(0, n as int, size as nat);
                assert((before + cc.take(j + 1)).drop_last() =~= before + cc.take(j as int));
                assert((before + cc.take(j + 1)).last() == cc[j as int]);
            }
            let ghost cidx = cmbs@[j as int]@;
            let mut cand: Vec<String> = Vec::new();
            let mut t: usize = 0;
            while t < cmbs[j].len()
                invariant
                    j < cmbs@.len(),
                    t <= cmbs@[j as int]@.len(),
                    n == universe@.len(),
                    cidx == cmbs@[j as int]@,
                    forall|y: int| 0 <= y < cidx.len() ==> #[trigger] cidx[y] < n,
                    uv == universe.deep_view(),
                    cand.deep_view() == pick(uv, cidx.take(t as int)),
                decreases cmbs[j as int]@.len() - t,
            {
                let ghost pre = cand.deep_view();
                cand.push(copy_string(&universe[cmbs[j][t]]));
                proof {
                    assert(pick(uv, cidx.take(t + 1)) =~= pick(uv, cidx.take(t as int)).push(uv[cidx[t as int] as int]));
                    assert(cand.deep_view() =~= pre.push(universe@[cidx[t as int] as int]@));
                }
                t = t + 1;
            }
            proof {
                assert(cidx.take(t as int) =~= cidx);
            }
            if hits_all_exec(sets, &cand) {
                let mut minimal = true;
                let mut f: usize = 0;
                while f < found.len()
                    invariant
                        f <= found@.len(),
                        minimal == !(exists|y: int| 0 <= y < f && covers(#[trigger] found.deep_view()[y], cand.deep_view())),
                    decreases found.len() - f,
                {
                    proof {
                        assert(found.deep_view()[f as int] == found@[f as int].deep_view());
                    }
                    if covers_exec(&found[f], &cand) {
                        minimal = false;
                    }
                    f = f + 1;
                }
                if minimal {
                    let ghost pre = found.deep_view();
                    found.push(cand);
                    proof {
                        assert(found.deep_view() =~= pre.push(pick(uv, cidx)));
                    }
                }
            }
            j = j + 1;
        }
        proof {
            assert(cc.take(j as int) =~= cc);
            assert(cands_upto(n as nat, size as nat) == before + cc);
        }
        done = size;
    }
    found
}

/// Every position of a subset from `combos` is below `n`.
proof fn lemma_combos_below(start: int, n: int, k: nat)
    requires
        0 <= start,
        n <= usize::MAX,
    ensures
        forall|i: int, y: int|
            0 <= i < combos(start, n, k).len() && 0 <= y < combos(start, n, k)[i].len() ==> start <= #[trigger] combos(start, n, k)[i][y] < n,
    decreases k, n - start,
{
    if k == 0 {
    } else if start >= n {
    } else {
        lemma_combos_below(start + 1, n, (k - 1) as nat);
        lemma_combos_below(start + 1, n, k);
        let sa = combos(start + 1, n, (k - 1) as nat);
        let sb = combos(start + 1, n, k);
        let ma = sa.map_values(|c: Seq<usize>| seq![start as usize] + c);
        assert forall|i: int, y: int|
            0 <= i < combos(start, n, k).len() && 0 <= y < combos(start, n, k)[i].len() implies start <= #[trigger] combos(start, n, k)[i][y] < n by {
            if i < ma.len() {
                assert(combos(start, n, k)[i] == seq![start as usize] + sa[i]);
                if y > 0 {
                    assert(combos(start, n, k)[i][y] == sa[i][y - 1]);
                } else {
                    assert((seq![start as usize] + sa[i])[0] == start as usize);
                }
            } else {
                assert(combos(start, n, k)[i] == sb[i - ma.len()]);
            }
        }
    }
}

} // verus!
