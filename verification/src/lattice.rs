//! The coherence lattice by MARCO: a Boolean map over one bit per active
//! claim records which subsets are already explained. Each round a model
//! of the map is a seed; a consistent seed is grown to a maximal
//! coherent position (blocking its subsets), an inconsistent one shrunk
//! to a minimal conflict (blocking its supersets). A budget on the
//! number of results stops pathological cases and is reported.
use vstd::prelude::*;
use crate::world::{Core, assume_script, active_ids, concat, lemma_concat_push};
use crate::answers::{first_nonblank_line, bool_model, z3_head, parse_bool_model};
use crate::analysis::{starts_with, starts_with_str, decided};
use crate::argue::{Af, AfView, af_view, framework, argumentation, vv};
use crate::text::{join, lemma_join_push, nat_text, push_nat, copy_string, copy_strings};

verus! {

/// How many minimal conflicts plus correction sets end the enumeration
/// early (reported as not exhaustive).
pub const LAT_BUDGET: usize = 240;

/// The ids at the given positions.
pub open spec fn ids_at(active: Seq<Seq<char>>, idx: Seq<usize>) -> Seq<Seq<char>> {
    idx.map_values(|i: usize| active[i as int])
}

/// Positions `0..n` not in `s`, ascending.
pub open spec fn complement(n: nat, s: Seq<usize>) -> Seq<usize>
    decreases n,
{
    if n == 0 {
        Seq::empty()
    } else if s.contains((n - 1) as usize) {
        complement((n - 1) as nat, s)
    } else {
        complement((n - 1) as nat, s).push((n - 1) as usize)
    }
}

/// Positions `0..n` whose bit is set in `model`, ascending.
pub open spec fn set_bits(model: Seq<bool>, n: nat) -> Seq<usize>
    decreases n,
{
    if n == 0 {
        Seq::empty()
    } else if model[n - 1] {
        set_bits(model, (n - 1) as nat).push((n - 1) as usize)
    } else {
        set_bits(model, (n - 1) as nat)
    }
}

/// `x` placed before the first larger element.
pub open spec fn insert_sorted(s: Seq<usize>, x: usize) -> Seq<usize>
    decreases s.len(),
{
    if s.len() == 0 {
        seq![x]
    } else if s.last() <= x {
        s.push(x)
    } else {
        insert_sorted(s.drop_last(), x).push(s.last())
    }
}

/// `s` in ascending order.
pub open spec fn sort_positions(s: Seq<usize>) -> Seq<usize>
    decreases s.len(),
{
    if s.len() == 0 {
        Seq::empty()
    } else {
        insert_sorted(sort_positions(s.drop_last()), s.last())
    }
}

/// Where the enumeration stands.
pub enum MPhase {
    CheckAll,
    MapQuery,
    CheckSeed { seed: Vec<usize> },
    Grow { keep: Vec<usize>, rest: Vec<usize>, i: usize },
    Shrink { cand: Vec<usize>, i: usize },
    Done,
}

pub enum MPhaseView {
    CheckAll,
    MapQuery,
    CheckSeed { seed: Seq<usize> },
    Grow { keep: Seq<usize>, rest: Seq<usize>, i: int },
    Shrink { cand: Seq<usize>, i: int },
    Done,
}

pub open spec fn mphase_view(p: MPhase) -> MPhaseView {
    match p {
        MPhase::CheckAll => MPhaseView::CheckAll,
        MPhase::MapQuery => MPhaseView::MapQuery,
        MPhase::CheckSeed { seed } => MPhaseView::CheckSeed { seed: seed@ },
        MPhase::Grow { keep, rest, i } => MPhaseView::Grow { keep: keep@, rest: rest@, i: i as int },
        MPhase::Shrink { cand, i } => MPhaseView::Shrink { cand: cand@, i: i as int },
        MPhase::Done => MPhaseView::Done,
    }
}

/// The published result: a verdict (or none when the solver could not
/// decide), whether the budget cut the enumeration short, every minimal
/// conflict, every minimal correction set, every maximal coherent
/// position, the argumentation reading, and whether it is final.
#[derive(Clone, Debug, PartialEq)]
pub struct LatOut {
    pub consistent: bool,
    pub unknown: bool,
    pub capped: bool,
    pub mus: Vec<Vec<String>>,
    pub mcs: Vec<Vec<String>>,
    pub mss: Vec<Vec<String>>,
    pub af: Af,
    pub done: bool,
}

pub struct LatOutView {
    pub consistent: bool,
    pub unknown: bool,
    pub capped: bool,
    pub mus: Seq<Seq<Seq<char>>>,
    pub mcs: Seq<Seq<Seq<char>>>,
    pub mss: Seq<Seq<Seq<char>>>,
    pub af: AfView,
    pub done: bool,
}

pub open spec fn latout_view(o: LatOut) -> LatOutView {
    LatOutView {
        consistent: o.consistent,
        unknown: o.unknown,
        capped: o.capped,
        mus: vv(o.mus@),
        mcs: vv(o.mcs@),
        mss: vv(o.mss@),
        af: af_view(o.af),
        done: o.done,
    }
}

/// The enumeration state machine.
pub struct Lattice {
    /// The active claims; position `k` is map bit `k`.
    pub active: Vec<String>,
    pub capped: bool,
    pub unknown: bool,
    /// Clauses over the bits: `k + 1` is bit `k` set, `-(k + 1)` unset.
    pub map: Vec<Vec<i32>>,
    pub muses: Vec<Vec<usize>>,
    pub mcses: Vec<Vec<usize>>,
    pub phase: MPhase,
    pub out: LatOut,
}

pub struct LatticeView {
    pub active: Seq<Seq<char>>,
    pub capped: bool,
    pub unknown: bool,
    pub map: Seq<Seq<i32>>,
    pub muses: Seq<Seq<usize>>,
    pub mcses: Seq<Seq<usize>>,
    pub phase: MPhaseView,
    pub out: LatOutView,
}

impl View for Lattice {
    type V = LatticeView;

    open spec fn view(&self) -> LatticeView {
        LatticeView {
            active: self.active.deep_view(),
            capped: self.capped,
            unknown: self.unknown,
            map: Seq::new(self.map@.len(), |i: int| self.map@[i]@),
            muses: Seq::new(self.muses@.len(), |i: int| self.muses@[i]@),
            mcses: Seq::new(self.mcses@.len(), |i: int| self.mcses@[i]@),
            phase: mphase_view(self.phase),
            out: latout_view(self.out),
        }
    }
}

/// A minimal conflict found: recorded once (in ascending order), and
/// every superset blocked in the map.
pub open spec fn record_mus(l: LatticeView, mus: Seq<usize>) -> LatticeView {
    let m = sort_positions(mus);
    LatticeView {
        muses: if l.muses.contains(m) {
            l.muses
        } else {
            l.muses.push(m)
        },
        map: l.map.push(m.map_values(|i: usize| -(i + 1) as i32)),
        ..l
    }
}

/// A maximal coherent position found: its complement (a minimal
/// correction set) recorded once when not empty, and every subset
/// blocked in the map.
pub open spec fn record_mss(l: LatticeView, mss: Seq<usize>) -> LatticeView {
    let keep = sort_positions(mss);
    let mcs = complement(l.active.len(), keep);
    LatticeView {
        mcses: if mcs.len() > 0 && !l.mcses.contains(mcs) {
            l.mcses.push(mcs)
        } else {
            l.mcses
        },
        map: l.map.push(mcs.map_values(|i: usize| (i + 1) as i32)),
        ..l
    }
}

/// The result the enumeration publishes when it stops.
pub open spec fn final_out(l: LatticeView) -> LatOutView {
    let n = l.active.len();
    if l.unknown {
        LatOutView {
            consistent: false,
            unknown: true,
            capped: l.capped,
            mus: Seq::empty(),
            mcs: Seq::empty(),
            mss: Seq::empty(),
            af: l.out.af,
            done: true,
        }
    } else if l.muses.len() == 0 {
        LatOutView {
            consistent: true,
            unknown: l.out.unknown,
            capped: l.capped,
            mus: Seq::empty(),
            mcs: Seq::empty(),
            mss: seq![l.active],
            af: framework(Seq::empty(), seq![l.active], l.active),
            done: true,
        }
    } else {
        let mus = l.muses.map_values(|m: Seq<usize>| ids_at(l.active, m));
        let mcs = l.mcses.map_values(|m: Seq<usize>| ids_at(l.active, m));
        let mss = l.mcses.map_values(|m: Seq<usize>| ids_at(l.active, complement(n, m)));
        LatOutView {
            consistent: false,
            unknown: l.out.unknown,
            capped: l.capped,
            mus,
            mcs,
            mss,
            af: framework(mus, mss, l.active),
            done: true,
        }
    }
}

pub open spec fn finalize(l: LatticeView) -> LatticeView {
    LatticeView { out: final_out(l), phase: MPhaseView::Done, ..l }
}

pub open spec fn budget_hit(l: LatticeView) -> bool {
    l.muses.len() + l.mcses.len() >= LAT_BUDGET
}

/// The enumeration state after the solver replied `out`. A reply that is
/// neither `sat` nor `unsat`, in whatever phase, stops the enumeration
/// undecided: it is never read as consistent or as a conflict. The one
/// exception is a map query made once the budget is spent: that reply is
/// not read at all, and the results found so far are published as cut
/// short by the budget.
pub open spec fn lattice_step(l: LatticeView, out: Seq<char>) -> LatticeView {
    let h = first_nonblank_line(out);
    let unsat = starts_with(h, "unsat"@);
    let n = l.active.len();
    if l.phase != MPhaseView::Done && !decided(h) && !(l.phase == MPhaseView::MapQuery && budget_hit(l)) {
        finalize(LatticeView { unknown: true, ..l })
    } else {
        match l.phase {
            MPhaseView::CheckAll => if unsat {
                LatticeView { phase: MPhaseView::MapQuery, ..l }
            } else if starts_with(h, "sat"@) {
                finalize(l)
            } else {
                finalize(LatticeView { unknown: true, ..l })
            },
            MPhaseView::MapQuery => if unsat || budget_hit(l) {
                finalize(LatticeView { capped: budget_hit(l) && !unsat, ..l })
            } else {
                LatticeView { phase: MPhaseView::CheckSeed { seed: set_bits(bool_model(out, n), n) }, ..l }
            },
            MPhaseView::CheckSeed { seed } => if unsat {
                if seed.len() <= 1 {
                    LatticeView { phase: MPhaseView::MapQuery, ..record_mus(l, seed) }
                } else {
                    LatticeView { phase: MPhaseView::Shrink { cand: seed, i: 0 }, ..l }
                }
            } else {
                let rest = complement(n, seed);
                if rest.len() == 0 {
                    LatticeView { phase: MPhaseView::MapQuery, ..record_mss(l, seed) }
                } else {
                    LatticeView { phase: MPhaseView::Grow { keep: seed, rest, i: 0 }, ..l }
                }
            },
            MPhaseView::Grow { keep, rest, i } => {
                let k2 = if !unsat {
                    keep.push(rest[i])
                } else {
                    keep
                };
                if i + 1 < rest.len() {
                    LatticeView { phase: MPhaseView::Grow { keep: k2, rest, i: i + 1 }, ..l }
                } else {
                    LatticeView { phase: MPhaseView::MapQuery, ..record_mss(l, k2) }
                }
            },
            MPhaseView::Shrink { cand, i } => if unsat {
                let c2 = cand.remove(i);
                if i >= c2.len() {
                    LatticeView { phase: MPhaseView::MapQuery, ..record_mus(l, c2) }
                } else {
                    LatticeView { phase: MPhaseView::Shrink { cand: c2, i }, ..l }
                }
            } else if i + 1 >= cand.len() {
                LatticeView { phase: MPhaseView::MapQuery, ..record_mus(l, cand) }
            } else {
                LatticeView { phase: MPhaseView::Shrink { cand, i: i + 1 }, ..l }
            },
            MPhaseView::Done => l,
        }
    }
}

/// All positions below `n`.
pub open spec fn below(s: Seq<usize>, n: nat) -> bool {
    forall|k: int| 0 <= k < s.len() ==> #[trigger] s[k] < n
}

/// The state is one the machine can step from and publish: positions in
/// range, indices within their lists, and few enough claims for the map
/// literals.
pub open spec fn lattice_wf(l: LatticeView) -> bool {
    let n = l.active.len();
    &&& n < 0x7fff_ffff
    &&& forall|k: int| 0 <= k < l.muses.len() ==> below(#[trigger] l.muses[k], n)
    &&& forall|k: int| 0 <= k < l.mcses.len() ==> below(#[trigger] l.mcses[k], n)
    &&& forall|k: int, j: int| 0 <= k < l.map.len() && 0 <= j < l.map[k].len() ==> {
        let x = #[trigger] l.map[k][j];
        x != 0 && -0x7fff_ffff <= x <= 0x7fff_ffff
    }
    &&& match l.phase {
        MPhaseView::CheckSeed { seed } => below(seed, n),
        MPhaseView::Grow { keep, rest, i } => below(keep, n) && below(rest, n) && 0 <= i < rest.len(),
        MPhaseView::Shrink { cand, i } => below(cand, n) && 0 <= i < cand.len(),
        _ => true,
    }
}

/// The text of one map literal.
pub open spec fn literal_text(x: i32) -> Seq<char> {
    if x > 0 {
        "m"@ + nat_text((x - 1) as nat)
    } else {
        "(not m"@ + nat_text((-x - 1) as nat) + ")"@
    }
}

/// `(assert (or l1 l2 .. false))` for one clause.
pub open spec fn clause_text(cl: Seq<i32>) -> Seq<char> {
    "(assert (or "@ + join(cl.map_values(|x: i32| literal_text(x)), " "@) + " false))\n"@
}

/// The exploration-map query: one Boolean per active claim, every
/// clause asserted, and the values of all bits requested.
pub open spec fn map_script(l: LatticeView) -> Seq<char> {
    let n = l.active.len();
    "(set-logic ALL)\n"@ + concat(Seq::new(n, |i: int| "(declare-const m"@ + nat_text(i as nat) + " Bool)\n"@))
        + concat(l.map.map_values(|cl: Seq<i32>| clause_text(cl))) + "(check-sat)\n(get-value ("@
        + join(Seq::new(n, |i: int| "m"@ + nat_text(i as nat)), " "@) + "))\n"@
}

/// The script the enumeration wants answered next, if any.
pub open spec fn lattice_script(l: LatticeView, core: Core) -> Option<Seq<char>> {
    match l.phase {
        MPhaseView::CheckAll => Some(assume_script(core, l.active)),
        MPhaseView::MapQuery => Some(map_script(l)),
        MPhaseView::CheckSeed { seed } => Some(assume_script(core, ids_at(l.active, seed))),
        MPhaseView::Grow { keep, rest, i } => Some(assume_script(core, ids_at(l.active, keep.push(rest[i])))),
        MPhaseView::Shrink { cand, i } => Some(assume_script(core, ids_at(l.active, cand.remove(i)))),
        MPhaseView::Done => None,
    }
}

fn sort_positions_exec(s: &Vec<usize>) -> (r: Vec<usize>)
    ensures
        r@ == sort_positions(s@),
{
    let mut r: Vec<usize> = Vec::new();
    let mut k: usize = 0;
    proof {
        assert(s@.take(0) =~= Seq::<usize>::empty());
    }
    while k < s.len()
        invariant
            k <= s@.len(),
            r@ == sort_positions(s@.take(k as int)),
        decreases s.len() - k,
    {
        proof {
            assert(s@.take(k + 1).drop_last() =~= s@.take(k as int));
        }
        let x = s[k];
        let ghost pre = r@;
        let mut j: usize = r.len();
        proof {
            assert(pre.take(j as int) =~= pre);
            assert(insert_sorted(pre, x) =~= insert_sorted(pre.take(j as int), x) + pre.skip(j as int));
        }
        while j > 0 && r[j - 1] > x
            invariant
                j <= pre.len(),
                r@ == pre,
                insert_sorted(pre, x) == insert_sorted(pre.take(j as int), x) + pre.skip(j as int),
            decreases j,
        {
            proof {
                let t = pre.take(j as int);
                assert(t.drop_last() =~= pre.take(j - 1));
                assert(pre.skip(j - 1) =~= seq![pre[j - 1]] + pre.skip(j as int));
                assert(insert_sorted(pre.take(j - 1), x).push(pre[j - 1]) + pre.skip(j as int) =~= insert_sorted(
                    pre.take(j - 1),
                    x,
                ) + pre.skip(j - 1));
            }
            j = j - 1;
        }
        proof {
            let t = pre.take(j as int);
            if j > 0 {
                assert(t.last() == pre[j - 1]);
            }
            assert(insert_sorted(t, x) =~= t.push(x));
        }
        r.insert(j, x);
        proof {
            assert(r@ =~= pre.take(j as int).push(x) + pre.skip(j as int));
        }
        k = k + 1;
    }
    proof {
        assert(s@.take(k as int) =~= s@);
    }
    r
}

fn complement_exec(n: usize, s: &Vec<usize>) -> (r: Vec<usize>)
    ensures
        r@ == complement(n as nat, s@),
        below(r@, n as nat),
{
    let mut r: Vec<usize> = Vec::new();
    let mut i: usize = 0;
    while i < n
        invariant
            i <= n,
            r@ == complement(i as nat, s@),
            below(r@, i as nat),
        decreases n - i,
    {
        if !contains_pos(s, i) {
            r.push(i);
        }
        i = i + 1;
    }
    r
}

fn contains_pos(s: &Vec<usize>, x: usize) -> (r: bool)
    ensures
        r == s@.contains(x),
{
    let mut k: usize = 0;
    while k < s.len()
        invariant
            k <= s@.len(),
            forall|j: int| 0 <= j < k ==> s@[j] != x,
        decreases s.len() - k,
    {
        if s[k] == x {
            return true;
        }
        k = k + 1;
    }
    false
}

fn contains_list(v: &Vec<Vec<usize>>, x: &Vec<usize>) -> (r: bool)
    ensures
        r == Seq::new(v@.len(), |i: int| v@[i]@).contains(x@),
{
    let ghost vs = Seq::new(v@.len(), |i: int| v@[i]@);
    let mut k: usize = 0;
    while k < v.len()
        invariant
            k <= v@.len(),
            vs == Seq::new(v@.len(), |i: int| v@[i]@),
            forall|j: int| 0 <= j < k ==> vs[j] != x@,
        decreases v.len() - k,
    {
        let e = &v[k];
        let mut same = e.len() == x.len();
        let mut t: usize = 0;
        while same && t < e.len()
            invariant
                same ==> e@.len() == x@.len(),
                t <= e@.len(),
                same ==> forall|u: int| 0 <= u < t ==> e@[u] == x@[u],
                !same ==> (e@.len() != x@.len() || (t < e@.len() && t < x@.len() && e@[t as int] != x@[t as int])),
            decreases e.len() - t + if same { 1int } else { 0int },
        {
            if e[t] != x[t] {
                same = false;
            } else {
                t = t + 1;
            }
        }
        proof {
            assert(vs[k as int] == e@);
            if same {
                assert(e@ =~= x@);
            }
        }
        if same && t == e.len() {
            return true;
        }
        proof {
            if vs[k as int] == x@ {
                assert(e@ == x@);
                if !same {
                    assert(false);
                }
            }
        }
        k = k + 1;
    }
    false
}

impl LatOut {
    /// Nothing decided yet.
    pub fn empty() -> (r: LatOut)
        ensures
            !latout_view(r).consistent,
            !latout_view(r).unknown,
            !latout_view(r).capped,
            latout_view(r).mus.len() == 0,
            latout_view(r).mcs.len() == 0,
            latout_view(r).mss.len() == 0,
            latout_view(r).af.attacks.len() == 0,
            latout_view(r).af.skeptical.len() == 0,
            latout_view(r).af.credulous.len() == 0,
            latout_view(r).af.defeated.len() == 0,
            !latout_view(r).done,
    {
        LatOut {
            consistent: false,
            unknown: false,
            capped: false,
            mus: Vec::new(),
            mcs: Vec::new(),
            mss: Vec::new(),
            af: Af::empty(),
            done: false,
        }
    }
}

impl Lattice {
    /// A fresh enumeration over the core's active claims.
    pub fn new(core: &Core) -> (r: Lattice)
        requires
            active_ids(core.claims@).len() < 0x7fff_ffff,
        ensures
            r@.active == active_ids(core.claims@),
            r@.phase == MPhaseView::CheckAll,
            !r@.capped,
            !r@.unknown,
            r@.map.len() == 0,
            r@.muses.len() == 0,
            r@.mcses.len() == 0,
            !r@.out.done,
            !r@.out.unknown,
            lattice_wf(r@),
    {
        let r = Lattice {
            active: core.active_ids(),
            capped: false,
            unknown: false,
            map: Vec::new(),
            muses: Vec::new(),
            mcses: Vec::new(),
            phase: MPhase::CheckAll,
            out: LatOut::empty(),
        };
        r
    }

    /// The enumeration has finished.
    pub fn done(&self) -> (r: bool)
        ensures
            r == (self@.phase == MPhaseView::Done),
    {
        match self.phase {
            MPhase::Done => true,
            _ => false,
        }
    }

    /// The ids at the given positions.
    pub fn ids(&self, idxs: &Vec<usize>) -> (r: Vec<String>)
        requires
            below(idxs@, self@.active.len()),
        ensures
            r.deep_view() == ids_at(self@.active, idxs@),
    {
        let mut r: Vec<String> = Vec::new();
        let mut k: usize = 0;
        while k < idxs.len()
            invariant
                k <= idxs@.len(),
                below(idxs@, self@.active.len()),
                r@.len() == k,
                forall|j: int| 0 <= j < k ==> #[trigger] r@[j]@ == self@.active[idxs@[j] as int],
            decreases idxs.len() - k,
        {
            r.push(copy_string(&self.active[idxs[k]]));
            k = k + 1;
        }
        proof {
            assert(r.deep_view() =~= ids_at(self@.active, idxs@));
        }
        r
    }

    fn push_literal(s: &mut String, x: i32)
        requires
            x != 0,
            -0x7fff_ffff <= x <= 0x7fff_ffff,
        ensures
            final(s)@ == old(s)@ + literal_text(x),
    {
        if x > 0 {
            s.append("m");
            push_nat(s, (x - 1) as u64);
        } else {
            s.append("(not m");
            push_nat(s, (-x - 1) as u64);
            s.append(")");
        }
    }

    fn push_clause(s: &mut String, cl: &Vec<i32>)
        requires
            forall|j: int| 0 <= j < cl@.len() ==> {
                let x = #[trigger] cl@[j];
                x != 0 && -0x7fff_ffff <= x <= 0x7fff_ffff
            },
        ensures
            final(s)@ == old(s)@ + clause_text(cl@),
    {
        s.append("(assert (or ");
        let ghost start = s@;
        let ghost lits = cl@.map_values(|x: i32| literal_text(x));
        let mut j: usize = 0;
        while j < cl.len()
            invariant
                j <= cl@.len(),
                lits == cl@.map_values(|x: i32| literal_text(x)),
                forall|j: int| 0 <= j < cl@.len() ==> {
                    let x = #[trigger] cl@[j];
                    x != 0 && -0x7fff_ffff <= x <= 0x7fff_ffff
                },
                s@ == start + join(lits.take(j as int), " "@),
            decreases cl.len() - j,
        {
            proof {
                lemma_join_push(lits.take(j as int), " "@, lits[j as int]);
                assert(lits.take(j as int).push(lits[j as int]) =~= lits.take(j + 1));
            }
            if j > 0 {
                s.append(" ");
            }
            Self::push_literal(s, cl[j]);
            j = j + 1;
        }
        assert(lits.take(j as int) =~= lits);
        s.append(" false))\n");
    }

    /// The exploration-map query.
    pub fn map_script(&self) -> (r: String)
        requires
            lattice_wf(self@),
        ensures
            r@ == map_script(self@),
    {
        let n = self.active.len();
        let mut s = String::new();
        s.append("(set-logic ALL)\n");
        let ghost a = s@;
        let ghost decls = Seq::new(n as nat, |i: int| "(declare-const m"@ + nat_text(i as nat) + " Bool)\n"@);
        let mut i: usize = 0;
        while i < n
            invariant
                i <= n,
                decls == Seq::new(n as nat, |i: int| "(declare-const m"@ + nat_text(i as nat) + " Bool)\n"@),
                s@ == a + concat(decls.take(i as int)),
            decreases n - i,
        {
            proof {
                lemma_concat_push(decls.take(i as int), decls[i as int]);
                assert(decls.take(i as int).push(decls[i as int]) =~= decls.take(i + 1));
            }
            s.append("(declare-const m");
            push_nat(&mut s, i as u64);
            s.append(" Bool)\n");
            i = i + 1;
        }
        assert(decls.take(i as int) =~= decls);
        let ghost b = s@;
        let ghost mv = Seq::new(self.map@.len(), |i: int| self.map@[i]@);
        let ghost cls = mv.map_values(|cl: Seq<i32>| clause_text(cl));
        let mut k: usize = 0;
        while k < self.map.len()
            invariant
                k <= self.map@.len(),
                lattice_wf(self@),
                mv == Seq::new(self.map@.len(), |i: int| self.map@[i]@),
                cls == mv.map_values(|cl: Seq<i32>| clause_text(cl)),
                s@ == b + concat(cls.take(k as int)),
            decreases self.map.len() - k,
        {
            proof {
                lemma_concat_push(cls.take(k as int), cls[k as int]);
                assert(cls.take(k as int).push(cls[k as int]) =~= cls.take(k + 1));
                assert(mv[k as int] == self.map@[k as int]@);
                assert forall|j: int| 0 <= j < self.map@[k as int]@.len() implies {
                    let x = #[trigger] self.map@[k as int]@[j];
                    x != 0 && -0x7fff_ffff <= x <= 0x7fff_ffff
                } by {
                    assert(self@.map[k as int][j] == self.map@[k as int]@[j]);
                }
            }
            Self::push_clause(&mut s, &self.map[k]);
            k = k + 1;
        }
        assert(cls.take(k as int) =~= cls);
        s.append("(check-sat)\n(get-value (");
        let ghost c = s@;
        let ghost names = Seq::new(n as nat, |i: int| "m"@ + nat_text(i as nat));
        let mut i: usize = 0;
        while i < n
            invariant
                i <= n,
                names == Seq::new(n as nat, |i: int| "m"@ + nat_text(i as nat)),
                s@ == c + join(names.take(i as int), " "@),
            decreases n - i,
        {
            proof {
                lemma_join_push(names.take(i as int), " "@, names[i as int]);
                assert(names.take(i as int).push(names[i as int]) =~= names.take(i + 1));
            }
            if i > 0 {
                s.append(" ");
            }
            s.append("m");
            push_nat(&mut s, i as u64);
            i = i + 1;
        }
        assert(names.take(i as int) =~= names);
        s.append("))\n");
        s
    }
}

pub proof fn lemma_sort_positions_below(s: Seq<usize>, n: nat)
    requires
        below(s, n),
    ensures
        below(sort_positions(s), n),
        sort_positions(s).len() == s.len(),
    decreases s.len(),
{
    if s.len() > 0 {
        lemma_sort_positions_below(s.drop_last(), n);
        lemma_insert_sorted_below(sort_positions(s.drop_last()), s.last(), n);
    }
}

pub proof fn lemma_insert_sorted_below(s: Seq<usize>, x: usize, n: nat)
    requires
        below(s, n),
        x < n,
    ensures
        below(insert_sorted(s, x), n),
        insert_sorted(s, x).len() == s.len() + 1,
    decreases s.len(),
{
    if s.len() > 0 {
        lemma_insert_sorted_below(s.drop_last(), x, n);
    }
}

impl Lattice {
    /// The next script to hand the solver, or `None` when finished.
    pub fn next_script(&self, core: &Core) -> (r: Option<String>)
        requires
            core.wf(),
            lattice_wf(self@),
        ensures
            match r {
                Some(s) => lattice_script(self@, *core) == Some(s@),
                None => lattice_script(self@, *core) is None,
            },
    {
        match &self.phase {
            MPhase::CheckAll => Some(core.smt_assume(&self.active)),
            MPhase::MapQuery => Some(self.map_script()),
            MPhase::CheckSeed { seed } => {
                let ids = self.ids(seed);
                Some(core.smt_assume(&ids))
            },
            MPhase::Grow { keep, rest, i } => {
                let mut t: Vec<usize> = Vec::new();
                let mut k: usize = 0;
                while k < keep.len()
                    invariant
                        k <= keep@.len(),
                        t@ == keep@.take(k as int),
                    decreases keep.len() - k,
                {
                    t.push(keep[k]);
                    proof {
                        assert(t@ =~= keep@.take(k + 1));
                    }
                    k = k + 1;
                }
                assert(t@ =~= keep@);
                t.push(rest[*i]);
                proof {
                    assert(below(t@, self@.active.len()));
                }
                let ids = self.ids(&t);
                Some(core.smt_assume(&ids))
            },
            MPhase::Shrink { cand, i } => {
                let mut t: Vec<usize> = Vec::new();
                let mut k: usize = 0;
                while k < cand.len()
                    invariant
                        k <= cand@.len(),
                        t@ == cand@.take(k as int),
                    decreases cand.len() - k,
                {
                    t.push(cand[k]);
                    proof {
                        assert(t@ =~= cand@.take(k + 1));
                    }
                    k = k + 1;
                }
                assert(t@ =~= cand@);
                t.remove(*i);
                proof {
                    assert(below(t@, self@.active.len()));
                }
                let ids = self.ids(&t);
                Some(core.smt_assume(&ids))
            },
            MPhase::Done => None,
        }
    }

    fn budget_hit(&self) -> (r: bool)
        ensures
            r == budget_hit(self@),
    {
        self.muses.len() >= LAT_BUDGET || self.mcses.len() >= LAT_BUDGET - self.muses.len()
    }

    fn record_mus(&mut self, mus: Vec<usize>)
        requires
            lattice_wf(old(self)@),
            below(mus@, old(self)@.active.len()),
        ensures
            final(self)@ == record_mus(old(self)@, mus@),
            lattice_wf(final(self)@),
    {
        let ghost l0 = self@;
        let m = sort_positions_exec(&mus);
        proof {
            lemma_sort_positions_below(mus@, l0.active.len());
        }
        if !contains_list(&self.muses, &m) {
            let ghost pre = self.muses@;
            let mm = copy_positions(&m);
            self.muses.push(mm);
            proof {
                assert(Seq::new(self.muses@.len(), |i: int| self.muses@[i]@) =~= l0.muses.push(m@));
            }
        }
        let mut cl: Vec<i32> = Vec::new();
        let mut k: usize = 0;
        while k < m.len()
            invariant
                k <= m@.len(),
                below(m@, l0.active.len()),
                l0.active.len() < 0x7fff_ffff,
                cl@ == m@.take(k as int).map_values(|i: usize| -(i + 1) as i32),
            decreases m.len() - k,
        {
            let v: i32 = -((m[k] as i32) + 1);
            cl.push(v);
            proof {
                assert(cl@ =~= m@.take(k + 1).map_values(|i: usize| -(i + 1) as i32));
            }
            k = k + 1;
        }
        proof {
            assert(m@.take(k as int) =~= m@);
        }
        let ghost pm = Seq::new(self.map@.len(), |i: int| self.map@[i]@);
        self.map.push(cl);
        proof {
            assert(Seq::new(self.map@.len(), |i: int| self.map@[i]@) =~= pm.push(m@.map_values(|i: usize| -(i + 1) as i32)));
        }
    }

    fn record_mss(&mut self, mss: Vec<usize>)
        requires
            lattice_wf(old(self)@),
            below(mss@, old(self)@.active.len()),
        ensures
            final(self)@ == record_mss(old(self)@, mss@),
            lattice_wf(final(self)@),
    {
        let ghost l0 = self@;
        let keep = sort_positions_exec(&mss);
        let mcs = complement_exec(self.active.len(), &keep);
        if mcs.len() > 0 && !contains_list(&self.mcses, &mcs) {
            let mm = copy_positions(&mcs);
            self.mcses.push(mm);
            proof {
                assert(Seq::new(self.mcses@.len(), |i: int| self.mcses@[i]@) =~= l0.mcses.push(mcs@));
            }
        }
        let mut cl: Vec<i32> = Vec::new();
        let mut k: usize = 0;
        while k < mcs.len()
            invariant
                k <= mcs@.len(),
                below(mcs@, l0.active.len()),
                l0.active.len() < 0x7fff_ffff,
                cl@ == mcs@.take(k as int).map_values(|i: usize| (i + 1) as i32),
            decreases mcs.len() - k,
        {
            let v: i32 = (mcs[k] as i32) + 1;
            cl.push(v);
            proof {
                assert(cl@ =~= mcs@.take(k + 1).map_values(|i: usize| (i + 1) as i32));
            }
            k = k + 1;
        }
        proof {
            assert(mcs@.take(k as int) =~= mcs@);
        }
        let ghost pm = Seq::new(self.map@.len(), |i: int| self.map@[i]@);
        self.map.push(cl);
        proof {
            assert(Seq::new(self.map@.len(), |i: int| self.map@[i]@) =~= pm.push(mcs@.map_values(|i: usize| (i + 1) as i32)));
        }
    }
}

fn copy_positions(v: &Vec<usize>) -> (r: Vec<usize>)
    ensures
        r@ == v@,
{
    let mut r: Vec<usize> = Vec::new();
    let mut k: usize = 0;
    while k < v.len()
        invariant
            k <= v@.len(),
            r@ == v@.take(k as int),
        decreases v.len() - k,
    {
        r.push(v[k]);
        proof {
            assert(r@ =~= v@.take(k + 1));
        }
        k = k + 1;
    }
    assert(r@ =~= v@);
    r
}

impl Lattice {
    fn finalize(&mut self)
        requires
            lattice_wf(old(self)@),
        ensures
            final(self)@ == finalize(old(self)@),
            lattice_wf(final(self)@),
    {
        let ghost l0 = self@;
        let n = self.active.len();
        if self.unknown {
            self.out.consistent = false;
            self.out.unknown = true;
            self.out.mus = Vec::new();
            self.out.mcs = Vec::new();
            self.out.mss = Vec::new();
            proof {
                assert(vv(self.out.mus@) =~= Seq::<Seq<Seq<char>>>::empty());
                assert(vv(self.out.mcs@) =~= Seq::<Seq<Seq<char>>>::empty());
                assert(vv(self.out.mss@) =~= Seq::<Seq<Seq<char>>>::empty());
            }
        } else if self.muses.len() == 0 {
            self.out.consistent = true;
            self.out.mus = Vec::new();
            self.out.mcs = Vec::new();
            let mut mss: Vec<Vec<String>> = Vec::new();
            mss.push(copy_strings(&self.active));
            let none: Vec<Vec<String>> = Vec::new();
            let af = argumentation(&none, &mss, &self.active);
            proof {
                assert(vv(mss@) =~= seq![l0.active]);
                assert(vv(none@) =~= Seq::<Seq<Seq<char>>>::empty());
            }
            self.out.mss = mss;
            self.out.af = af;
            proof {
                assert(vv(self.out.mus@) =~= Seq::<Seq<Seq<char>>>::empty());
                assert(vv(self.out.mcs@) =~= Seq::<Seq<Seq<char>>>::empty());
            }
        } else {
            let mut mus: Vec<Vec<String>> = Vec::new();
            let mut k: usize = 0;
            while k < self.muses.len()
                invariant
                    k <= self.muses@.len(),
                    self@ == l0,
                    lattice_wf(l0),
                    n == l0.active.len(),
                    mus@.len() == k,
                    forall|j: int| 0 <= j < k ==> #[trigger] mus@[j].deep_view() == ids_at(l0.active, l0.muses[j]),
                decreases self.muses.len() - k,
            {
                proof {
                    assert(l0.muses[k as int] == self.muses@[k as int]@);
                    assert(below(l0.muses[k as int], n as nat));
                }
                mus.push(self.ids(&self.muses[k]));
                k = k + 1;
            }
            let mut mcs: Vec<Vec<String>> = Vec::new();
            let mut mss: Vec<Vec<String>> = Vec::new();
            let mut k: usize = 0;
            while k < self.mcses.len()
                invariant
                    k <= self.mcses@.len(),
                    self@ == l0,
                    lattice_wf(l0),
                    n == l0.active.len(),
                    mcs@.len() == k,
                    mss@.len() == k,
                    forall|j: int| 0 <= j < k ==> #[trigger] mcs@[j].deep_view() == ids_at(l0.active, l0.mcses[j]),
                    forall|j: int| 0 <= j < k ==> #[trigger] mss@[j].deep_view() == ids_at(l0.active, complement(n as nat, l0.mcses[j])),
                decreases self.mcses.len() - k,
            {
                proof {
                    assert(l0.mcses[k as int] == self.mcses@[k as int]@);
                    assert(below(l0.mcses[k as int], n as nat));
                }
                mcs.push(self.ids(&self.mcses[k]));
                let comp = complement_exec(n, &self.mcses[k]);
                mss.push(self.ids(&comp));
                k = k + 1;
            }
            let af = argumentation(&mus, &mss, &self.active);
            proof {
                assert(vv(mus@) =~= l0.muses.map_values(|m: Seq<usize>| ids_at(l0.active, m)));
                assert(vv(mcs@) =~= l0.mcses.map_values(|m: Seq<usize>| ids_at(l0.active, m)));
                assert(vv(mss@) =~= l0.mcses.map_values(|m: Seq<usize>| ids_at(l0.active, complement(n as nat, m))));
            }
            self.out.consistent = false;
            self.out.mus = mus;
            self.out.mcs = mcs;
            self.out.mss = mss;
            self.out.af = af;
        }
        self.out.capped = self.capped;
        self.out.done = true;
        self.phase = MPhase::Done;
    }

    /// Takes the solver's answer to the current script and moves on.
    pub fn feed(&mut self, out: &str)
        requires
            lattice_wf(old(self)@),
        ensures
            final(self)@ == lattice_step(old(self)@, out@),
            lattice_wf(final(self)@),
    {
        let ghost l0 = self@;
        let h = z3_head(out);
        let unsat = starts_with_str(&h, "unsat");
        let n = self.active.len();
        let mut ph = MPhase::Done;
        std::mem::swap(&mut ph, &mut self.phase);
        proof {
            assert(mphase_view(ph) == l0.phase);
        }
        let decided = unsat || starts_with_str(&h, "sat");
        let finished = match ph {
            MPhase::Done => true,
            _ => false,
        };
        let capping = match ph {
            MPhase::MapQuery => self.budget_hit(),
            _ => false,
        };
        if !finished && !decided && !capping {
            self.unknown = true;
            self.finalize();
            return;
        }
        match ph {
            MPhase::CheckAll => {
                if unsat {
                    self.phase = MPhase::MapQuery;
                } else if starts_with_str(&h, "sat") {
                    self.phase = MPhase::CheckAll;
                    self.finalize();
                } else {
                    self.phase = MPhase::CheckAll;
                    self.unknown = true;
                    self.finalize();
                }
            },
            MPhase::MapQuery => {
                self.phase = MPhase::MapQuery;
                let hit = self.budget_hit();
                if unsat || hit {
                    self.capped = hit && !unsat;
                    self.finalize();
                } else {
                    let model = parse_bool_model(out, n);
                    proof {
                        let ws = crate::answers::words(crate::answers::unparen(out@));
                        crate::answers::lemma_model_len(ws, n as nat, if ws.len() >= 1 { ws.len() - 1 } else { 0 });
                    }
                    let mut seed: Vec<usize> = Vec::new();
                    let mut i: usize = 0;
                    while i < n
                        invariant
                            i <= n,
                            model@ == bool_model(out@, n as nat),
                            model@.len() == n,
                            seed@ == set_bits(model@, i as nat),
                            below(seed@, i as nat),
                        decreases n - i,
                    {
                        if model[i] {
                            seed.push(i);
                        }
                        i = i + 1;
                    }
                    self.phase = MPhase::CheckSeed { seed };
                }
            },
            MPhase::CheckSeed { seed } => {
                if unsat {
                    if seed.len() <= 1 {
                        self.phase = MPhase::MapQuery;
                        self.record_mus(seed);
                    } else {
                        self.phase = MPhase::Shrink { cand: seed, i: 0 };
                    }
                } else {
                    let rest = complement_exec(n, &seed);
                    if rest.len() == 0 {
                        self.phase = MPhase::MapQuery;
                        self.record_mss(seed);
                    } else {
                        self.phase = MPhase::Grow { keep: seed, rest, i: 0 };
                    }
                }
            },
            MPhase::Grow { mut keep, rest, i } => {
                let rl = rest.len();
                proof {
                    assert(i < rl);
                }
                if !unsat {
                    keep.push(rest[i]);
                }
                let ni = i + 1;
                if ni < rest.len() {
                    self.phase = MPhase::Grow { keep, rest, i: ni };
                } else {
                    self.phase = MPhase::MapQuery;
                    self.record_mss(keep);
                }
            },
            MPhase::Shrink { mut cand, i } => {
                let cl = cand.len();
                proof {
                    assert(i < cl);
                }
                if unsat {
                    cand.remove(i);
                    if i >= cand.len() {
                        self.phase = MPhase::MapQuery;
                        self.record_mus(cand);
                    } else {
                        self.phase = MPhase::Shrink { cand, i };
                    }
                } else {
                    let ni = i + 1;
                    if ni >= cand.len() {
                        self.phase = MPhase::MapQuery;
                        self.record_mus(cand);
                    } else {
                        self.phase = MPhase::Shrink { cand, i: ni };
                    }
                }
            },
            MPhase::Done => {
                self.phase = MPhase::Done;
            },
        }
    }
}

} // verus!
