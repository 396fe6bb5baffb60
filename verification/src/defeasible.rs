//! Defeasible reasoning: defaults may be overridden. Specificity between
//! two rules `∀x. P(x) ⇒ …` is derived from the strict claims (is `P`
//! forced by `Q` for a fresh constant?), defaults are ranked more
//! specific first, then more entrenched, then by id, and each is kept
//! only while it stays consistent with the strict claims and the
//! defaults kept before it. Strict claims that conflict among
//! themselves are reported as inconsistent, never rescued.
use vstd::prelude::*;
use crate::ir::{Term, Formula, Claim};
use crate::world::{Core, assume_script, more_specific_script, actives};
use crate::symtab::SortedMap;
use crate::answers::{first_nonblank_line, z3_head};
use crate::analysis::{starts_with, starts_with_str, weight_of, decided};
use crate::text::{copy_string, copy_strings, str_eq, str_lt, chars_lt, contains_str};

verus! {

/// The predicate and sort of a rule `∀x:S. P(x) ⇒ …` (one variable, a
/// unary predicate of exactly that variable as antecedent).
pub open spec fn antecedent(f: Formula) -> Option<(Seq<char>, Seq<char>)> {
    match f {
        Formula::Forall { vars, body } => if vars@.len() == 1 {
            match *body {
                Formula::Imp { a, b } => match *a {
                    Formula::Pred { name, args } => if args@.len() == 1 {
                        match args@[0] {
                            Term::Var { name: vn } => if vn@ == vars@[0].name@ {
                                Some((name@, vars@[0].sort@))
                            } else {
                                None
                            },
                            _ => None,
                        }
                    } else {
                        None
                    },
                    _ => None,
                },
                _ => None,
            }
        } else {
            None
        },
        _ => None,
    }
}

/// The antecedent of a rule shaped `∀x:S. P(x) ⇒ …`: `(P, S)`.
pub fn antecedent_pred(f: &Formula) -> (r: Option<(String, String)>)
    ensures
        match r {
            Some(p) => antecedent(*f) == Some((p.0@, p.1@)),
            None => antecedent(*f) is None,
        },
{
    if let Formula::Forall { vars, body } = f {
        if vars.len() == 1 {
            if let Formula::Imp { a, .. } = &**body {
                if let Formula::Pred { name, args } = &**a {
                    if args.len() == 1 {
                        if let Term::Var { name: vn } = &args[0] {
                            if str_eq(vn.as_str(), vars[0].name.as_str()) {
                                return Some((copy_string(name), copy_string(&vars[0].sort)));
                            }
                        }
                    }
                }
            }
        }
    }
    None
}

/// Ids of the active claims of one kind (defeasible or strict).
pub open spec fn ids_of_kind(cs: Seq<Claim>, defeasible: bool) -> Seq<Seq<char>>
    decreases cs.len(),
{
    if cs.len() == 0 {
        Seq::empty()
    } else {
        let r = ids_of_kind(cs.drop_last(), defeasible);
        let c = cs.last();
        if c.active && c.defeasible == defeasible {
            r.push(c.id@)
        } else {
            r
        }
    }
}

/// The antecedents of the active defaults, by id (a later claim with the
/// same id wins).
pub open spec fn antecedents(cs: Seq<Claim>) -> Map<Seq<char>, (Seq<char>, Seq<char>)>
    decreases cs.len(),
{
    if cs.len() == 0 {
        Map::empty()
    } else {
        let m = antecedents(cs.drop_last());
        let c = cs.last();
        if c.active && c.defeasible && antecedent(c.formula) is Some {
            m.insert(c.id@, antecedent(c.formula)->Some_0)
        } else {
            m
        }
    }
}

/// Ordered pairs `(a, b)` of distinct default positions below `na`
/// (resp. `(a, b)` with `b` below `nb`) that both have an antecedent.
pub open spec fn pair_row(defs: Seq<Seq<char>>, ant: Map<Seq<char>, (Seq<char>, Seq<char>)>, a: int, nb: int) -> Seq<(usize, usize)>
    decreases nb,
{
    if nb <= 0 {
        Seq::empty()
    } else {
        let r = pair_row(defs, ant, a, nb - 1);
        let b = nb - 1;
        if a != b && ant.contains_key(defs[a]) && ant.contains_key(defs[b]) {
            r.push((a as usize, b as usize))
        } else {
            r
        }
    }
}

pub open spec fn pairs_upto(defs: Seq<Seq<char>>, ant: Map<Seq<char>, (Seq<char>, Seq<char>)>, na: int) -> Seq<(usize, usize)>
    decreases na,
{
    if na <= 0 {
        Seq::empty()
    } else {
        pairs_upto(defs, ant, na - 1) + pair_row(defs, ant, na - 1, defs.len() as int)
    }
}

/// Every ordered pair of distinct defaults that both have an
/// antecedent, by position.
pub open spec fn specificity_pairs(defs: Seq<Seq<char>>, ant: Map<Seq<char>, (Seq<char>, Seq<char>)>) -> Seq<(usize, usize)> {
    pairs_upto(defs, ant, defs.len() as int)
}

/// How many specificity edges name `id` as the more specific rule.
pub open spec fn depth(spec: Seq<(Seq<char>, Seq<char>)>, id: Seq<char>) -> int
    decreases spec.len(),
{
    if spec.len() == 0 {
        0
    } else {
        depth(spec.drop_last(), id) + if spec.last().0 == id {
            1int
        } else {
            0int
        }
    }
}

/// `x` ranks strictly before `y`: more specific, else more entrenched,
/// else smaller id.
pub open spec fn ranks_before(spec: Seq<(Seq<char>, Seq<char>)>, cs: Seq<Claim>, x: Seq<char>, y: Seq<char>) -> bool {
    depth(spec, x) > depth(spec, y) || (depth(spec, x) == depth(spec, y) && (weight_of(cs, x) > weight_of(
        cs,
        y,
    ) || (weight_of(cs, x) == weight_of(cs, y) && chars_lt(x, y))))
}

pub open spec fn rank_insert(spec: Seq<(Seq<char>, Seq<char>)>, cs: Seq<Claim>, s: Seq<Seq<char>>, x: Seq<char>) -> Seq<Seq<char>>
    decreases s.len(),
{
    if s.len() == 0 {
        seq![x]
    } else if !ranks_before(spec, cs, x, s.last()) {
        s.push(x)
    } else {
        rank_insert(spec, cs, s.drop_last(), x).push(s.last())
    }
}

/// The defaults in rank order (a stable sort).
pub open spec fn ranked(spec: Seq<(Seq<char>, Seq<char>)>, cs: Seq<Claim>, defs: Seq<Seq<char>>) -> Seq<Seq<char>>
    decreases defs.len(),
{
    if defs.len() == 0 {
        Seq::empty()
    } else {
        rank_insert(spec, cs, ranked(spec, cs, defs.drop_last()), defs.last())
    }
}

pub enum DPhase {
    Strict,
    Spec { pairs: Vec<(usize, usize)>, i: usize },
    Brewka { order: Vec<String>, i: usize },
    Done,
}

pub enum DPhaseView {
    Strict,
    Spec { pairs: Seq<(usize, usize)>, i: int },
    Brewka { order: Seq<Seq<char>>, i: int },
    Done,
}

pub open spec fn dphase_view(p: DPhase) -> DPhaseView {
    match p {
        DPhase::Strict => DPhaseView::Strict,
        DPhase::Spec { pairs, i } => DPhaseView::Spec { pairs: pairs@, i: i as int },
        DPhase::Brewka { order, i } => DPhaseView::Brewka { order: order.deep_view(), i: i as int },
        DPhase::Done => DPhaseView::Done,
    }
}

/// The defeasible reading of the active claims.
pub struct DefeasibleDriver {
    pub strict: Vec<String>,
    pub defs: Vec<String>,
    pub ant: SortedMap<(String, String)>,
    /// `(more specific, less specific)` rule ids, as derived.
    pub spec: Vec<(String, String)>,
    pub accepted: Vec<String>,
    pub overridden: Vec<String>,
    pub phase: DPhase,
    /// `coherent`, `defeasibly-coherent` or `inconsistent` once decided.
    pub status: String,
}

pub struct DefeasibleView {
    pub strict: Seq<Seq<char>>,
    pub defs: Seq<Seq<char>>,
    pub ant: Map<Seq<char>, (Seq<char>, Seq<char>)>,
    pub spec: Seq<(Seq<char>, Seq<char>)>,
    pub accepted: Seq<Seq<char>>,
    pub overridden: Seq<Seq<char>>,
    pub phase: DPhaseView,
    pub status: Seq<char>,
}

pub open spec fn pair_view(p: (String, String)) -> (Seq<char>, Seq<char>) {
    (p.0@, p.1@)
}

impl View for DefeasibleDriver {
    type V = DefeasibleView;

    open spec fn view(&self) -> DefeasibleView {
        DefeasibleView {
            strict: self.strict.deep_view(),
            defs: self.defs.deep_view(),
            ant: self.ant.table().map_values(|p: (String, String)| pair_view(p)),
            spec: self.spec@.map_values(|p: (String, String)| pair_view(p)),
            accepted: self.accepted.deep_view(),
            overridden: self.overridden.deep_view(),
            phase: dphase_view(self.phase),
            status: self.status@,
        }
    }
}

/// The defeasible reading after the solver answered `out`. An undecided
/// answer at any point (neither `sat` nor `unsat`) stops the reading as
/// `unknown`: it is never taken as coherent or as a conflict.
pub open spec fn defeasible_step(d: DefeasibleView, cs: Seq<Claim>, out: Seq<char>) -> DefeasibleView {
    let h = first_nonblank_line(out);
    if d.phase != DPhaseView::Done && !decided(h) {
        DefeasibleView { status: "unknown"@, phase: DPhaseView::Done, ..d }
    } else {
        match d.phase {
            DPhaseView::Strict => if starts_with(h, "unsat"@) {
                DefeasibleView { status: "inconsistent"@, phase: DPhaseView::Done, ..d }
            } else if d.defs.len() == 0 {
                DefeasibleView { status: "coherent"@, accepted: d.strict, phase: DPhaseView::Done, ..d }
            } else {
                let pairs = specificity_pairs(d.defs, d.ant);
                if pairs.len() == 0 {
                    DefeasibleView { phase: DPhaseView::Brewka { order: ranked(d.spec, cs, d.defs), i: 0 }, ..d }
                } else {
                    DefeasibleView { phase: DPhaseView::Spec { pairs, i: 0 }, ..d }
                }
            },
            DPhaseView::Spec { pairs, i } => {
                let spec = if starts_with(h, "unsat"@) {
                    d.spec.push((d.defs[pairs[i].0 as int], d.defs[pairs[i].1 as int]))
                } else {
                    d.spec
                };
                if i + 1 < pairs.len() {
                    DefeasibleView { spec, phase: DPhaseView::Spec { pairs, i: i + 1 }, ..d }
                } else {
                    DefeasibleView { spec, phase: DPhaseView::Brewka { order: ranked(spec, cs, d.defs), i: 0 }, ..d }
                }
            },
            DPhaseView::Brewka { order, i } => {
                let sat = starts_with(h, "sat"@);
                let acc = if sat {
                    d.accepted.push(order[i])
                } else {
                    d.accepted
                };
                let ov = if sat {
                    d.overridden
                } else {
                    d.overridden.push(order[i])
                };
                if i + 1 < order.len() {
                    DefeasibleView { accepted: acc, overridden: ov, phase: DPhaseView::Brewka { order, i: i + 1 }, ..d }
                } else {
                    DefeasibleView {
                        accepted: d.strict + acc,
                        overridden: ov,
                        status: if ov.len() == 0 {
                            "coherent"@
                        } else {
                            "defeasibly-coherent"@
                        },
                        phase: DPhaseView::Done,
                        ..d
                    }
                }
            },
            DPhaseView::Done => d,
        }
    }
}

pub open spec fn defeasible_wf(d: DefeasibleView) -> bool {
    match d.phase {
        DPhaseView::Spec { pairs, i } => 0 <= i < pairs.len() && forall|k: int|
            0 <= k < pairs.len() ==> {
                let p = #[trigger] pairs[k];
                &&& p.0 < d.defs.len()
                &&& p.1 < d.defs.len()
                &&& d.ant.contains_key(d.defs[p.0 as int])
                &&& d.ant.contains_key(d.defs[p.1 as int])
            },
        DPhaseView::Brewka { order, i } => 0 <= i < order.len(),
        _ => true,
    }
}

/// The script the defeasible reading wants answered next, if any.
pub open spec fn defeasible_script(d: DefeasibleView, core: Core) -> Option<Seq<char>> {
    match d.phase {
        DPhaseView::Strict => Some(assume_script(core, d.strict)),
        DPhaseView::Spec { pairs, i } => {
            let (pa, s) = d.ant[d.defs[pairs[i].0 as int]];
            let (pb, t) = d.ant[d.defs[pairs[i].1 as int]];
            Some(more_specific_script(core, pa, pb, s))
        },
        DPhaseView::Brewka { order, i } => Some(assume_script(core, d.strict + d.accepted + seq![order[i]])),
        DPhaseView::Done => None,
    }
}

/// The claims that beat an overridden default: its more specific
/// accepted rivals, or else the whole accepted position.
pub open spec fn beaten_by(d: DefeasibleView, o: Seq<char>) -> Seq<Seq<char>> {
    let by = rivals(d.spec, d.accepted, o);
    if by.len() == 0 {
        d.accepted
    } else {
        by
    }
}

/// The more specific sides of edges whose less specific side is `o` and
/// whose more specific side was accepted.
pub open spec fn rivals(spec: Seq<(Seq<char>, Seq<char>)>, accepted: Seq<Seq<char>>, o: Seq<char>) -> Seq<Seq<char>>
    decreases spec.len(),
{
    if spec.len() == 0 {
        Seq::empty()
    } else {
        let r = rivals(spec.drop_last(), accepted, o);
        let e = spec.last();
        if e.1 == o && accepted.contains(e.0) {
            r.push(e.0)
        } else {
            r
        }
    }
}

fn depth_exec(spec: &Vec<(String, String)>, id: &String) -> (r: usize)
    ensures
        r == depth(spec@.map_values(|p: (String, String)| pair_view(p)), id@),
{
    let ghost sv = spec@.map_values(|p: (String, String)| pair_view(p));
    let mut c: usize = 0;
    let mut k: usize = 0;
    proof {
        assert(sv.take(0) =~= Seq::<(Seq<char>, Seq<char>)>::empty());
    }
    while k < spec.len()
        invariant
            k <= spec@.len(),
            sv == spec@.map_values(|p: (String, String)| pair_view(p)),
            c == depth(sv.take(k as int), id@),
            0 <= c <= k,
        decreases spec.len() - k,
    {
        proof {
            assert(sv.take(k + 1).drop_last() =~= sv.take(k as int));
            assert(sv.take(k + 1).last() == pair_view(spec@[k as int]));
        }
        if str_eq(spec[k].0.as_str(), id.as_str()) {
            c = c + 1;
        }
        k = k + 1;
    }
    proof {
        assert(sv.take(k as int) =~= sv);
    }
    c
}

impl DefeasibleDriver {
    /// The defeasible reading of the core's active claims: defaults and
    /// strict claims apart, each default's antecedent noted.
    pub fn new(core: &Core) -> (r: DefeasibleDriver)
        ensures
            r@.strict == ids_of_kind(core.claims@, false),
            r@.defs == ids_of_kind(core.claims@, true),
            r@.ant == antecedents(core.claims@),
            r@.spec.len() == 0,
            r@.accepted.len() == 0,
            r@.overridden.len() == 0,
            r@.phase == DPhaseView::Strict,
            r@.status.len() == 0,
            r.ant.wf(),
    {
        let mut strict: Vec<String> = Vec::new();
        let mut defs: Vec<String> = Vec::new();
        let mut ant: SortedMap<(String, String)> = SortedMap::new();
        let mut i: usize = 0;
        let ghost cs = core.claims@;
        proof {
            assert(cs.take(0) =~= Seq::<Claim>::empty());
            assert(ant.table().map_values(|p: (String, String)| pair_view(p)) =~= Map::<Seq<char>, (Seq<char>, Seq<char>)>::empty());
        }
        while i < core.claims.len()
            invariant
                i <= cs.len(),
                cs == core.claims@,
                ant.wf(),
                strict.deep_view() == ids_of_kind(cs.take(i as int), false),
                defs.deep_view() == ids_of_kind(cs.take(i as int), true),
                ant.table().map_values(|p: (String, String)| pair_view(p)) == antecedents(cs.take(i as int)),
            decreases core.claims.len() - i,
        {
            proof {
                assert(cs.take(i + 1).drop_last() =~= cs.take(i as int));
                assert(cs.take(i + 1).last() == cs[i as int]);
            }
            let c = &core.claims[i];
            if c.active {
                if c.defeasible {
                    let ghost pre = defs.deep_view();
                    defs.push(copy_string(&c.id));
                    proof {
                        assert(defs.deep_view() =~= pre.push(c.id@));
                    }
                    match antecedent_pred(&c.formula) {
                        Some(a) => {
                            let ghost t0 = ant.table();
                            let ghost av = pair_view(a);
                            ant.insert(copy_string(&c.id), a);
                            proof {
                                assert(ant.table().map_values(|p: (String, String)| pair_view(p)) =~= t0.map_values(
                                    |p: (String, String)| pair_view(p),
                                ).insert(c.id@, av));
                            }
                        },
                        None => {},
                    }
                } else {
                    let ghost pre = strict.deep_view();
                    strict.push(copy_string(&c.id));
                    proof {
                        assert(strict.deep_view() =~= pre.push(c.id@));
                    }
                }
            }
            i = i + 1;
        }
        proof {
            assert(cs.take(i as int) =~= cs);
        }
        let r = DefeasibleDriver {
            strict,
            defs,
            ant,
            spec: Vec::new(),
            accepted: Vec::new(),
            overridden: Vec::new(),
            phase: DPhase::Strict,
            status: String::new(),
        };
        proof {
            assert(r.accepted.deep_view() =~= Seq::<Seq<char>>::empty());
            assert(r.overridden.deep_view() =~= Seq::<Seq<char>>::empty());
        }
        r
    }

    /// The reading has finished.
    pub fn done(&self) -> (r: bool)
        ensures
            r == (self@.phase == DPhaseView::Done),
    {
        match self.phase {
            DPhase::Done => true,
            _ => false,
        }
    }

    /// Ordered pairs of distinct defaults that both have an antecedent.
    pub fn spec_pairs(&self) -> (r: Vec<(usize, usize)>)
        requires
            self.ant.wf(),
        ensures
            r@ == specificity_pairs(self@.defs, self@.ant),
            forall|k: int| 0 <= k < r@.len() ==> {
                let p = #[trigger] r@[k];
                &&& p.0 < self@.defs.len()
                &&& p.1 < self@.defs.len()
                &&& self@.ant.contains_key(self@.defs[p.0 as int])
                &&& self@.ant.contains_key(self@.defs[p.1 as int])
            },
    {
        let ghost dv = self@.defs;
        let ghost av = self@.ant;
        let n = self.defs.len();
        let mut v: Vec<(usize, usize)> = Vec::new();
        let mut a: usize = 0;
        while a < n
            invariant
                a <= n,
                n == dv.len(),
                dv == self@.defs,
                av == self@.ant,
                self.ant.wf(),
                v@ == pairs_upto(dv, av, a as int),
                forall|k: int| 0 <= k < v@.len() ==> {
                    let p = #[trigger] v@[k];
                    &&& p.0 < dv.len()
                    &&& p.1 < dv.len()
                    &&& av.contains_key(dv[p.0 as int])
                    &&& av.contains_key(dv[p.1 as int])
                },
            decreases n - a,
        {
            let ghost base = v@;
            let mut b: usize = 0;
            while b < n
                invariant
                    a < n,
                    b <= n,
                    n == dv.len(),
                    dv == self@.defs,
                    av == self@.ant,
                    self.ant.wf(),
                    v@ == base + pair_row(dv, av, a as int, b as int),
                    forall|k: int| 0 <= k < v@.len() ==> {
                        let p = #[trigger] v@[k];
                        &&& p.0 < dv.len()
                        &&& p.1 < dv.len()
                        &&& av.contains_key(dv[p.0 as int])
                        &&& av.contains_key(dv[p.1 as int])
                    },
                decreases n - b,
            {
                proof {
                    assert(dv[a as int] == self.defs@[a as int]@);
                    assert(dv[b as int] == self.defs@[b as int]@);
                }
                if a != b && self.ant.contains_key(self.defs[a].as_str()) && self.ant.contains_key(self.defs[b].as_str()) {
                    v.push((a, b));
                    proof {
                        assert(v@ =~= base + pair_row(dv, av, a as int, b + 1));
                    }
                } else {
                    proof {
                        assert(v@ =~= base + pair_row(dv, av, a as int, b + 1));
                    }
                }
                b = b + 1;
            }
            a = a + 1;
        }
        v
    }

    /// The defaults in rank order: more specific first, then more
    /// entrenched, then by id.
    pub fn ranked(&self, core: &Core) -> (r: Vec<String>)
        ensures
            r.deep_view() == ranked(self@.spec, core.claims@, self@.defs),
    {
        let ghost sp = self@.spec;
        let ghost cs = core.claims@;
        let ghost dv = self@.defs;
        let mut out: Vec<String> = Vec::new();
        let mut keys: Vec<(usize, i64)> = Vec::new();
        let mut k: usize = 0;
        proof {
            assert(dv.take(0) =~= Seq::<Seq<char>>::empty());
        }
        while k < self.defs.len()
            invariant
                k <= dv.len(),
                sp == self@.spec,
                cs == core.claims@,
                dv == self@.defs,
                out@.len() == keys@.len(),
                out.deep_view() == ranked(sp, cs, dv.take(k as int)),
                forall|j: int| 0 <= j < keys@.len() ==> (#[trigger] keys@[j]).0 == depth(sp, out@[j]@) && keys@[j].1
                    == weight_of(cs, out@[j]@),
            decreases self.defs.len() - k,
        {
            proof {
                assert(dv.take(k + 1).drop_last() =~= dv.take(k as int));
                assert(dv.take(k + 1).last() == self.defs@[k as int]@);
            }
            let x = &self.defs[k];
            let dx = depth_exec(&self.spec, x);
            let wx = core.weight_of(x.as_str());
            let ghost pre = out.deep_view();
            let mut j: usize = out.len();
            proof {
                assert(pre.take(j as int) =~= pre);
                assert(rank_insert(sp, cs, pre, x@) =~= rank_insert(sp, cs, pre.take(j as int), x@) + pre.skip(j as int));
            }
            let mut go = true;
            while go && j > 0
                invariant
                    j <= pre.len(),
                    out.deep_view() == pre,
                    out@.len() == keys@.len(),
                    forall|i: int| 0 <= i < keys@.len() ==> (#[trigger] keys@[i]).0 == depth(sp, out@[i]@) && keys@[i].1
                        == weight_of(cs, out@[i]@),
                    dx == depth(sp, x@),
                    wx == weight_of(cs, x@),
                    rank_insert(sp, cs, pre, x@) == rank_insert(sp, cs, pre.take(j as int), x@) + pre.skip(j as int),
                    !go ==> j > 0 && !ranks_before(sp, cs, x@, pre[j - 1]),
                decreases j + if go { 1int } else { 0int },
            {
                let e = &out[j - 1];
                let before = dx > keys[j - 1].0 || (dx == keys[j - 1].0 && (wx > keys[j - 1].1 || (wx
                    == keys[j - 1].1 && str_lt(x.as_str(), e.as_str()))));
                proof {
                    assert(pre[j - 1] == e@);
                }
                if before {
                    proof {
                        let t = pre.take(j as int);
                        assert(t.drop_last() =~= pre.take(j - 1));
                        assert(t.last() == pre[j - 1]);
                        assert(pre.skip(j - 1) =~= seq![pre[j - 1]] + pre.skip(j as int));
                        assert(rank_insert(sp, cs, pre.take(j - 1), x@).push(pre[j - 1]) + pre.skip(j as int)
                            =~= rank_insert(sp, cs, pre.take(j - 1), x@) + pre.skip(j - 1));
                    }
                    j = j - 1;
                } else {
                    go = false;
                }
            }
            proof {
                let t = pre.take(j as int);
                if j > 0 {
                    assert(t.last() == pre[j - 1]);
                }
                assert(rank_insert(sp, cs, t, x@) =~= t.push(x@));
            }
            let ghost outs = out@;
            let ghost keys0 = keys@;
            out.insert(j, copy_string(x));
            keys.insert(j, (dx, wx));
            proof {
                assert(out.deep_view() =~= pre.take(j as int).push(x@) + pre.skip(j as int));
                assert forall|i: int| 0 <= i < keys@.len() implies (#[trigger] keys@[i]).0 == depth(sp, out@[i]@) && keys@[i].1
                    == weight_of(cs, out@[i]@) by {
                    if i < j {
                        assert(out@[i] == outs[i]);
                        assert(keys@[i] == keys0[i]);
                    } else if i > j {
                        assert(out@[i] == outs[i - 1]);
                        assert(keys@[i] == keys0[i - 1]);
                    }
                }
            }
            k = k + 1;
        }
        proof {
            assert(dv.take(k as int) =~= dv);
        }
        out
    }
}

pub proof fn lemma_rank_insert_len(spec: Seq<(Seq<char>, Seq<char>)>, cs: Seq<Claim>, s: Seq<Seq<char>>, x: Seq<char>)
    ensures
        rank_insert(spec, cs, s, x).len() == s.len() + 1,
    decreases s.len(),
{
    if s.len() > 0 {
        lemma_rank_insert_len(spec, cs, s.drop_last(), x);
    }
}

pub proof fn lemma_ranked_len(spec: Seq<(Seq<char>, Seq<char>)>, cs: Seq<Claim>, defs: Seq<Seq<char>>)
    ensures
        ranked(spec, cs, defs).len() == defs.len(),
    decreases defs.len(),
{
    if defs.len() > 0 {
        lemma_ranked_len(spec, cs, defs.drop_last());
        lemma_rank_insert_len(spec, cs, ranked(spec, cs, defs.drop_last()), defs.last());
    }
}

fn concat_strings(a: &Vec<String>, b: &Vec<String>) -> (r: Vec<String>)
    ensures
        r.deep_view() == a.deep_view() + b.deep_view(),
{
    let mut r = copy_strings(a);
    let mut k: usize = 0;
    while k < b.len()
        invariant
            k <= b@.len(),
            r.deep_view() == a.deep_view() + b.deep_view().take(k as int),
        decreases b.len() - k,
    {
        let ghost pre = r.deep_view();
        r.push(copy_string(&b[k]));
        proof {
            assert(r.deep_view() =~= pre.push(b@[k as int]@));
            assert(a.deep_view() + b.deep_view().take(k + 1) =~= (a.deep_view() + b.deep_view().take(k as int)).push(b@[k as int]@));
        }
        k = k + 1;
    }
    assert(b.deep_view().take(k as int) =~= b.deep_view());
    r
}

impl DefeasibleDriver {
    /// The next script to hand the solver, or `None` when finished.
    pub fn next_script(&self, core: &Core) -> (r: Option<String>)
        requires
            core.wf(),
            self.ant.wf(),
            defeasible_wf(self@),
        ensures
            match r {
                Some(s) => defeasible_script(self@, *core) == Some(s@),
                None => defeasible_script(self@, *core) is None,
            },
    {
        match &self.phase {
            DPhase::Strict => Some(core.smt_assume(&self.strict)),
            DPhase::Spec { pairs, i } => {
                let (a, b) = pairs[*i];
                proof {
                    let p = pairs@[*i as int];
                    assert(self@.defs[a as int] == self.defs@[a as int]@);
                    assert(self@.defs[b as int] == self.defs@[b as int]@);
                }
                let pa = self.ant.get(self.defs[a].as_str());
                let pb = self.ant.get(self.defs[b].as_str());
                match (pa, pb) {
                    (Some(x), Some(y)) => {
                        proof {
                            assert(self.ant.table().contains_key(self.defs@[a as int]@));
                            assert(self@.ant[self.defs@[a as int]@] == pair_view(*x));
                            assert(self@.ant[self.defs@[b as int]@] == pair_view(*y));
                        }
                        Some(core.smt_more_specific(x.0.as_str(), y.0.as_str(), x.1.as_str()))
                    },
                    _ => {
                        proof {
                            assert(self.ant.table().contains_key(self.defs@[a as int]@));
                            assert(self.ant.table().contains_key(self.defs@[b as int]@));
                        }
                        None
                    },
                }
            },
            DPhase::Brewka { order, i } => {
                let mut keep = concat_strings(&self.strict, &self.accepted);
                let ghost pre = keep.deep_view();
                keep.push(copy_string(&order[*i]));
                proof {
                    assert(keep.deep_view() =~= pre + seq![order@[*i as int]@]);
                }
                Some(core.smt_assume(&keep))
            },
            DPhase::Done => None,
        }
    }

    /// Takes the solver's answer to the current script and moves on.
    pub fn feed(&mut self, core: &Core, out: &str)
        requires
            old(self).ant.wf(),
            defeasible_wf(old(self)@),
        ensures
            final(self)@ == defeasible_step(old(self)@, core.claims@, out@),
            final(self).ant == old(self).ant,
            defeasible_wf(final(self)@),
    {
        let ghost d0 = self@;
        let h = z3_head(out);
        let mut ph = DPhase::Done;
        std::mem::swap(&mut ph, &mut self.phase);
        proof {
            assert(dphase_view(ph) == d0.phase);
        }
        let decided = starts_with_str(&h, "sat") || starts_with_str(&h, "unsat");
        let finished = match ph {
            DPhase::Done => true,
            _ => false,
        };
        if !finished && !decided {
            self.status = String::from_str("unknown");
            self.phase = DPhase::Done;
            return;
        }
        match ph {
            DPhase::Strict => {
                if starts_with_str(&h, "unsat") {
                    self.status = String::from_str("inconsistent");
                    self.phase = DPhase::Done;
                } else if self.defs.len() == 0 {
                    self.status = String::from_str("coherent");
                    self.accepted = copy_strings(&self.strict);
                    self.phase = DPhase::Done;
                } else {
                    let pairs = self.spec_pairs();
                    if pairs.len() == 0 {
                        let order = self.ranked(core);
                        proof {
                            lemma_ranked_len(d0.spec, core.claims@, d0.defs);
                        }
                        self.phase = DPhase::Brewka { order, i: 0 };
                    } else {
                        self.phase = DPhase::Spec { pairs, i: 0 };
                    }
                }
            },
            DPhase::Spec { pairs, i } => {
                let n = pairs.len();
                proof {
                    assert(i < n);
                }
                if starts_with_str(&h, "unsat") {
                    let (a, b) = pairs[i];
                    let ghost sp = self.spec@;
                    self.spec.push((copy_string(&self.defs[a]), copy_string(&self.defs[b])));
                    proof {
                        assert(self.spec@.map_values(|p: (String, String)| pair_view(p)) =~= sp.map_values(
                            |p: (String, String)| pair_view(p),
                        ).push((d0.defs[a as int], d0.defs[b as int])));
                    }
                }
                if i + 1 < n {
                    self.phase = DPhase::Spec { pairs, i: i + 1 };
                } else {
                    let order = self.ranked(core);
                    proof {
                        lemma_ranked_len(self@.spec, core.claims@, d0.defs);
                    }
                    self.phase = DPhase::Brewka { order, i: 0 };
                }
            },
            DPhase::Brewka { order, i } => {
                let n = order.len();
                proof {
                    assert(i < n);
                }
                if starts_with_str(&h, "sat") {
                    let ghost pre = self.accepted.deep_view();
                    self.accepted.push(copy_string(&order[i]));
                    proof {
                        assert(self.accepted.deep_view() =~= pre.push(order@[i as int]@));
                    }
                } else {
                    let ghost pre = self.overridden.deep_view();
                    self.overridden.push(copy_string(&order[i]));
                    proof {
                        assert(self.overridden.deep_view() =~= pre.push(order@[i as int]@));
                    }
                }
                if i + 1 < n {
                    self.phase = DPhase::Brewka { order, i: i + 1 };
                } else {
                    let acc = concat_strings(&self.strict, &self.accepted);
                    self.accepted = acc;
                    if self.overridden.len() == 0 {
                        self.status = String::from_str("coherent");
                    } else {
                        self.status = String::from_str("defeasibly-coherent");
                    }
                    self.phase = DPhase::Done;
                }
            },
            DPhase::Done => {
                self.phase = DPhase::Done;
            },
        }
    }

    /// For each overridden default, the claims that beat it: its more
    /// specific accepted rivals, or else the whole accepted position.
    pub fn beaten_by(&self) -> (r: Vec<(String, Vec<String>)>)
        ensures
            r@.len() == self@.overridden.len(),
            forall|k: int| 0 <= k < r@.len() ==> (#[trigger] r@[k]).0@ == self@.overridden[k] && r@[k].1.deep_view()
                == beaten_by(self@, self@.overridden[k]),
    {
        let mut r: Vec<(String, Vec<String>)> = Vec::new();
        let mut k: usize = 0;
        while k < self.overridden.len()
            invariant
                k <= self@.overridden.len(),
                r@.len() == k,
                forall|j: int| 0 <= j < k ==> (#[trigger] r@[j]).0@ == self@.overridden[j] && r@[j].1.deep_view()
                    == beaten_by(self@, self@.overridden[j]),
            decreases self.overridden.len() - k,
        {
            let o = &self.overridden[k];
            let ghost sv = self@.spec;
            let mut by: Vec<String> = Vec::new();
            let mut t: usize = 0;
            proof {
                assert(sv.take(0) =~= Seq::<(Seq<char>, Seq<char>)>::empty());
            }
            while t < self.spec.len()
                invariant
                    t <= self.spec@.len(),
                    sv == self@.spec,
                    by.deep_view() == rivals(sv.take(t as int), self@.accepted, o@),
                decreases self.spec.len() - t,
            {
                proof {
                    assert(sv.take(t + 1).drop_last() =~= sv.take(t as int));
                    assert(sv.take(t + 1).last() == pair_view(self.spec@[t as int]));
                }
                let e = &self.spec[t];
                if str_eq(e.1.as_str(), o.as_str()) && contains_str(&self.accepted, e.0.as_str()) {
                    let ghost pre = by.deep_view();
                    by.push(copy_string(&e.0));
                    proof {
                        assert(by.deep_view() =~= pre.push(e.0@));
                    }
                }
                t = t + 1;
            }
            proof {
                assert(sv.take(t as int) =~= sv);
            }
            if by.len() == 0 {
                by = copy_strings(&self.accepted);
            }
            r.push((copy_string(o), by));
            k = k + 1;
        }
        r
    }
}

} // verus!
