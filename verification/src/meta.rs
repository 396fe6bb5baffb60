//! What the world-model shows of itself: each claim with its English
//! reading, the vocabulary listing, the propositions, and the ground
//! atoms worth probing for forced consequences.
use vstd::prelude::*;
use crate::ir::{Sig, Term, Formula, Claim};
use crate::symtab::SortedMap;
use crate::world::Core;
use crate::text::{join, push_joined, str_eq, copy_string, copy_strings};
use crate::english::{form_english, form_en};
use crate::vocab::registry_text;

verus! {

/// Beyond this many combinations a predicate is not probed.
pub const TUPLE_CAP: usize = 24;

/// Probing stops once this many atoms are listed.
pub const ATOM_CAP: usize = 40;

/// A ground atom as plain values: its label, its predicate and the
/// constants it is applied to.
pub struct AtomView {
    pub label: Seq<char>,
    pub pred: Seq<char>,
    pub args: Seq<Seq<char>>,
}

/// Whether `ret` is the sort `s`.
pub open spec fn ret_is(ret: Option<String>, s: Seq<char>) -> bool {
    match ret {
        Some(r) => r@ == s,
        None => false,
    }
}

/// The constants (functions of no argument) of result sort `s`, in the
/// order of `vals`.
pub open spec fn consts_of(vals: Seq<Sig>, s: Seq<char>) -> Seq<Seq<char>>
    decreases vals.len(),
{
    if vals.len() == 0 {
        Seq::empty()
    } else {
        let r = consts_of(vals.drop_last(), s);
        let f = vals.last();
        if f.args@.len() == 0 && ret_is(f.ret, s) {
            r.push(f.name@)
        } else {
            r
        }
    }
}

/// Every tuple of `ts` extended by every constant of `cs`, tuple-major.
pub open spec fn cart(ts: Seq<Seq<Seq<char>>>, cs: Seq<Seq<char>>) -> Seq<Seq<Seq<char>>>
    decreases ts.len(),
{
    if ts.len() == 0 {
        Seq::empty()
    } else {
        cart(ts.drop_last(), cs) + cs.map_values(|c: Seq<char>| ts.last().push(c))
    }
}

/// The argument tuples of a predicate over argument sorts `args`: every
/// combination of constants of the right sorts, or nothing to probe when
/// some sort has no constant or the combinations grow past the cap.
pub open spec fn tuples_for(args: Seq<Seq<char>>, vals: Seq<Sig>) -> Option<Seq<Seq<Seq<char>>>>
    decreases args.len(),
{
    if args.len() == 0 {
        Some(seq![Seq::empty()])
    } else {
        match tuples_for(args.drop_last(), vals) {
            None => None,
            Some(ts) => {
                let cs = consts_of(vals, args.last());
                if cs.len() == 0 {
                    None
                } else {
                    let nx = cart(ts, cs);
                    if nx.len() > TUPLE_CAP {
                        None
                    } else {
                        Some(nx)
                    }
                }
            },
        }
    }
}

/// The atom of predicate `p` on the constants `tup`.
pub open spec fn atom(p: Seq<char>, tup: Seq<Seq<char>>) -> AtomView {
    AtomView { label: p + "("@ + join(tup, ", "@) + ")"@, pred: p, args: tup }
}

/// The list after the first `k` tuples of `ts` were offered to it, and
/// whether it is full: each tuple is added while the list is not full.
pub open spec fn emit_upto(out: Seq<AtomView>, p: Seq<char>, ts: Seq<Seq<Seq<char>>>, k: int) -> (Seq<AtomView>, bool)
    decreases k,
{
    if k <= 0 {
        (out, false)
    } else {
        let (o, full) = emit_upto(out, p, ts, k - 1);
        if full {
            (o, true)
        } else {
            let o2 = o.push(atom(p, ts[k - 1]));
            (o2, o2.len() >= ATOM_CAP)
        }
    }
}

/// The list after one entry of the declaration order: a proposition is
/// listed as it is, a predicate with arguments contributes its atoms.
pub open spec fn atoms_step(c: Core, st: (Seq<AtomView>, bool), name: Seq<char>) -> (Seq<AtomView>, bool) {
    if st.1 {
        st
    } else {
        match c.preds.lookup(name) {
            None => st,
            Some(p) => if p.args@.len() == 0 {
                (st.0.push(AtomView { label: p.name@, pred: p.name@, args: Seq::empty() }), false)
            } else {
                match tuples_for(p.args.deep_view(), c.funcs.values()) {
                    None => st,
                    Some(ts) => emit_upto(st.0, p.name@, ts, ts.len() as int),
                }
            },
        }
    }
}

/// The list after the first `k` entries of the declaration order.
pub open spec fn atoms_upto(c: Core, k: int) -> (Seq<AtomView>, bool)
    decreases k,
{
    if k <= 0 {
        (Seq::empty(), false)
    } else {
        atoms_step(c, atoms_upto(c, k - 1), c.decl_order@[k - 1].1@)
    }
}

/// The candidate ground atoms of a world-model: each proposition, and
/// each predicate applied to every combination of declared constants of
/// its argument sorts, in declaration order, within the caps.
pub open spec fn ground_atoms_of(c: Core) -> Seq<AtomView> {
    atoms_upto(c, c.decl_order@.len() as int).0
}

/// A ground atom: its label and the formula that states it.
pub struct GroundAtom {
    pub label: String,
    pub formula: Formula,
}

/// The formula of `g` is the atom `a`: the predicate applied to those
/// constants.
pub open spec fn atom_is(g: GroundAtom, a: AtomView) -> bool {
    &&& g.label@ == a.label
    &&& match g.formula {
        Formula::Pred { name, args } => {
            &&& name@ == a.pred
            &&& args@.len() == a.args.len()
            &&& forall|i: int|
                0 <= i < args@.len() ==> match #[trigger] args@[i] {
                    Term::App { name, args } => name@ == a.args[i] && args@.len() == 0,
                    _ => false,
                }
        },
        _ => false,
    }
}

/// What the world-model shows of one claim.
pub struct ClaimMeta {
    pub id: String,
    pub source: String,
    pub gloss: String,
    /// The formula in plain English.
    pub render: String,
    pub back: String,
    pub weight: i64,
    pub active: bool,
    pub defeasible: bool,
}

/// What the world-model shows of itself.
pub struct Meta {
    pub claims: Vec<ClaimMeta>,
    /// The vocabulary listing.
    pub vocab: String,
    /// The predicates of no argument, in name order.
    pub bool_atoms: Vec<String>,
    pub ground_atoms: Vec<GroundAtom>,
}

/// The predicates of no argument among `vals`, in their order.
pub open spec fn propositions(vals: Seq<Sig>) -> Seq<Seq<char>>
    decreases vals.len(),
{
    if vals.len() == 0 {
        Seq::empty()
    } else {
        let r = propositions(vals.drop_last());
        if vals.last().args@.len() == 0 {
            r.push(vals.last().name@)
        } else {
            r
        }
    }
}

/// `m` shows claim `c`.
pub open spec fn claim_meta_of(m: ClaimMeta, c: Claim) -> bool {
    &&& m.id@ == c.id@
    &&& m.source@ == c.source@
    &&& m.gloss@ == c.gloss@
    &&& m.render@ == form_english(c.formula)
    &&& m.back@ == c.back@
    &&& m.weight == c.weight
    &&& m.active == c.active
    &&& m.defeasible == c.defeasible
}

/// `m` is what the world-model `c` shows of itself.
pub open spec fn meta_of(m: Meta, c: Core) -> bool {
    &&& m.claims@.len() == c.claims@.len()
    &&& forall|i: int| 0 <= i < m.claims@.len() ==> claim_meta_of(#[trigger] m.claims@[i], c.claims@[i])
    &&& m.vocab@ == registry_text(c)
    &&& m.bool_atoms.deep_view() == propositions(c.preds.values())
    &&& m.ground_atoms@.len() == ground_atoms_of(c).len()
    &&& forall|i: int| 0 <= i < m.ground_atoms@.len() ==> atom_is(#[trigger] m.ground_atoms@[i], ground_atoms_of(c)[i])
}

/// The constants of result sort `s`, in name order.
fn consts_of_sort(funcs: &SortedMap<Sig>, s: &String) -> (r: Vec<String>)
    ensures
        r.deep_view() == consts_of(funcs.values(), s@),
{
    let ghost vals = funcs.values();
    let mut r: Vec<String> = Vec::new();
    let mut k: usize = 0;
    proof {
        assert(vals.take(0) =~= Seq::<Sig>::empty());
        assert(r.deep_view() =~= Seq::<Seq<char>>::empty());
    }
    while k < funcs.entries.len()
        invariant
            k <= funcs.entries@.len(),
            vals == funcs.values(),
            r.deep_view() == consts_of(vals.take(k as int), s@),
        decreases funcs.entries.len() - k,
    {
        proof {
            assert(vals.take(k + 1).drop_last() =~= vals.take(k as int));
            assert(vals.take(k + 1).last() == funcs.entries@[k as int].1);
        }
        let f = &funcs.entries[k].1;
        let hit = match &f.ret {
            Some(rt) => str_eq(rt.as_str(), s.as_str()),
            None => false,
        };
        if f.args.len() == 0 && hit {
            let ghost pre = r.deep_view();
            r.push(copy_string(&f.name));
            proof {
                assert(r.deep_view() =~= pre.push(f.name@));
            }
        }
        k = k + 1;
    }
    proof {
        assert(vals.take(k as int) =~= vals);
    }
    r
}

/// Every tuple extended by every constant.
fn cart_exec(ts: &Vec<Vec<String>>, cs: &Vec<String>) -> (r: Vec<Vec<String>>)
    ensures
        r.deep_view() == cart(ts.deep_view(), cs.deep_view()),
{
    let ghost tv = ts.deep_view();
    let ghost cv = cs.deep_view();
    let mut r: Vec<Vec<String>> = Vec::new();
    let mut i: usize = 0;
    proof {
        assert(tv.take(0) =~= Seq::<Seq<Seq<char>>>::empty());
        assert(r.deep_view() =~= Seq::<Seq<Seq<char>>>::empty());
    }
    while i < ts.len()
        invariant
            i <= ts@.len(),
            tv == ts.deep_view(),
            cv == cs.deep_view(),
            r.deep_view() == cart(tv.take(i as int), cv),
        decreases ts.len() - i,
    {
        let ghost base = r.deep_view();
        proof {
            assert(tv.take(i + 1).drop_last() =~= tv.take(i as int));
            assert(tv.take(i + 1).last() == tv[i as int]);
        }
        let mut j: usize = 0;
        while j < cs.len()
            invariant
                i < ts@.len(),
                j <= cs@.len(),
                tv == ts.deep_view(),
                cv == cs.deep_view(),
                r.deep_view() == base + cv.take(j as int).map_values(|c: Seq<char>| tv[i as int].push(c)),
            decreases cs.len() - j,
        {
            let mut t = copy_strings(&ts[i]);
            let ghost tpre = t.deep_view();
            t.push(copy_string(&cs[j]));
            proof {
                assert(t.deep_view() =~= tpre.push(cs@[j as int]@));
            }
            let ghost pre = r.deep_view();
            r.push(t);
            proof {
                assert(tv[i as int] == ts@[i as int].deep_view());
                assert(cv[j as int] == cs@[j as int]@);
                assert(cv.take(j + 1).map_values(|c: Seq<char>| tv[i as int].push(c)) =~= cv.take(j as int).map_values(
                    |c: Seq<char>| tv[i as int].push(c),
                ).push(tv[i as int].push(cv[j as int])));
                assert(r.deep_view() =~= pre.push(tv[i as int].push(cv[j as int])));
            }
            j = j + 1;
        }
        proof {
            assert(cv.take(j as int) =~= cv);
        }
        i = i + 1;
    }
    proof {
        assert(tv.take(i as int) =~= tv);
    }
    r
}

/// The argument tuples of a predicate with argument sorts `args`.
fn tuples_exec(funcs: &SortedMap<Sig>, args: &Vec<String>) -> (r: Option<Vec<Vec<String>>>)
    ensures
        match r {
            Some(ts) => tuples_for(args.deep_view(), funcs.values()) == Some(ts.deep_view()),
            None => tuples_for(args.deep_view(), funcs.values()) is None,
        },
{
    let ghost av = args.deep_view();
    let mut ts: Vec<Vec<String>> = Vec::new();
    ts.push(Vec::new());
    let mut i: usize = 0;
    proof {
        assert(av.take(0) =~= Seq::<Seq<char>>::empty());
        assert(ts@[0].deep_view() =~= Seq::<Seq<char>>::empty());
        assert(ts.deep_view() =~= seq![Seq::<Seq<char>>::empty()]);
    }
    while i < args.len()
        invariant
            i <= args@.len(),
            av == args.deep_view(),
            tuples_for(av.take(i as int), funcs.values()) == Some(ts.deep_view()),
        decreases args.len() - i,
    {
        proof {
            assert(av.take(i + 1).drop_last() =~= av.take(i as int));
            assert(av.take(i + 1).last() == args@[i as int]@);
        }
        let cs = consts_of_sort(funcs, &args[i]);
        if cs.len() == 0 {
            proof {
                lemma_tuples_none_extends(av, funcs.values(), i as int + 1);
            }
            return None;
        }
        let nx = cart_exec(&ts, &cs);
        if nx.len() > TUPLE_CAP {
            proof {
                lemma_tuples_none_extends(av, funcs.values(), i as int + 1);
            }
            return None;
        }
        ts = nx;
        i = i + 1;
    }
    proof {
        assert(av.take(i as int) =~= av);
    }
    Some(ts)
}

/// Once a prefix of the sorts has nothing to probe, neither has the
/// whole.
proof fn lemma_tuples_none_extends(args: Seq<Seq<char>>, vals: Seq<Sig>, k: int)
    requires
        0 <= k <= args.len(),
        tuples_for(args.take(k), vals) is None,
    ensures
        tuples_for(args, vals) is None,
    decreases args.len() - k,
{
    if k < args.len() {
        assert(args.take(k + 1).drop_last() =~= args.take(k));
        lemma_tuples_none_extends(args, vals, k + 1);
    } else {
        assert(args.take(k) =~= args);
    }
}

/// The formula stating predicate `p` of the constants `tup`.
fn atom_formula(p: &String, tup: &Vec<String>) -> (r: Formula)
    ensures
        match r {
            Formula::Pred { name, args } => {
                &&& name@ == p@
                &&& args@.len() == tup@.len()
                &&& forall|i: int|
                    0 <= i < args@.len() ==> match #[trigger] args@[i] {
                        Term::App { name, args } => name@ == tup@[i]@ && args@.len() == 0,
                        _ => false,
                    }
            },
            _ => false,
        },
{
    let mut args: Vec<Term> = Vec::new();
    let mut i: usize = 0;
    while i < tup.len()
        invariant
            i <= tup@.len(),
            args@.len() == i,
            forall|k: int|
                0 <= k < i ==> match #[trigger] args@[k] {
                    Term::App { name, args } => name@ == tup@[k]@ && args@.len() == 0,
                    _ => false,
                },
        decreases tup.len() - i,
    {
        args.push(Term::App { name: copy_string(&tup[i]), args: Vec::new() });
        i = i + 1;
    }
    Formula::Pred { name: copy_string(p), args }
}

/// The label `p(c1, c2, ..)`.
fn atom_label(p: &String, tup: &Vec<String>) -> (r: String)
    ensures
        r@ == atom(p@, tup.deep_view()).label,
{
    let mut s = copy_string(p);
    s.append("(");
    push_joined(&mut s, tup, ", ");
    s.append(")");
    s
}

impl Core {
    /// The candidate ground atoms to probe for consequences nobody
    /// asserted: every proposition, and every predicate applied to each
    /// combination of declared constants of its argument sorts, in
    /// declaration order; a predicate whose combinations pass 24 is
    /// skipped, and listing stops once an atom makes 40.
    pub fn ground_atoms(&self) -> (r: Vec<GroundAtom>)
        requires
            self.wf(),
        ensures
            r@.len() == ground_atoms_of(*self).len(),
            forall|i: int| 0 <= i < r@.len() ==> atom_is(#[trigger] r@[i], ground_atoms_of(*self)[i]),
    {
        let mut out: Vec<GroundAtom> = Vec::new();
        let mut full = false;
        let mut k: usize = 0;
        while k < self.decl_order.len()
            invariant
                k <= self.decl_order@.len(),
                self.wf(),
                out@.len() == atoms_upto(*self, k as int).0.len(),
                forall|i: int| 0 <= i < out@.len() ==> atom_is(#[trigger] out@[i], atoms_upto(*self, k as int).0[i]),
                full == atoms_upto(*self, k as int).1,
            decreases self.decl_order.len() - k,
        {
            let ghost st = atoms_upto(*self, k as int);
            let ghost name = self.decl_order@[k as int].1@;
            assert(atoms_upto(*self, k + 1) == atoms_step(*self, st, name));
            if !full {
                match self.preds.get(self.decl_order[k].1.as_str()) {
                    None => {},
                    Some(p) => {
                        if p.args.len() == 0 {
                            let f = Formula::Pred { name: copy_string(&p.name), args: Vec::new() };
                            let ghost pre = out@;
                            out.push(GroundAtom { label: copy_string(&p.name), formula: f });
                            proof {
                                let nv = st.0.push(AtomView { label: p.name@, pred: p.name@, args: Seq::empty() });
                                assert forall|i: int| 0 <= i < out@.len() implies atom_is(#[trigger] out@[i], nv[i]) by {
                                    if i < pre.len() {
                                        assert(out@[i] == pre[i]);
                                    }
                                }
                            }
                        } else {
                            match tuples_exec(&self.funcs, &p.args) {
                                None => {},
                                Some(ts) => {
                                    let ghost tv = ts.deep_view();
                                    let mut t: usize = 0;
                                    let ghost o0 = st.0;
                                    while t < ts.len()
                                        invariant
                                            t <= ts@.len(),
                                            tv == ts.deep_view(),
                                            out@.len() == emit_upto(o0, p.name@, tv, t as int).0.len(),
                                            forall|i: int| 0 <= i < out@.len() ==> atom_is(#[trigger] out@[i], emit_upto(o0, p.name@, tv, t as int).0[i]),
                                            full == emit_upto(o0, p.name@, tv, t as int).1,
                                        decreases ts.len() - t,
                                    {
                                        let ghost est = emit_upto(o0, p.name@, tv, t as int);
                                        if !full {
                                            let label = atom_label(&p.name, &ts[t]);
                                            let f = atom_formula(&p.name, &ts[t]);
                                            let ghost pre = out@;
                                            out.push(GroundAtom { label, formula: f });
                                            proof {
                                                assert(tv[t as int] == ts@[t as int].deep_view());
                                                let nv = est.0.push(atom(p.name@, tv[t as int]));
                                                assert forall|i: int| 0 <= i < out@.len() implies atom_is(#[trigger] out@[i], nv[i]) by {
                                                    if i < pre.len() {
                                                        assert(out@[i] == pre[i]);
                                                    }
                                                }
                                            }
                                            full = out.len() >= ATOM_CAP;
                                        }
                                        t = t + 1;
                                    }
                                },
                            }
                        }
                    },
                }
            }
            k = k + 1;
        }
        out
    }

    /// The propositions: the predicates of no argument, in name order.
    pub fn bool_atoms(&self) -> (r: Vec<String>)
        ensures
            r.deep_view() == propositions(self.preds.values()),
    {
        let ghost vals = self.preds.values();
        let mut r: Vec<String> = Vec::new();
        let mut k: usize = 0;
        proof {
            assert(vals.take(0) =~= Seq::<Sig>::empty());
            assert(r.deep_view() =~= Seq::<Seq<char>>::empty());
        }
        while k < self.preds.entries.len()
            invariant
                k <= self.preds.entries@.len(),
                vals == self.preds.values(),
                r.deep_view() == propositions(vals.take(k as int)),
            decreases self.preds.entries.len() - k,
        {
            proof {
                assert(vals.take(k + 1).drop_last() =~= vals.take(k as int));
                assert(vals.take(k + 1).last() == self.preds.entries@[k as int].1);
            }
            let p = &self.preds.entries[k].1;
            if p.args.len() == 0 {
                let ghost pre = r.deep_view();
                r.push(copy_string(&p.name));
                proof {
                    assert(r.deep_view() =~= pre.push(p.name@));
                }
            }
            k = k + 1;
        }
        proof {
            assert(vals.take(k as int) =~= vals);
        }
        r
    }

    /// What the world-model shows of itself: each claim with its English
    /// reading, the vocabulary listing, the propositions and the ground
    /// atoms.
    pub fn meta(&self) -> (r: Meta)
        requires
            self.wf(),
        ensures
            meta_of(r, *self),
    {
        let mut claims: Vec<ClaimMeta> = Vec::new();
        let mut i: usize = 0;
        while i < self.claims.len()
            invariant
                i <= self.claims@.len(),
                claims@.len() == i,
                forall|k: int| 0 <= k < i ==> claim_meta_of(#[trigger] claims@[k], self.claims@[k]),
            decreases self.claims.len() - i,
        {
            let c = &self.claims[i];
            claims.push(
                ClaimMeta {
                    id: copy_string(&c.id),
                    source: copy_string(&c.source),
                    gloss: copy_string(&c.gloss),
                    render: form_en(&c.formula),
                    back: copy_string(&c.back),
                    weight: c.weight,
                    active: c.active,
                    defeasible: c.defeasible,
                },
            );
            i = i + 1;
        }
        Meta {
            claims,
            vocab: self.registry_view(),
            bool_atoms: self.bool_atoms(),
            ground_atoms: self.ground_atoms(),
        }
    }
}

} // verus!
