//! The world-model: vocabulary plus the claim trajectory, and the
//! solver scripts compiled from it.
use vstd::prelude::*;
use crate::ir::{Sig, Term, Formula, QVar, Claim, Ingest};
use crate::symtab::SortedMap;
use crate::smt::{form_sexp, push_form_smt};
use crate::text::{join, lemma_join_push, nat_text, push_nat, push_joined, copy_string};

verus! {

/// The vocabulary (user sorts, predicate and function signatures keyed
/// by name, the order they were declared in) and the claims.
pub struct Core {
    pub sorts: Vec<String>,
    pub preds: SortedMap<Sig>,
    pub funcs: SortedMap<Sig>,
    /// `('p', name)` or `('f', name)` per declaration, oldest first.
    pub decl_order: Vec<(char, String)>,
    pub claims: Vec<Claim>,
}

/// The pieces laid end to end.
pub open spec fn concat(parts: Seq<Seq<char>>) -> Seq<char> {
    join(parts, Seq::empty())
}

pub proof fn lemma_concat_push(parts: Seq<Seq<char>>, x: Seq<char>)
    ensures
        concat(parts.push(x)) == concat(parts) + x,
{
    lemma_join_push(parts, Seq::empty(), x);
    if parts.len() == 0 {
        assert(concat(parts) =~= Seq::<char>::empty());
        assert(concat(parts) + x =~= x);
    } else {
        assert(concat(parts) + Seq::<char>::empty() =~= concat(parts));
    }
}

/// The active claims, in trajectory order.
pub open spec fn actives(cs: Seq<Claim>) -> Seq<Claim>
    decreases cs.len(),
{
    if cs.len() == 0 {
        Seq::empty()
    } else if cs.last().active {
        actives(cs.drop_last()).push(cs.last())
    } else {
        actives(cs.drop_last())
    }
}

/// Positions of the active claims, in trajectory order.
pub open spec fn active_positions(cs: Seq<Claim>) -> Seq<usize>
    decreases cs.len(),
{
    if cs.len() == 0 {
        Seq::empty()
    } else if cs.last().active {
        active_positions(cs.drop_last()).push((cs.len() - 1) as usize)
    } else {
        active_positions(cs.drop_last())
    }
}

/// Ids of the active claims, in trajectory order.
pub open spec fn active_ids(cs: Seq<Claim>) -> Seq<Seq<char>> {
    actives(cs).map_values(|c: Claim| c.id@)
}

pub proof fn lemma_actives_step(cs: Seq<Claim>, i: int)
    requires
        0 <= i < cs.len(),
    ensures
        actives(cs.take(i + 1)) == if cs[i].active {
            actives(cs.take(i)).push(cs[i])
        } else {
            actives(cs.take(i))
        },
        active_positions(cs.take(i + 1)) == if cs[i].active {
            active_positions(cs.take(i)).push(i as usize)
        } else {
            active_positions(cs.take(i))
        },
{
    assert(cs.take(i + 1).drop_last() =~= cs.take(i));
}

/// One text piece per active claim, laid end to end.
pub open spec fn per_active(cs: Seq<Claim>, piece: spec_fn(Claim) -> Seq<char>) -> Seq<char> {
    concat(actives(cs).map_values(piece))
}

pub proof fn lemma_per_active_step(cs: Seq<Claim>, piece: spec_fn(Claim) -> Seq<char>, i: int)
    requires
        0 <= i < cs.len(),
    ensures
        per_active(cs.take(i + 1), piece) == if cs[i].active {
            per_active(cs.take(i), piece) + piece(cs[i])
        } else {
            per_active(cs.take(i), piece)
        },
{
    lemma_actives_step(cs, i);
    if cs[i].active {
        assert(actives(cs.take(i)).push(cs[i]).map_values(piece) =~= actives(cs.take(i)).map_values(
            piece,
        ).push(piece(cs[i])));
        lemma_concat_push(actives(cs.take(i)).map_values(piece), piece(cs[i]));
    }
}

/// `(declare-sort S 0)` for one user sort.
pub open spec fn sort_decl(so: Seq<char>) -> Seq<char> {
    "(declare-sort "@ + so + " 0)\n"@
}

/// The declaration of one entry of the declaration order, or nothing
/// when its name has no signature of that kind.
pub open spec fn decl_line(kind: char, name: Seq<char>, preds: SortedMap<Sig>, funcs: SortedMap<Sig>) -> Seq<char> {
    if kind == 'p' {
        match preds.lookup(name) {
            Some(p) => "(declare-fun "@ + p.name@ + " ("@ + join(p.args.deep_view(), " "@) + ") Bool)\n"@,
            None => Seq::empty(),
        }
    } else {
        match funcs.lookup(name) {
            Some(f) => "(declare-fun "@ + f.name@ + " ("@ + join(f.args.deep_view(), " "@) + ") "@
                + match f.ret {
                Some(r) => r@,
                None => "Bool"@,
            } + ")\n"@,
            None => Seq::empty(),
        }
    }
}

/// The declarations of a core: its sorts, then its symbols in
/// declaration order.
pub open spec fn decls_text(c: Core) -> Seq<char> {
    concat(c.sorts@.map_values(|so: String| sort_decl(so@))) + concat(
        c.decl_order@.map_values(|e: (char, String)| decl_line(e.0, e.1@, c.preds, c.funcs)),
    )
}

/// `(assert F)` for a claim.
pub open spec fn assert_line(c: Claim) -> Seq<char> {
    "(assert "@ + form_sexp(c.formula) + ")\n"@
}

/// `(assert (! F :named id))` for a claim.
pub open spec fn named_assert_line(c: Claim) -> Seq<char> {
    "(assert (! "@ + form_sexp(c.formula) + " :named "@ + c.id@ + "))\n"@
}

/// The assumption literal of a claim and the guarded assertion.
pub open spec fn assumption_lines(c: Claim) -> Seq<char> {
    "(declare-const a_"@ + c.id@ + " Bool)\n"@ + "(assert (=> a_"@ + c.id@ + " "@ + form_sexp(c.formula)
        + "))\n"@
}

/// The entrenchment the repair search uses for a claim: its weight, at
/// least 1.
pub open spec fn entrenchment(c: Claim) -> int {
    if c.weight < 1 {
        1
    } else {
        c.weight as int
    }
}

/// The soft-assertion block of one claim in a weighted MaxSMT script.
pub open spec fn maxsmt_lines(c: Claim) -> Seq<char> {
    "(declare-const sel_"@ + c.id@ + " Bool)\n"@ + "(assert (= sel_"@ + c.id@ + " "@ + form_sexp(
        c.formula,
    ) + "))\n"@ + "(assert-soft sel_"@ + c.id@ + " :weight "@ + nat_text(entrenchment(c) as nat)
        + " :id W)\n"@
}

/// The literal `a_<id>` for each id.
pub open spec fn assumption_literals(ids: Seq<Seq<char>>) -> Seq<Seq<char>> {
    ids.map_values(|id: Seq<char>| "a_"@ + id)
}


/// The kinds of per-claim script lines.
#[derive(Clone, Copy)]
pub enum LineKind {
    Assert,
    Named,
    Assumption,
    StrictAssert,
}

/// The line(s) of one kind for a claim.
pub open spec fn claim_lines(kind: LineKind, c: Claim) -> Seq<char> {
    match kind {
        LineKind::Assert => assert_line(c),
        LineKind::Named => named_assert_line(c),
        LineKind::Assumption => assumption_lines(c),
        LineKind::StrictAssert => if c.defeasible {
            Seq::empty()
        } else {
            assert_line(c)
        },
    }
}

/// The lines of one kind for every active claim.
pub open spec fn active_lines(kind: LineKind, cs: Seq<Claim>) -> Seq<char> {
    per_active(cs, |c: Claim| claim_lines(kind, c))
}

/// Consistency check of the active claims, no core.
pub open spec fn check_script(c: Core) -> Seq<char> {
    "(set-logic ALL)\n"@ + decls_text(c) + active_lines(LineKind::Assert, c.claims@)
        + "(check-sat)\n"@
}

/// Consistency check with named assertions and an unsat core.
pub open spec fn core_script(c: Core) -> Seq<char> {
    "(set-option :produce-unsat-cores true)\n(set-logic ALL)\n"@ + decls_text(c) + active_lines(
        LineKind::Named,
        c.claims@,
    ) + "(check-sat)\n(get-unsat-core)\n"@
}

/// The active claims together with the negation of `f`: unsat exactly
/// when the claims entail `f`.
pub open spec fn entails_script(c: Core, f: Formula) -> Seq<char> {
    "(set-logic ALL)\n"@ + decls_text(c) + active_lines(LineKind::Assert, c.claims@)
        + "(assert (not "@ + form_sexp(f) + "))\n(check-sat)\n"@
}

/// Every active claim behind its assumption literal, tested under
/// exactly the literals of `ids`.
pub open spec fn assume_script(c: Core, ids: Seq<Seq<char>>) -> Seq<char> {
    "(set-option :produce-unsat-cores true)\n(set-logic ALL)\n"@ + decls_text(c) + active_lines(
        LineKind::Assumption,
        c.claims@,
    ) + "(check-sat-assuming ("@ + join(assumption_literals(ids), " "@)
        + "))\n(get-unsat-core)\n"@
}

/// As `assume_script`, with the negation of `probe` asserted as well.
pub open spec fn entail_assume_script(c: Core, probe: Formula, ids: Seq<Seq<char>>) -> Seq<char> {
    "(set-option :produce-unsat-cores true)\n(set-logic ALL)\n"@ + decls_text(c) + active_lines(
        LineKind::Assumption,
        c.claims@,
    ) + "(assert (not "@ + form_sexp(probe) + "))\n"@ + "(check-sat-assuming ("@ + join(
        assumption_literals(ids),
        " "@,
    ) + "))\n(get-unsat-core)\n"@
}

/// Whether, given the strict active claims, `pa` holding of a fresh
/// constant of `sort` forces `pb` of it: unsat exactly when `pa` is at
/// least as specific as `pb`.
pub open spec fn more_specific_script(c: Core, pa: Seq<char>, pb: Seq<char>, sort: Seq<char>) -> Seq<char> {
    "(set-logic ALL)\n"@ + decls_text(c) + active_lines(LineKind::StrictAssert, c.claims@)
        + "(declare-const __k "@ + sort + ")\n"@ + "(assert ("@ + pa + " __k))\n"@
        + "(assert (not ("@ + pb + " __k)))\n"@ + "(check-sat)\n"@
}

/// A weighted MaxSMT script over the claims at `idxs`, with extra hard
/// clauses, that reports which selectors the optimum keeps.
pub open spec fn maxsmt_script(c: Core, idxs: Seq<usize>, extra_hard: Seq<Seq<char>>) -> Seq<char> {
    "(set-logic ALL)\n"@ + decls_text(c) + concat(idxs.map_values(|i: usize| maxsmt_lines(c.claims@[i as int])))
        + concat(extra_hard.map_values(|h: Seq<char>| "(assert "@ + h + ")\n"@))
        + "(check-sat)\n(get-value ("@ + join(
        idxs.map_values(|i: usize| "sel_"@ + c.claims@[i as int].id@),
        " "@,
    ) + "))\n"@
}

impl Core {
    /// Holds when both signature tables are sorted by name.
    pub open spec fn wf(self) -> bool {
        self.preds.wf() && self.funcs.wf()
    }

    /// Whether both signature tables are sorted by name.
    pub fn check_wf(&self) -> (r: bool)
        ensures
            r == self.wf(),
    {
        self.preds.check_wf() && self.funcs.check_wf()
    }

    /// An empty world-model.
    pub fn new() -> (r: Core)
        ensures
            r.wf(),
            r.sorts@.len() == 0,
            r.preds.len() == 0,
            r.funcs.len() == 0,
            r.decl_order@.len() == 0,
            r.claims@.len() == 0,
    {
        Core {
            sorts: Vec::new(),
            preds: SortedMap::new(),
            funcs: SortedMap::new(),
            decl_order: Vec::new(),
            claims: Vec::new(),
        }
    }

    /// Appends the declaration for one entry of the declaration order.
    fn push_decl_line(&self, out: &mut String, kind: char, name: &String)
        requires
            self.wf(),
        ensures
            final(out)@ == old(out)@ + decl_line(kind, name@, self.preds, self.funcs),
    {
        let ghost before = out@;
        if kind == 'p' {
            match self.preds.get(name.as_str()) {
                Some(p) => {
                    out.append("(declare-fun ");
                    out.append(p.name.as_str());
                    out.append(" (");
                    push_joined(out, &p.args, " ");
                    out.append(") Bool)\n");
                },
                None => {
                    assert(out@ =~= before + Seq::<char>::empty());
                },
            }
        } else {
            match self.funcs.get(name.as_str()) {
                Some(f) => {
                    out.append("(declare-fun ");
                    out.append(f.name.as_str());
                    out.append(" (");
                    push_joined(out, &f.args, " ");
                    out.append(") ");
                    match &f.ret {
                        Some(r) => out.append(r.as_str()),
                        None => out.append("Bool"),
                    }
                    out.append(")\n");
                },
                None => {
                    assert(out@ =~= before + Seq::<char>::empty());
                },
            }
        }
    }

    /// Appends the sort and symbol declarations.
    pub fn push_decls(&self, out: &mut String)
        requires
            self.wf(),
        ensures
            final(out)@ == old(out)@ + decls_text(*self),
    {
        let ghost start = out@;
        let ghost sd = self.sorts@.map_values(|so: String| sort_decl(so@));
        let mut i: usize = 0;
        while i < self.sorts.len()
            invariant
                i <= self.sorts.len(),
                sd == self.sorts@.map_values(|so: String| sort_decl(so@)),
                out@ == start + concat(sd.take(i as int)),
            decreases self.sorts.len() - i,
        {
            proof {
                lemma_concat_push(sd.take(i as int), sd[i as int]);
                assert(sd.take(i as int).push(sd[i as int]) =~= sd.take(i + 1));
            }
            out.append("(declare-sort ");
            out.append(self.sorts[i].as_str());
            out.append(" 0)\n");
            i = i + 1;
        }
        assert(sd.take(i as int) =~= sd);
        let ghost mid = out@;
        let ghost dl = self.decl_order@.map_values(
            |e: (char, String)| decl_line(e.0, e.1@, self.preds, self.funcs),
        );
        let mut j: usize = 0;
        while j < self.decl_order.len()
            invariant
                j <= self.decl_order.len(),
                self.wf(),
                dl == self.decl_order@.map_values(
                    |e: (char, String)| decl_line(e.0, e.1@, self.preds, self.funcs),
                ),
                out@ == mid + concat(dl.take(j as int)),
            decreases self.decl_order.len() - j,
        {
            proof {
                lemma_concat_push(dl.take(j as int), dl[j as int]);
                assert(dl.take(j as int).push(dl[j as int]) =~= dl.take(j + 1));
            }
            self.push_decl_line(out, self.decl_order[j].0, &self.decl_order[j].1);
            j = j + 1;
        }
        assert(dl.take(j as int) =~= dl);
    }

    /// The sort and symbol declarations as a script fragment.
    pub fn decls_smt(&self) -> (r: String)
        requires
            self.wf(),
        ensures
            r@ == decls_text(*self),
    {
        let mut s = String::new();
        self.push_decls(&mut s);
        s
    }


    fn push_claim_lines(&self, out: &mut String, kind: LineKind, c: &Claim)
        ensures
            final(out)@ == old(out)@ + claim_lines(kind, *c),
    {
        match kind {
            LineKind::Assert => {
                out.append("(assert ");
                push_form_smt(out, &c.formula);
                out.append(")\n");
            },
            LineKind::Named => {
                out.append("(assert (! ");
                push_form_smt(out, &c.formula);
                out.append(" :named ");
                out.append(c.id.as_str());
                out.append("))\n");
            },
            LineKind::Assumption => {
                out.append("(declare-const a_");
                out.append(c.id.as_str());
                out.append(" Bool)\n");
                out.append("(assert (=> a_");
                out.append(c.id.as_str());
                out.append(" ");
                push_form_smt(out, &c.formula);
                out.append("))\n");
            },
            LineKind::StrictAssert => {
                if !c.defeasible {
                    out.append("(assert ");
                    push_form_smt(out, &c.formula);
                    out.append(")\n");
                } else {
                    assert(out@ =~= old(out)@ + Seq::<char>::empty());
                }
            },
        }
    }

    /// Appends the lines of one kind for every active claim.
    pub fn push_active_lines(&self, out: &mut String, kind: LineKind)
        ensures
            final(out)@ == old(out)@ + active_lines(kind, self.claims@),
    {
        let ghost start = out@;
        let ghost piece = |c: Claim| claim_lines(kind, c);
        let mut i: usize = 0;
        proof {
            assert(actives(self.claims@.take(0)) =~= Seq::<Claim>::empty()) by {
                assert(self.claims@.take(0).len() == 0);
            }
            assert(concat(Seq::<Seq<char>>::empty()) =~= Seq::<char>::empty());
            assert(actives(self.claims@.take(0)).map_values(piece) =~= Seq::<Seq<char>>::empty());
        }
        while i < self.claims.len()
            invariant
                i <= self.claims.len(),
                piece == (|c: Claim| claim_lines(kind, c)),
                out@ == start + per_active(self.claims@.take(i as int), piece),
            decreases self.claims.len() - i,
        {
            proof {
                lemma_per_active_step(self.claims@, piece, i as int);
            }
            let c = &self.claims[i];
            if c.active {
                self.push_claim_lines(out, kind, c);
            }
            i = i + 1;
        }
        assert(self.claims@.take(i as int) =~= self.claims@);
    }

    /// `(set-logic ALL)`, the declarations, every active claim asserted,
    /// `(check-sat)`.
    pub fn smt_check(&self) -> (r: String)
        requires
            self.wf(),
        ensures
            r@ == check_script(*self),
    {
        let mut s = String::new();
        s.append("(set-logic ALL)\n");
        self.push_decls(&mut s);
        self.push_active_lines(&mut s, LineKind::Assert);
        s.append("(check-sat)\n");
        s
    }

    /// The check with named assertions and `(get-unsat-core)`.
    pub fn smt_core(&self) -> (r: String)
        requires
            self.wf(),
        ensures
            r@ == core_script(*self),
    {
        let mut s = String::new();
        s.append("(set-option :produce-unsat-cores true)\n(set-logic ALL)\n");
        self.push_decls(&mut s);
        self.push_active_lines(&mut s, LineKind::Named);
        s.append("(check-sat)\n(get-unsat-core)\n");
        s
    }

    /// The active claims with `f` negated: unsat when they force `f`.
    pub fn smt_entails(&self, f: &Formula) -> (r: String)
        requires
            self.wf(),
        ensures
            r@ == entails_script(*self, *f),
    {
        let mut s = String::new();
        s.append("(set-logic ALL)\n");
        self.push_decls(&mut s);
        self.push_active_lines(&mut s, LineKind::Assert);
        s.append("(assert (not ");
        push_form_smt(&mut s, f);
        s.append("))\n(check-sat)\n");
        s
    }

    fn push_assuming(out: &mut String, ids: &Vec<String>)
        ensures
            final(out)@ == old(out)@ + "(check-sat-assuming ("@ + join(assumption_literals(ids.deep_view()), " "@)
                + "))\n(get-unsat-core)\n"@,
    {
        out.append("(check-sat-assuming (");
        let ghost start = out@;
        let ghost lits = assumption_literals(ids.deep_view());
        let mut i: usize = 0;
        while i < ids.len()
            invariant
                i <= ids.len(),
                lits == assumption_literals(ids.deep_view()),
                out@ == start + join(lits.take(i as int), " "@),
            decreases ids.len() - i,
        {
            proof {
                lemma_join_push(lits.take(i as int), " "@, lits[i as int]);
                assert(lits.take(i as int).push(lits[i as int]) =~= lits.take(i + 1));
            }
            if i > 0 {
                out.append(" ");
            }
            out.append("a_");
            out.append(ids[i].as_str());
            i = i + 1;
        }
        assert(lits.take(i as int) =~= lits);
        out.append("))\n(get-unsat-core)\n");
    }

    /// Declares an assumption literal per active claim and tests exactly
    /// the literals of `assume_ids`.
    pub fn smt_assume(&self, assume_ids: &Vec<String>) -> (r: String)
        requires
            self.wf(),
        ensures
            r@ == assume_script(*self, assume_ids.deep_view()),
    {
        let mut s = String::new();
        s.append("(set-option :produce-unsat-cores true)\n(set-logic ALL)\n");
        self.push_decls(&mut s);
        self.push_active_lines(&mut s, LineKind::Assumption);
        Self::push_assuming(&mut s, assume_ids);
        s
    }

    /// As `smt_assume`, with the negation of `probe` asserted too: unsat
    /// when the claims of `assume_ids` force `probe`.
    pub fn smt_entail_assume(&self, probe: &Formula, assume_ids: &Vec<String>) -> (r: String)
        requires
            self.wf(),
        ensures
            r@ == entail_assume_script(*self, *probe, assume_ids.deep_view()),
    {
        let mut s = String::new();
        s.append("(set-option :produce-unsat-cores true)\n(set-logic ALL)\n");
        self.push_decls(&mut s);
        self.push_active_lines(&mut s, LineKind::Assumption);
        s.append("(assert (not ");
        push_form_smt(&mut s, probe);
        s.append("))\n");
        Self::push_assuming(&mut s, assume_ids);
        s
    }

    /// Whether, under the strict claims, `pa` is at least as specific as
    /// `pb` on `sort`.
    pub fn smt_more_specific(&self, pa: &str, pb: &str, sort: &str) -> (r: String)
        requires
            self.wf(),
        ensures
            r@ == more_specific_script(*self, pa@, pb@, sort@),
    {
        let mut s = String::new();
        s.append("(set-logic ALL)\n");
        self.push_decls(&mut s);
        self.push_active_lines(&mut s, LineKind::StrictAssert);
        s.append("(declare-const __k ");
        s.append(sort);
        s.append(")\n");
        s.append("(assert (");
        s.append(pa);
        s.append(" __k))\n");
        s.append("(assert (not (");
        s.append(pb);
        s.append(" __k)))\n");
        s.append("(check-sat)\n");
        s
    }

    fn push_maxsmt_lines(s: &mut String, c: &Claim)
        ensures
            final(s)@ == old(s)@ + maxsmt_lines(*c),
    {
        s.append("(declare-const sel_");
        s.append(c.id.as_str());
        s.append(" Bool)\n");
        s.append("(assert (= sel_");
        s.append(c.id.as_str());
        s.append(" ");
        push_form_smt(s, &c.formula);
        s.append("))\n");
        s.append("(assert-soft sel_");
        s.append(c.id.as_str());
        s.append(" :weight ");
        let w: u64 = if c.weight < 1 { 1 } else { c.weight as u64 };
        push_nat(s, w);
        s.append(" :id W)\n");
    }

    /// A weighted MaxSMT script: each claim at `idxs` behind a selector
    /// that is soft-asserted with the claim's entrenchment, plus the
    /// `extra_hard` clauses; reports the selectors' values.
    pub fn smt_maxsmt(&self, idxs: &Vec<usize>, extra_hard: &Vec<String>) -> (r: String)
        requires
            self.wf(),
            forall|k: int| 0 <= k < idxs@.len() ==> #[trigger] idxs@[k] < self.claims@.len(),
        ensures
            r@ == maxsmt_script(*self, idxs@, extra_hard.deep_view()),
    {
        let mut s = String::new();
        s.append("(set-logic ALL)\n");
        self.push_decls(&mut s);
        let ghost a = s@;
        let ghost ml = idxs@.map_values(|i: usize| maxsmt_lines(self.claims@[i as int]));
        let mut k: usize = 0;
        while k < idxs.len()
            invariant
                k <= idxs.len(),
                forall|k: int| 0 <= k < idxs@.len() ==> #[trigger] idxs@[k] < self.claims@.len(),
                ml == idxs@.map_values(|i: usize| maxsmt_lines(self.claims@[i as int])),
                s@ == a + concat(ml.take(k as int)),
            decreases idxs.len() - k,
        {
            proof {
                lemma_concat_push(ml.take(k as int), ml[k as int]);
                assert(ml.take(k as int).push(ml[k as int]) =~= ml.take(k + 1));
            }
            Self::push_maxsmt_lines(&mut s, &self.claims[idxs[k]]);
            k = k + 1;
        }
        assert(ml.take(k as int) =~= ml);
        let ghost b = s@;
        let ghost hl = extra_hard.deep_view().map_values(|h: Seq<char>| "(assert "@ + h + ")\n"@);
        let mut j: usize = 0;
        while j < extra_hard.len()
            invariant
                j <= extra_hard.len(),
                hl == extra_hard.deep_view().map_values(|h: Seq<char>| "(assert "@ + h + ")\n"@),
                s@ == b + concat(hl.take(j as int)),
            decreases extra_hard.len() - j,
        {
            proof {
                lemma_concat_push(hl.take(j as int), hl[j as int]);
                assert(hl.take(j as int).push(hl[j as int]) =~= hl.take(j + 1));
            }
            s.append("(assert ");
            s.append(extra_hard[j].as_str());
            s.append(")\n");
            j = j + 1;
        }
        assert(hl.take(j as int) =~= hl);
        s.append("(check-sat)\n(get-value (");
        let ghost c0 = s@;
        let ghost sl = idxs@.map_values(|i: usize| "sel_"@ + self.claims@[i as int].id@);
        let mut m: usize = 0;
        while m < idxs.len()
            invariant
                m <= idxs.len(),
                forall|k: int| 0 <= k < idxs@.len() ==> #[trigger] idxs@[k] < self.claims@.len(),
                sl == idxs@.map_values(|i: usize| "sel_"@ + self.claims@[i as int].id@),
                s@ == c0 + join(sl.take(m as int), " "@),
            decreases idxs.len() - m,
        {
            proof {
                lemma_join_push(sl.take(m as int), " "@, sl[m as int]);
                assert(sl.take(m as int).push(sl[m as int]) =~= sl.take(m + 1));
            }
            if m > 0 {
                s.append(" ");
            }
            s.append("sel_");
            s.append(self.claims[idxs[m]].id.as_str());
            m = m + 1;
        }
        assert(sl.take(m as int) =~= sl);
        s.append("))\n");
        s
    }

    /// Positions of the active claims.
    pub fn active(&self) -> (r: Vec<usize>)
        ensures
            r@ == active_positions(self.claims@),
    {
        let mut r: Vec<usize> = Vec::new();
        let mut i: usize = 0;
        while i < self.claims.len()
            invariant
                i <= self.claims.len(),
                r@ == active_positions(self.claims@.take(i as int)),
            decreases self.claims.len() - i,
        {
            proof {
                lemma_actives_step(self.claims@, i as int);
            }
            if self.claims[i].active {
                r.push(i);
            }
            i = i + 1;
        }
        assert(self.claims@.take(i as int) =~= self.claims@);
        r
    }

    /// Ids of the active claims.
    pub fn active_ids(&self) -> (r: Vec<String>)
        ensures
            r.deep_view() == active_ids(self.claims@),
    {
        let mut r: Vec<String> = Vec::new();
        let mut i: usize = 0;
        while i < self.claims.len()
            invariant
                i <= self.claims.len(),
                r@.len() == actives(self.claims@.take(i as int)).len(),
                forall|j: int| 0 <= j < r@.len() ==> #[trigger] r@[j]@ == actives(self.claims@.take(i as int))[j].id@,
            decreases self.claims.len() - i,
        {
            proof {
                lemma_actives_step(self.claims@, i as int);
            }
            if self.claims[i].active {
                let c = &self.claims[i];
                let id = copy_string(&c.id);
                r.push(id);
            }
            i = i + 1;
        }
        assert(self.claims@.take(i as int) =~= self.claims@);
        assert(r.deep_view() =~= active_ids(self.claims@));
        r
    }
}

} // verus!
