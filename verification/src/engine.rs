//! The engine a user interface drives: one world-model and, at most one
//! of each, the step machines for analysis, the coherence lattice,
//! explanation witnesses and the defeasible reading. Each machine is
//! begun, asked for its next script, fed the solver's answer, and read.
use vstd::prelude::*;
use crate::ir::{Formula, Claim, Ingest};
use crate::world::{Core, active_ids};
use crate::ingest::{find_id, find_claim, ingest_errors, ingest_effect};
use crate::meta::{Meta, meta_of};
use crate::vocab::{prompt_text, elicitation_text, triage_text};
use crate::seeds::{demo_batch_is, scenario_batch_is};
use crate::analysis::{Driver, driver_wf, analysis_step, analysis_answer_ok, analysis_script, PhaseView};
use crate::lattice::{Lattice, LatOut, lattice_wf, lattice_step, lattice_script, MPhaseView};
use crate::witness::{WitnessDriver, witness_wf, witness_step, witness_script, WPhaseView};
use crate::defeasible::{DefeasibleDriver, defeasible_wf, defeasible_step, defeasible_script, DPhaseView};
use crate::world::{check_script, core_script, entails_script};
use crate::text::str_eq;

verus! {

/// The claims with the first claim named `id` switched on or off.
pub open spec fn set_active(cs: Seq<Claim>, id: Seq<char>, a: bool) -> Seq<Claim> {
    let j = find_id(cs, id);
    if j >= 0 {
        cs.update(j, Claim { active: a, ..cs[j] })
    } else {
        cs
    }
}

/// The claims with the first claim named `id` marked a default or not.
pub open spec fn set_defeasible(cs: Seq<Claim>, id: Seq<char>, d: bool) -> Seq<Claim> {
    let j = find_id(cs, id);
    if j >= 0 {
        cs.update(j, Claim { defeasible: d, ..cs[j] })
    } else {
        cs
    }
}

/// A weight raised to at least 1.
pub open spec fn at_least_one(w: i64) -> i64 {
    if w < 1 {
        1
    } else {
        w
    }
}

/// The claims with the first claim named `id` given weight `w` (at
/// least 1).
pub open spec fn set_weight(cs: Seq<Claim>, id: Seq<char>, w: i64) -> Seq<Claim> {
    let j = find_id(cs, id);
    if j >= 0 {
        cs.update(j, Claim { weight: at_least_one(w), ..cs[j] })
    } else {
        cs
    }
}

/// The claims without any claim named `id`, the rest in order.
pub open spec fn without_id(cs: Seq<Claim>, id: Seq<char>) -> Seq<Claim>
    decreases cs.len(),
{
    if cs.len() == 0 {
        Seq::empty()
    } else if cs.last().id@ == id {
        without_id(cs.drop_last(), id)
    } else {
        without_id(cs.drop_last(), id).push(cs.last())
    }
}

/// Switching to a parsed branch: taken exactly when one was read and its
/// tables are sorted, and then it is the world-model; otherwise the
/// world-model stays.
pub open spec fn import_outcome(pre: Core, post: Core, parsed: Option<Core>, ok: bool) -> bool {
    &&& ok == (parsed matches Some(c) && c.wf())
    &&& ok ==> parsed == Some(post)
    &&& !ok ==> post == pre
}

/// The engine: a world-model and the step machines begun on it.
pub struct WmtEngine {
    pub core: Core,
    pub drv: Option<Driver>,
    pub lat: Option<Lattice>,
    pub wit: Option<WitnessDriver>,
    pub dfz: Option<DefeasibleDriver>,
}

impl WmtEngine {
    /// The world-model's tables are sorted and every machine is in a
    /// state it can step from.
    pub open spec fn wf(&self) -> bool {
        &&& self.core.wf()
        &&& (self.drv matches Some(d) ==> driver_wf(d@))
        &&& (self.lat matches Some(l) ==> lattice_wf(l@))
        &&& (self.wit matches Some(w) ==> witness_wf(w@))
        &&& (self.dfz matches Some(d) ==> d.ant.wf() && defeasible_wf(d@))
    }

    /// Only the claims changed, and no machine.
    pub open spec fn claims_changed(&self, pre: &WmtEngine, cs: Seq<Claim>) -> bool {
        &&& self.core.claims@ == cs
        &&& self.core.sorts == pre.core.sorts
        &&& self.core.preds == pre.core.preds
        &&& self.core.funcs == pre.core.funcs
        &&& self.core.decl_order == pre.core.decl_order
        &&& self.drv == pre.drv
        &&& self.lat == pre.lat
        &&& self.wit == pre.wit
        &&& self.dfz == pre.dfz
    }

    /// An empty world-model and no machine begun.
    pub fn new() -> (r: WmtEngine)
        ensures
            r.wf(),
            r.core.sorts@.len() == 0,
            r.core.preds.len() == 0,
            r.core.funcs.len() == 0,
            r.core.decl_order@.len() == 0,
            r.core.claims@.len() == 0,
            r.drv is None,
            r.lat is None,
            r.wit is None,
            r.dfz is None,
    {
        WmtEngine { core: Core::new(), drv: None, lat: None, wit: None, dfz: None }
    }

    /// Folds a batch in (see `Core::ingest`): whether it was accepted,
    /// the reasons it was refused, and the world-model shown afterwards.
    pub fn ingest(&mut self, ing: Ingest) -> (r: (bool, Vec<String>, Meta))
        requires
            old(self).wf(),
        ensures
            final(self).wf(),
            r.1.deep_view() == ingest_errors(ing),
            r.0 == (ingest_errors(ing).len() == 0),
            !r.0 ==> final(self).core == old(self).core,
            r.0 ==> ingest_effect(old(self).core, final(self).core, ing),
            meta_of(r.2, final(self).core),
            final(self).drv == old(self).drv,
            final(self).lat == old(self).lat,
            final(self).wit == old(self).wit,
            final(self).dfz == old(self).dfz,
    {
        let (ok, errs) = self.core.ingest(ing);
        (ok, errs, self.core.meta())
    }

    /// Switches off the first claim named `id` (nothing happens when
    /// there is none) and shows the world-model.
    pub fn retract(&mut self, id: &str) -> (r: Meta)
        requires
            old(self).wf(),
        ensures
            final(self).wf(),
            final(self).claims_changed(old(self), set_active(old(self).core.claims@, id@, false)),
            meta_of(r, final(self).core),
    {
        match find_claim(&self.core.claims, id) {
            Some(j) => {
                let c = self.core.claims.remove(j);
                let c2 = Claim { active: false, ..c };
                self.core.claims.insert(j, c2);
                assert(self.core.claims@ =~= set_active(old(self).core.claims@, id@, false));
            },
            None => {},
        }
        self.core.meta()
    }

    /// Switches the first claim named `id` back on and shows the
    /// world-model.
    pub fn reactivate(&mut self, id: &str) -> (r: Meta)
        requires
            old(self).wf(),
        ensures
            final(self).wf(),
            final(self).claims_changed(old(self), set_active(old(self).core.claims@, id@, true)),
            meta_of(r, final(self).core),
    {
        match find_claim(&self.core.claims, id) {
            Some(j) => {
                let c = self.core.claims.remove(j);
                let c2 = Claim { active: true, ..c };
                self.core.claims.insert(j, c2);
                assert(self.core.claims@ =~= set_active(old(self).core.claims@, id@, true));
            },
            None => {},
        }
        self.core.meta()
    }

    /// Deletes every claim named `id` and shows the world-model.
    pub fn remove(&mut self, id: &str) -> (r: Meta)
        requires
            old(self).wf(),
        ensures
            final(self).wf(),
            final(self).claims_changed(old(self), without_id(old(self).core.claims@, id@)),
            meta_of(r, final(self).core),
    {
        let ghost cs = self.core.claims@;
        let mut kept: Vec<Claim> = Vec::new();
        let mut rest: Vec<Claim> = Vec::new();
        std::mem::swap(&mut rest, &mut self.core.claims);
        let mut k: usize = 0;
        let n = rest.len();
        proof {
            assert(cs.take(0) =~= Seq::<Claim>::empty());
        }
        while rest.len() > 0
            invariant
                k + rest@.len() == n,
                n == cs.len(),
                rest@ == cs.skip(k as int),
                kept@ == without_id(cs.take(k as int), id@),
            decreases rest.len(),
        {
            let c = rest.remove(0);
            proof {
                assert(c == cs[k as int]);
                assert(cs.take(k + 1).drop_last() =~= cs.take(k as int));
                assert(cs.take(k + 1).last() == cs[k as int]);
                assert(rest@ =~= cs.skip(k + 1));
            }
            if !str_eq(c.id.as_str(), id) {
                kept.push(c);
            }
            k = k + 1;
        }
        proof {
            assert(cs.take(k as int) =~= cs);
        }
        self.core.claims = kept;
        self.core.meta()
    }

    /// Gives the first claim named `id` weight `w`, raised to at least 1,
    /// and shows the world-model.
    pub fn set_weight(&mut self, id: &str, w: i64) -> (r: Meta)
        requires
            old(self).wf(),
        ensures
            final(self).wf(),
            final(self).claims_changed(old(self), set_weight(old(self).core.claims@, id@, w)),
            meta_of(r, final(self).core),
    {
        match find_claim(&self.core.claims, id) {
            Some(j) => {
                let c = self.core.claims.remove(j);
                let c2 = Claim {
                    weight: if w < 1 {
                        1
                    } else {
                        w
                    },
                    ..c
                };
                self.core.claims.insert(j, c2);
                assert(self.core.claims@ =~= set_weight(old(self).core.claims@, id@, w));
            },
            None => {},
        }
        self.core.meta()
    }

    /// Marks the first claim named `id` a default (or strict) and shows
    /// the world-model.
    pub fn set_defeasible(&mut self, id: &str, d: bool) -> (r: Meta)
        requires
            old(self).wf(),
        ensures
            final(self).wf(),
            final(self).claims_changed(old(self), set_defeasible(old(self).core.claims@, id@, d)),
            meta_of(r, final(self).core),
    {
        match find_claim(&self.core.claims, id) {
            Some(j) => {
                let c = self.core.claims.remove(j);
                let c2 = Claim { defeasible: d, ..c };
                self.core.claims.insert(j, c2);
                assert(self.core.claims@ =~= set_defeasible(old(self).core.claims@, id@, d));
            },
            None => {},
        }
        self.core.meta()
    }

    /// The world-model shown.
    pub fn meta(&self) -> (r: Meta)
        requires
            self.wf(),
        ensures
            meta_of(r, self.core),
    {
        self.core.meta()
    }

    /// Folds the penguin world-model in and shows the result.
    pub fn seed_demo(&mut self) -> (r: Meta)
        requires
            old(self).wf(),
        ensures
            final(self).wf(),
            exists|b: Ingest| demo_batch_is(b) && ingest_effect(old(self).core, final(self).core, b),
            meta_of(r, final(self).core),
            final(self).drv == old(self).drv,
            final(self).lat == old(self).lat,
            final(self).wit == old(self).wit,
            final(self).dfz == old(self).dfz,
    {
        self.core.seed_demo();
        self.core.meta()
    }

    /// Folds the project-status world-model in and shows the result.
    pub fn seed_scenario(&mut self) -> (r: Meta)
        requires
            old(self).wf(),
        ensures
            final(self).wf(),
            exists|b: Ingest| scenario_batch_is(b) && ingest_effect(old(self).core, final(self).core, b),
            meta_of(r, final(self).core),
            final(self).drv == old(self).drv,
            final(self).lat == old(self).lat,
            final(self).wit == old(self).wit,
            final(self).dfz == old(self).dfz,
    {
        self.core.seed_scenario();
        self.core.meta()
    }

    /// Starts from nothing: an empty world-model and no machine.
    pub fn reset(&mut self) -> (r: Meta)
        requires
            old(self).wf(),
        ensures
            final(self).wf(),
            final(self).core.sorts@.len() == 0,
            final(self).core.preds.len() == 0,
            final(self).core.funcs.len() == 0,
            final(self).core.decl_order@.len() == 0,
            final(self).core.claims@.len() == 0,
            final(self).drv is None,
            final(self).lat is None,
            final(self).wit is None,
            final(self).dfz is None,
            meta_of(r, final(self).core),
    {
        self.core = Core::new();
        self.drv = None;
        self.lat = None;
        self.wit = None;
        self.dfz = None;
        self.core.meta()
    }

    /// The consistency-check script of the active claims.
    pub fn smt_check(&self) -> (r: String)
        requires
            self.wf(),
        ensures
            r@ == check_script(self.core),
    {
        self.core.smt_check()
    }

    /// The consistency-check script with an unsat core.
    pub fn smt_core(&self) -> (r: String)
        requires
            self.wf(),
        ensures
            r@ == core_script(self.core),
    {
        self.core.smt_core()
    }

    /// The entailment script for a parsed probe, or a script that reports
    /// why the probe could not be read.
    pub fn smt_entails_json(&self, parsed: Result<Formula, String>) -> (r: String)
        requires
            self.wf(),
        ensures
            match parsed {
                Ok(f) => r@ == entails_script(self.core, f),
                Err(e) => r@ == "; IR parse error: "@ + e@ + "\n(check-sat)\n"@,
            },
    {
        match parsed {
            Ok(f) => self.core.smt_entails(&f),
            Err(e) => {
                let mut s = String::new();
                s.append("; IR parse error: ");
                s.append(e.as_str());
                s.append("\n(check-sat)\n");
                s
            },
        }
    }

    /// The formalization prompt for `nl`.
    pub fn prompt(&self, nl: &str) -> (r: String)
        requires
            self.wf(),
        ensures
            r@ == prompt_text(self.core, nl@),
    {
        self.core.prompt(nl)
    }

    /// The prompt asking for `n` beliefs about `domain`.
    pub fn belief_elicitation_prompt(&self, domain: &str, n: u32) -> (r: String)
        requires
            self.wf(),
        ensures
            r@ == elicitation_text(self.core, domain@, n as nat),
    {
        self.core.belief_elicitation_prompt(domain, n as usize)
    }

    /// The triage prompt for a parsed list of ids (`irs[k]` is the IR
    /// text of claim `k`), or a note saying the list could not be read.
    pub fn triage_prompt_json(&self, parsed: Result<Vec<String>, String>, irs: &Vec<String>) -> (r: String)
        requires
            self.wf(),
            irs@.len() == self.core.claims@.len(),
        ensures
            match parsed {
                Ok(ids) => r@ == triage_text(self.core, irs.deep_view(), ids.deep_view()),
                Err(e) => r@ == "; bad id list: "@ + e@,
            },
    {
        match parsed {
            Ok(ids) => self.core.triage_prompt(&ids, irs),
            Err(e) => {
                let mut s = String::new();
                s.append("; bad id list: ");
                s.append(e.as_str());
                s
            },
        }
    }

    /// The whole world-model, to be saved as a branch.
    pub fn export_state(&self) -> (r: &Core)
        ensures
            *r == self.core,
    {
        &self.core
    }

    /// Switches to a saved branch when one could be read and its tables
    /// are sorted; every machine is dropped either way. Says whether the
    /// branch was taken, and shows the world-model.
    pub fn import_state(&mut self, parsed: Option<Core>) -> (r: (bool, Meta))
        requires
            old(self).wf(),
        ensures
            final(self).wf(),
            import_outcome(old(self).core, final(self).core, parsed, r.0),
            final(self).drv is None,
            final(self).lat is None,
            final(self).wit is None,
            final(self).dfz is None,
            meta_of(r.1, final(self).core),
    {
        let ok = match parsed {
            Some(c) => {
                if c.check_wf() {
                    self.core = c;
                    true
                } else {
                    false
                }
            },
            None => false,
        };
        self.drv = None;
        self.lat = None;
        self.wit = None;
        self.dfz = None;
        (ok, self.core.meta())
    }

    /// Begins an analysis of the active claims.
    pub fn analyze_begin(&mut self)
        requires
            old(self).wf(),
        ensures
            final(self).wf(),
            final(self).core == old(self).core,
            final(self).drv matches Some(d) && d@.active == active_ids(old(self).core.claims@) && d@.phase
                == PhaseView::CheckAll && d@.status.len() == 0 && d@.mus.len() == 0 && d@.repair.len() == 0
                && d@.repair_weight == 0,
            final(self).lat == old(self).lat,
            final(self).wit == old(self).wit,
            final(self).dfz == old(self).dfz,
    {
        self.drv = Some(Driver::new(&self.core));
    }

    /// The analysis's next script; empty when it is finished or was not
    /// begun.
    pub fn analyze_next(&self) -> (r: String)
        requires
            self.wf(),
        ensures
            match self.drv {
                Some(d) => match analysis_script(d@, self.core) {
                    Some(s) => r@ == s,
                    None => r@.len() == 0,
                },
                None => r@.len() == 0,
            },
    {
        match &self.drv {
            Some(d) => match d.next_script(&self.core) {
                Some(s) => s,
                None => String::new(),
            },
            None => String::new(),
        }
    }

    /// Whether the analysis can take the answer `out`.
    pub fn analyze_answer_ok(&self, out: &str) -> (r: bool)
        ensures
            r == (self.drv matches Some(d) ==> analysis_answer_ok(d@, out@)),
    {
        match &self.drv {
            Some(d) => d.answer_ok(out),
            None => true,
        }
    }

    /// Feeds the solver's answer to the analysis, if begun.
    pub fn analyze_feed(&mut self, z3_out: &str)
        requires
            old(self).wf(),
            old(self).drv matches Some(d) ==> analysis_answer_ok(d@, z3_out@),
        ensures
            final(self).wf(),
            final(self).core == old(self).core,
            match old(self).drv {
                Some(d) => final(self).drv matches Some(d2) && d2@ == analysis_step(
                    d@,
                    old(self).core.claims@,
                    z3_out@,
                ),
                None => final(self).drv is None,
            },
            final(self).lat == old(self).lat,
            final(self).wit == old(self).wit,
            final(self).dfz == old(self).dfz,
    {
        match &mut self.drv {
            Some(d) => d.feed(&self.core, z3_out),
            None => {},
        }
    }

    /// The analysis, if begun.
    pub fn analyze_result(&self) -> (r: Option<&Driver>)
        ensures
            match self.drv {
                Some(d) => r == Some(&d),
                None => r is None,
            },
    {
        match &self.drv {
            Some(d) => Some(d),
            None => None,
        }
    }

    /// Begins enumerating the coherence lattice of the active claims.
    pub fn lattice_begin(&mut self)
        requires
            old(self).wf(),
            active_ids(old(self).core.claims@).len() < 0x7fff_ffff,
        ensures
            final(self).wf(),
            final(self).core == old(self).core,
            final(self).lat matches Some(l) && l@.active == active_ids(old(self).core.claims@) && l@.phase
                == MPhaseView::CheckAll && !l@.capped && !l@.unknown && l@.map.len() == 0 && l@.muses.len()
                == 0 && l@.mcses.len() == 0,
            final(self).drv == old(self).drv,
            final(self).wit == old(self).wit,
            final(self).dfz == old(self).dfz,
    {
        self.lat = Some(Lattice::new(&self.core));
    }

    /// The enumeration's next script; empty when it is finished or was
    /// not begun.
    pub fn lattice_next(&self) -> (r: String)
        requires
            self.wf(),
        ensures
            match self.lat {
                Some(l) => match lattice_script(l@, self.core) {
                    Some(s) => r@ == s,
                    None => r@.len() == 0,
                },
                None => r@.len() == 0,
            },
    {
        match &self.lat {
            Some(l) => match l.next_script(&self.core) {
                Some(s) => s,
                None => String::new(),
            },
            None => String::new(),
        }
    }

    /// Feeds the solver's answer to the enumeration, if begun.
    pub fn lattice_feed(&mut self, z3_out: &str)
        requires
            old(self).wf(),
        ensures
            final(self).wf(),
            final(self).core == old(self).core,
            match old(self).lat {
                Some(l) => final(self).lat matches Some(l2) && l2@ == lattice_step(l@, z3_out@),
                None => final(self).lat is None,
            },
            final(self).drv == old(self).drv,
            final(self).wit == old(self).wit,
            final(self).dfz == old(self).dfz,
    {
        match &mut self.lat {
            Some(l) => l.feed(z3_out),
            None => {},
        }
    }

    /// What the enumeration has published, if begun.
    pub fn lattice_result(&self) -> (r: Option<&LatOut>)
        ensures
            match self.lat {
                Some(l) => r == Some(&l.out),
                None => r is None,
            },
    {
        match &self.lat {
            Some(l) => Some(&l.out),
            None => None,
        }
    }

    /// Begins a witness search for a parsed probe; none when the probe
    /// could not be read.
    pub fn witness_begin(&mut self, parsed: Option<Formula>)
        requires
            old(self).wf(),
        ensures
            final(self).wf(),
            final(self).core == old(self).core,
            match parsed {
                Some(f) => final(self).wit matches Some(w) && w.probe == f && w@.active == active_ids(
                    old(self).core.claims@,
                ) && w@.phase == WPhaseView::CheckAll && w@.status.len() == 0 && w@.witness.len() == 0,
                None => final(self).wit is None,
            },
            final(self).drv == old(self).drv,
            final(self).lat == old(self).lat,
            final(self).dfz == old(self).dfz,
    {
        self.wit = match parsed {
            Some(f) => Some(WitnessDriver::new(&self.core, f)),
            None => None,
        };
    }

    /// The witness search's next script; empty when it is finished or
    /// was not begun.
    pub fn witness_next(&self) -> (r: String)
        requires
            self.wf(),
        ensures
            match self.wit {
                Some(w) => match witness_script(w@, w.probe, self.core) {
                    Some(s) => r@ == s,
                    None => r@.len() == 0,
                },
                None => r@.len() == 0,
            },
    {
        match &self.wit {
            Some(w) => match w.next_script(&self.core) {
                Some(s) => s,
                None => String::new(),
            },
            None => String::new(),
        }
    }

    /// Feeds the solver's answer to the witness search, if begun.
    pub fn witness_feed(&mut self, z3_out: &str)
        requires
            old(self).wf(),
        ensures
            final(self).wf(),
            final(self).core == old(self).core,
            match old(self).wit {
                Some(w) => final(self).wit matches Some(w2) && w2@ == witness_step(w@, z3_out@) && w2.probe
                    == w.probe,
                None => final(self).wit is None,
            },
            final(self).drv == old(self).drv,
            final(self).lat == old(self).lat,
            final(self).dfz == old(self).dfz,
    {
        match &mut self.wit {
            Some(w) => w.feed(z3_out),
            None => {},
        }
    }

    /// The witness search, if begun.
    pub fn witness_result(&self) -> (r: Option<&WitnessDriver>)
        ensures
            match self.wit {
                Some(w) => r == Some(&w),
                None => r is None,
            },
    {
        match &self.wit {
            Some(w) => Some(w),
            None => None,
        }
    }

    /// Begins the defeasible reading of the active claims.
    pub fn defeasible_begin(&mut self)
        requires
            old(self).wf(),
        ensures
            final(self).wf(),
            final(self).core == old(self).core,
            final(self).dfz matches Some(d) && d@.phase == DPhaseView::Strict && d@.spec.len() == 0
                && d@.accepted.len() == 0 && d@.overridden.len() == 0 && d@.status.len() == 0,
            final(self).drv == old(self).drv,
            final(self).lat == old(self).lat,
            final(self).wit == old(self).wit,
    {
        self.dfz = Some(DefeasibleDriver::new(&self.core));
    }

    /// The defeasible reading's next script; empty when it is finished
    /// or was not begun.
    pub fn defeasible_next(&self) -> (r: String)
        requires
            self.wf(),
        ensures
            match self.dfz {
                Some(d) => match defeasible_script(d@, self.core) {
                    Some(s) => r@ == s,
                    None => r@.len() == 0,
                },
                None => r@.len() == 0,
            },
    {
        match &self.dfz {
            Some(d) => match d.next_script(&self.core) {
                Some(s) => s,
                None => String::new(),
            },
            None => String::new(),
        }
    }

    /// Feeds the solver's answer to the defeasible reading, if begun.
    pub fn defeasible_feed(&mut self, z3_out: &str)
        requires
            old(self).wf(),
        ensures
            final(self).wf(),
            final(self).core == old(self).core,
            match old(self).dfz {
                Some(d) => final(self).dfz matches Some(d2) && d2@ == defeasible_step(
                    d@,
                    old(self).core.claims@,
                    z3_out@,
                ),
                None => final(self).dfz is None,
            },
            final(self).drv == old(self).drv,
            final(self).lat == old(self).lat,
            final(self).wit == old(self).wit,
    {
        match &mut self.dfz {
            Some(d) => d.feed(&self.core, z3_out),
            None => {},
        }
    }

    /// The defeasible reading, if begun.
    pub fn defeasible_result(&self) -> (r: Option<&DefeasibleDriver>)
        ensures
            match self.dfz {
                Some(d) => r == Some(&d),
                None => r is None,
            },
    {
        match &self.dfz {
            Some(d) => Some(d),
            None => None,
        }
    }
}

impl Default for WmtEngine {
    /// An empty world-model and no machine begun.
    fn default() -> (r: Self)
        ensures
            r.wf(),
            r.core.claims@.len() == 0,
            r.drv is None,
            r.lat is None,
            r.wit is None,
            r.dfz is None,
    {
        WmtEngine::new()
    }
}

} // verus!
