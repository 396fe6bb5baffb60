//! Explanation witnesses: why is a consequence forced? The probe is
//! forced when the active claims together with its negation are
//! unsatisfiable; the unsat core, shrunk by deletion, is a minimal set
//! of claims responsible.
use vstd::prelude::*;
use crate::ir::Formula;
use crate::world::{Core, entail_assume_script, active_ids};
use crate::answers::{first_nonblank_line, core_ids, z3_head, z3_core_ids};
use crate::analysis::{starts_with, starts_with_str};
use crate::text::copy_strings;

verus! {

pub enum WPhase {
    CheckAll,
    Shrink { cand: Vec<String>, i: usize },
    Done,
}

pub enum WPhaseView {
    CheckAll,
    Shrink { cand: Seq<Seq<char>>, i: int },
    Done,
}

pub open spec fn wphase_view(p: WPhase) -> WPhaseView {
    match p {
        WPhase::CheckAll => WPhaseView::CheckAll,
        WPhase::Shrink { cand, i } => WPhaseView::Shrink { cand: cand.deep_view(), i: i as int },
        WPhase::Done => WPhaseView::Done,
    }
}

/// The witness search for one probe formula.
pub struct WitnessDriver {
    pub probe: Formula,
    pub active: Vec<String>,
    pub phase: WPhase,
    /// `entailed`, `not_entailed` or `unknown` once decided.
    pub status: String,
    pub witness: Vec<String>,
}

pub struct WitnessView {
    /// The consequence whose support is searched.
    pub probe: Formula,
    pub active: Seq<Seq<char>>,
    pub phase: WPhaseView,
    pub status: Seq<char>,
    pub witness: Seq<Seq<char>>,
}

impl View for WitnessDriver {
    type V = WitnessView;

    open spec fn view(&self) -> WitnessView {
        WitnessView {
            probe: self.probe,
            active: self.active.deep_view(),
            phase: wphase_view(self.phase),
            status: self.status@,
            witness: self.witness.deep_view(),
        }
    }
}

/// The witness search after the solver answered `out`. Every claim of
/// the first candidate is tested by one removal, even a lone one (the
/// probe may need no claim at all); an undecided answer at any point
/// stops the search as `unknown` with no witness.
pub open spec fn witness_step(w: WitnessView, out: Seq<char>) -> WitnessView {
    let h = first_nonblank_line(out);
    match w.phase {
        WPhaseView::CheckAll => if starts_with(h, "unsat"@) {
            let cand = if core_ids(out).len() == 0 {
                w.active
            } else {
                core_ids(out)
            };
            if cand.len() == 0 {
                WitnessView { status: "entailed"@, witness: cand, phase: WPhaseView::Done, ..w }
            } else {
                WitnessView { status: "entailed"@, phase: WPhaseView::Shrink { cand, i: 0 }, ..w }
            }
        } else if starts_with(h, "sat"@) {
            WitnessView { status: "not_entailed"@, phase: WPhaseView::Done, ..w }
        } else {
            WitnessView { status: "unknown"@, phase: WPhaseView::Done, ..w }
        },
        WPhaseView::Shrink { cand, i } => if starts_with(h, "unsat"@) {
            let c2 = cand.remove(i);
            if i >= c2.len() {
                WitnessView { witness: c2, phase: WPhaseView::Done, ..w }
            } else {
                WitnessView { phase: WPhaseView::Shrink { cand: c2, i }, ..w }
            }
        } else if starts_with(h, "sat"@) {
            if i + 1 >= cand.len() {
                WitnessView { witness: cand, phase: WPhaseView::Done, ..w }
            } else {
                WitnessView { phase: WPhaseView::Shrink { cand, i: i + 1 }, ..w }
            }
        } else {
            WitnessView { status: "unknown"@, phase: WPhaseView::Done, ..w }
        },
        WPhaseView::Done => w,
    }
}

pub open spec fn witness_wf(w: WitnessView) -> bool {
    match w.phase {
        WPhaseView::Shrink { cand, i } => 0 <= i < cand.len(),
        _ => true,
    }
}

/// A measure every step from an unfinished state decreases.
pub open spec fn witness_measure(w: WitnessView) -> int {
    match w.phase {
        WPhaseView::CheckAll => 0x1_0000_0000_0000_0000_0000int,
        WPhaseView::Shrink { cand, i } => 1 + 2 * cand.len() - i,
        WPhaseView::Done => 0,
    }
}

/// The script the witness search wants answered next, if any.
pub open spec fn witness_script(w: WitnessView, probe: Formula, core: Core) -> Option<Seq<char>> {
    match w.phase {
        WPhaseView::CheckAll => Some(entail_assume_script(core, probe, w.active)),
        WPhaseView::Shrink { cand, i } => Some(entail_assume_script(core, probe, cand.remove(i))),
        WPhaseView::Done => None,
    }
}

impl WitnessDriver {
    /// A witness search for `probe` over the core's active claims.
    pub fn new(core: &Core, probe: Formula) -> (r: WitnessDriver)
        ensures
            r.probe == probe,
            r@.probe == probe,
            r@.active == active_ids(core.claims@),
            r@.phase == WPhaseView::CheckAll,
            r@.status.len() == 0,
            r@.witness.len() == 0,
    {
        let r = WitnessDriver {
            probe,
            active: core.active_ids(),
            phase: WPhase::CheckAll,
            status: String::new(),
            witness: Vec::new(),
        };
        proof {
            assert(r.witness.deep_view() =~= Seq::<Seq<char>>::empty());
        }
        r
    }

    /// The search has finished.
    pub fn done(&self) -> (r: bool)
        ensures
            r == (self@.phase == WPhaseView::Done),
    {
        match self.phase {
            WPhase::Done => true,
            _ => false,
        }
    }

    /// The probe was found to be forced.
    pub fn entailed(&self) -> (r: bool)
        ensures
            r == (self@.status == "entailed"@),
    {
        crate::text::str_eq(self.status.as_str(), "entailed")
    }

    /// The next script to hand the solver, or `None` when finished.
    pub fn next_script(&self, core: &Core) -> (r: Option<String>)
        requires
            core.wf(),
            witness_wf(self@),
        ensures
            match r {
                Some(s) => witness_script(self@, self.probe, *core) == Some(s@),
                None => witness_script(self@, self.probe, *core) is None,
            },
    {
        match &self.phase {
            WPhase::CheckAll => Some(core.smt_entail_assume(&self.probe, &self.active)),
            WPhase::Shrink { cand, i } => {
                let mut c = copy_strings(cand);
                assert(c.deep_view().len() == c@.len());
                c.remove(*i);
                proof {
                    assert(c.deep_view() =~= cand.deep_view().remove(*i as int));
                }
                Some(core.smt_entail_assume(&self.probe, &c))
            },
            WPhase::Done => None,
        }
    }

    /// Takes the solver's answer to the current script and moves on.
    pub fn feed(&mut self, out: &str)
        requires
            witness_wf(old(self)@),
        ensures
            final(self)@ == witness_step(old(self)@, out@),
            final(self).probe == old(self).probe,
            witness_wf(final(self)@),
            old(self)@.phase != WPhaseView::Done ==> witness_measure(final(self)@) < witness_measure(
                old(self)@,
            ),
    {
        let ghost w0 = self@;
        let h = z3_head(out);
        let mut ph = WPhase::Done;
        std::mem::swap(&mut ph, &mut self.phase);
        proof {
            assert(wphase_view(ph) == w0.phase);
        }
        match ph {
            WPhase::CheckAll => {
                if starts_with_str(&h, "unsat") {
                    self.status = String::from_str("entailed");
                    let mut cand = z3_core_ids(out);
                    if cand.len() == 0 {
                        cand = copy_strings(&self.active);
                    }
                    if cand.len() == 0 {
                        self.witness = cand;
                        self.phase = WPhase::Done;
                    } else {
                        self.phase = WPhase::Shrink { cand, i: 0 };
                    }
                } else if starts_with_str(&h, "sat") {
                    self.status = String::from_str("not_entailed");
                    self.phase = WPhase::Done;
                } else {
                    self.status = String::from_str("unknown");
                    self.phase = WPhase::Done;
                }
            },
            WPhase::Shrink { mut cand, i } => {
                let cl = cand.len();
                proof {
                    assert(i < cl);
                }
                if starts_with_str(&h, "unsat") {
                    let ghost c0 = cand.deep_view();
                    cand.remove(i);
                    proof {
                        assert(cand.deep_view() =~= c0.remove(i as int));
                    }
                    if i >= cand.len() {
                        self.witness = cand;
                        self.phase = WPhase::Done;
                    } else {
                        self.phase = WPhase::Shrink { cand, i };
                    }
                } else if starts_with_str(&h, "sat") {
                    let ni = i + 1;
                    if ni >= cand.len() {
                        self.witness = cand;
                        self.phase = WPhase::Done;
                    } else {
                        self.phase = WPhase::Shrink { cand, i: ni };
                    }
                } else {
                    self.status = String::from_str("unknown");
                    self.phase = WPhase::Done;
                }
            },
            WPhase::Done => {
                self.phase = WPhase::Done;
            },
        }
    }
}

} // verus!
