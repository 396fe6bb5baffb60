// Exact values of the renderers, the scripts, the prompts and the answer
// readers; each refusal; and the cross-call properties on concrete cases.

use wmt_core::analysis::powerset_by_weight;
use wmt_core::answers::{parse_bool_model, z3_core_ids, z3_head};
use wmt_core::argue::argumentation;
use wmt_core::engine::WmtEngine;
use wmt_core::english::form_en;
use wmt_core::hitting::{combinations, minimal_hitting_sets};
use wmt_core::lattice::{LatOut, Lattice, MPhase};
use wmt_core::ir::{Claim, Formula, Ingest, QVar, Sig, Term};
use wmt_core::smt::{form_smt, term_smt};
use wmt_core::symtab::SortedMap;
use wmt_core::world::Core;

fn st(x: &str) -> String {
    x.to_string()
}

fn strs(xs: &[&str]) -> Vec<String> {
    xs.iter().map(|x| x.to_string()).collect()
}

fn var(x: &str) -> Term {
    Term::Var { name: st(x) }
}

fn konst(c: &str) -> Term {
    Term::App { name: st(c), args: vec![] }
}

fn prop(p: &str) -> Formula {
    Formula::Pred { name: st(p), args: vec![] }
}

fn pred(p: &str, args: Vec<Term>) -> Formula {
    Formula::Pred { name: st(p), args }
}

fn not(f: Formula) -> Formula {
    Formula::Not { x: Box::new(f) }
}

fn claim(id: &str, f: Formula) -> Claim {
    Claim {
        id: st(id),
        source: String::new(),
        gloss: String::new(),
        formula: f,
        back: String::new(),
        weight: 1,
        active: true,
        defeasible: false,
    }
}

fn batch(claims: Vec<Claim>) -> Ingest {
    Ingest { sorts: vec![], preds: vec![], funcs: vec![], claims }
}

fn prop_sig(p: &str) -> Sig {
    Sig { name: st(p), args: vec![], ret: None, gloss: st("g") }
}

fn demo() -> Core {
    let mut c = Core::new();
    c.seed_demo();
    c
}

fn ids(c: &Core) -> Vec<String> {
    c.claims.iter().map(|x| x.id.clone()).collect()
}

// ---- renderers ---------------------------------------------------------

#[test]
fn smt_text_of_each_form() {
    let rule = Formula::Forall {
        vars: vec![QVar { name: st("x"), sort: st("Thing") }],
        body: Box::new(Formula::Imp {
            a: Box::new(pred("Bird", vec![var("x")])),
            b: Box::new(pred("Flies", vec![var("x")])),
        }),
    };
    assert_eq!(form_smt(&rule), "(forall ((x Thing)) (=> (Bird x) (Flies x)))");
    assert_eq!(term_smt(&Term::Int { v: -42 }), "(- 42)");
    assert_eq!(term_smt(&Term::Int { v: 7 }), "7");
    assert_eq!(
        term_smt(&Term::Arith { op: st("+"), args: vec![konst("a"), Term::Real { v: st("1.5") }] }),
        "(+ a 1.5)"
    );
    let cmp = Formula::Cmp { rel: st("<="), a: konst("x"), b: Term::Int { v: 3 } };
    assert_eq!(form_smt(&cmp), "(<= x 3)");
    assert_eq!(form_smt(&Formula::Eq { a: konst("a"), b: konst("b") }), "(= a b)");
    assert_eq!(form_smt(&Formula::And { xs: vec![prop("P"), not(prop("Q"))] }), "(and P (not Q))");
    assert_eq!(form_smt(&Formula::Or { xs: vec![prop("P"), prop("Q")] }), "(or P Q)");
    assert_eq!(form_smt(&Formula::Iff { a: Box::new(prop("P")), b: Box::new(prop("Q")) }), "(= P Q)");
    let ex = Formula::Exists {
        vars: vec![QVar { name: st("x"), sort: st("T") }, QVar { name: st("y"), sort: st("T") }],
        body: Box::new(pred("R", vec![var("x"), var("y")])),
    };
    assert_eq!(form_smt(&ex), "(exists ((x T) (y T)) (R x y))");
}

#[test]
fn english_text_of_each_form() {
    let rule = Formula::Forall {
        vars: vec![QVar { name: st("x"), sort: st("Thing") }],
        body: Box::new(Formula::Imp {
            a: Box::new(pred("Bird", vec![var("x")])),
            b: Box::new(pred("Flies", vec![var("x")])),
        }),
    };
    assert_eq!(form_en(&rule), "for every x in Thing, if Bird(x) then Flies(x)");
    assert_eq!(form_en(&not(prop("P"))), "it is not the case that (P)");
    assert_eq!(form_en(&Formula::Cmp { rel: st("<="), a: konst("x"), b: Term::Int { v: -3 } }), "x is at most -3");
    assert_eq!(form_en(&Formula::Cmp { rel: st(">"), a: konst("x"), b: Term::Int { v: 5 } }), "x is greater than 5");
    assert_eq!(form_en(&Formula::Eq { a: konst("a"), b: konst("b") }), "a is b");
    assert_eq!(form_en(&Formula::And { xs: vec![prop("P"), prop("Q")] }), "P, and Q");
    assert_eq!(form_en(&Formula::Or { xs: vec![prop("P"), prop("Q")] }), "P, or Q");
    assert_eq!(form_en(&Formula::Iff { a: Box::new(prop("P")), b: Box::new(prop("Q")) }), "P exactly when Q");
    let ex = Formula::Exists {
        vars: vec![QVar { name: st("x"), sort: st("T") }],
        body: Box::new(pred("R", vec![Term::App { name: st("f"), args: vec![var("x"), konst("c")] }])),
    };
    assert_eq!(form_en(&ex), "there is some x in T such that R(f(x, c))");
    let sum = Term::Arith { op: st("*"), args: vec![konst("a"), konst("b")] };
    assert_eq!(wmt_core::english::term_en(&sum), "a * b");
}

#[test]
fn english_never_shows_the_arrow() {
    let c = demo();
    for x in &c.claims {
        let r = form_en(&x.formula);
        assert!(!r.contains('='), "{r}");
    }
    assert!(form_smt(&c.claims[0].formula).contains("=>"));
}

// ---- scripts -------------------------------------------------------------

#[test]
fn scripts_of_the_demo() {
    let c = demo();
    let decls = "(declare-sort Thing 0)\n(declare-fun Bird (Thing) Bool)\n(declare-fun Flies (Thing) Bool)\n\
                 (declare-fun Penguin (Thing) Bool)\n(declare-fun tweety () Thing)\n";
    assert_eq!(c.decls_smt(), decls);
    let asserts = "(assert (forall ((x Thing)) (=> (Bird x) (Flies x))))\n\
                   (assert (forall ((x Thing)) (=> (Penguin x) (Bird x))))\n\
                   (assert (Penguin tweety))\n";
    assert_eq!(c.smt_check(), format!("(set-logic ALL)\n{decls}{asserts}(check-sat)\n"));
    let core = c.smt_core();
    assert!(core.starts_with("(set-option :produce-unsat-cores true)\n(set-logic ALL)\n"));
    assert!(core.contains("(assert (! (Penguin tweety) :named c_tweety_penguin))\n"));
    assert!(core.ends_with("(check-sat)\n(get-unsat-core)\n"));
    let probe = pred("Flies", vec![konst("tweety")]);
    assert_eq!(c.smt_entails(&probe), format!("(set-logic ALL)\n{decls}{asserts}(assert (not (Flies tweety)))\n(check-sat)\n"));
    let a = c.smt_assume(&strs(&["c_birds_fly", "c_tweety_penguin"]));
    assert!(a.contains("(declare-const a_c_birds_fly Bool)\n(assert (=> a_c_birds_fly (forall ((x Thing)) (=> (Bird x) (Flies x)))))\n"));
    assert!(a.ends_with("(check-sat-assuming (a_c_birds_fly a_c_tweety_penguin))\n(get-unsat-core)\n"));
    let ea = c.smt_entail_assume(&probe, &strs(&["c_birds_fly"]));
    assert!(ea.ends_with("(assert (not (Flies tweety)))\n(check-sat-assuming (a_c_birds_fly))\n(get-unsat-core)\n"));
    let ms = c.smt_more_specific("Penguin", "Bird", "Thing");
    assert!(ms.ends_with("(declare-const __k Thing)\n(assert (Penguin __k))\n(assert (not (Bird __k)))\n(check-sat)\n"));
}

#[test]
fn weighted_script_keeps_weights_at_least_one() {
    let mut c = Core::new();
    let mut heavy = claim("c_h", prop("P"));
    heavy.weight = 0;
    let mut c2 = claim("c_k", prop("Q"));
    c2.weight = 9;
    assert!(c.ingest(batch(vec![heavy, c2])).0);
    let s = c.smt_maxsmt(&vec![0, 1], &strs(&["(or P Q)"]));
    assert!(s.contains("(assert-soft sel_c_h :weight 1 :id W)\n"));
    assert!(s.contains("(assert-soft sel_c_k :weight 9 :id W)\n"));
    assert!(s.contains("(assert (or P Q))\n"));
    assert!(s.ends_with("(check-sat)\n(get-value (sel_c_h sel_c_k))\n"));
}

// ---- vocabulary and prompts ------------------------------------------------

#[test]
fn vocabulary_listing() {
    assert_eq!(Core::new().registry_view(), "  (vocabulary empty — declare what you need)\n");
    assert_eq!(
        demo().registry_view(),
        "  sorts: Thing\n  pred Bird(Thing) — x is a bird\n  pred Flies(Thing) — x can fly\n\
         \x20 pred Penguin(Thing) — x is a penguin\n  func tweety() : Thing — the bird Tweety\n"
    );
}

#[test]
fn prompts_frame_the_vocabulary() {
    let c = demo();
    let p = c.prompt("Penguins swim.");
    assert!(p.starts_with("You are a careful semiformalizer. Convert each natural-language claim below into\n"));
    assert!(p.ends_with(&format!("VOCABULARY:\n{}\nCLAIM(S) TO FORMALIZE:\nPenguins swim.\n", c.registry_view())));
    assert!(p.contains("{\"sorts\":[\"Thing\"],\n\"preds\":"));
    let e = c.belief_elicitation_prompt("tides", 3);
    assert!(e.starts_with("You are stating beliefs you hold"));
    assert!(e.contains("list\n3 separate, confident"));
    assert!(e.ends_with(&format!("DOMAIN:\ntides\n\nVOCABULARY ALREADY IN PLAY (reuse it):\n{}\n", c.registry_view())));
}

#[test]
fn triage_lists_known_ids_only() {
    let c = demo();
    let irs = strs(&["IR0", "IR1", "IR2"]);
    let p = c.triage_prompt(&strs(&["c_tweety_penguin", "nope"]), &irs);
    assert!(p.starts_with(
        "These claims were found *mutually contradictory* by a theorem prover:\n\n\
         - id c_tweety_penguin\n  sentence: Tweety is a penguin.\n  reads as: Penguin(tweety)\n  IR: IR2\n\n\
         Decide ONE thing:"
    ));
    assert!(!p.contains("nope"));
    assert!(p.ends_with("\nNo prose, no code fences. JSON only.\n"));
    let e = WmtEngine::new();
    assert_eq!(e.triage_prompt_json(Err(st("expected value")), &vec![]), "; bad id list: expected value");
}

// ---- ingest ----------------------------------------------------------------

#[test]
fn ingest_refusals() {
    let mut c = demo();
    let before = ids(&c);
    assert_eq!(c.ingest(batch(vec![])), (false, strs(&["no claims in the pasted IR"])));
    let (ok, errs) = c.ingest(batch(vec![claim("  ", prop("P")), claim("", prop("Q")), claim("c_ok", prop("R"))]));
    assert!(!ok);
    assert_eq!(errs, strs(&["a claim has an empty id", "a claim has an empty id"]));
    assert_eq!(ids(&c), before, "a refused batch changes nothing");
}

#[test]
fn ingest_revises_in_place_and_appends_new_ids() {
    let mut c = demo();
    let mut revised = claim("c_penguin_bird", not(prop("X")));
    revised.weight = 7;
    assert!(c.ingest(batch(vec![revised, claim("c_new", prop("Y"))])).0);
    assert_eq!(ids(&c), strs(&["c_birds_fly", "c_penguin_bird", "c_tweety_penguin", "c_new"]));
    assert_eq!(c.claims[1].weight, 7);
    assert_eq!(form_smt(&c.claims[1].formula), "(not X)");
}

#[test]
fn ingest_keeps_known_signatures_and_declares_from_use() {
    let mut c = demo();
    let other = Sig { name: st("Bird"), args: strs(&["Other"]), ret: None, gloss: st("changed") };
    let b = Ingest {
        sorts: strs(&["Int", "Thing", "Place"]),
        preds: vec![other],
        funcs: vec![],
        claims: vec![claim("c_loc", pred("At", vec![konst("tweety"), konst("pole")]))],
    };
    assert!(c.ingest(b).0);
    assert_eq!(c.sorts, strs(&["Thing", "Place"]), "builtin and known sorts are not added again");
    assert_eq!(c.preds.get("Bird").unwrap().gloss, "x is a bird", "a known name keeps its signature");
    let at = c.preds.get("At").unwrap();
    assert_eq!(at.args, strs(&["Thing", "Thing"]));
    assert_eq!(at.gloss, "(inferred from use)");
    let pole = c.funcs.get("pole").unwrap();
    assert_eq!(pole.ret, Some(st("Thing")));
    assert!(c.funcs.get("tweety").unwrap().gloss == "the bird Tweety");
    assert!(c.smt_check().contains("(declare-fun At (Thing Thing) Bool)\n(declare-fun pole () Thing)\n"));
}

#[test]
fn undeclared_symbols_get_the_default_sort() {
    let mut c = Core::new();
    assert!(c.ingest(batch(vec![claim("c1", pred("P", vec![konst("a")]))])).0);
    assert_eq!(c.sorts, strs(&["U"]));
    assert_eq!(c.smt_check(), "(set-logic ALL)\n(declare-sort U 0)\n(declare-fun P (U) Bool)\n(declare-fun a () U)\n(assert (P a))\n(check-sat)\n");
}

// ---- the world-model shown ---------------------------------------------------

#[test]
fn meta_shows_claims_vocabulary_and_atoms() {
    let c = demo();
    let m = c.meta();
    assert_eq!(m.claims.len(), 3);
    assert_eq!(m.claims[2].render, "Penguin(tweety)");
    assert_eq!(m.claims[1].gloss, "penguin ⇒ bird");
    assert_eq!(m.claims[1].weight, 5);
    assert_eq!(m.vocab, c.registry_view());
    assert!(m.bool_atoms.is_empty());
    let labels: Vec<&str> = m.ground_atoms.iter().map(|g| g.label.as_str()).collect();
    assert_eq!(labels, vec!["Bird(tweety)", "Flies(tweety)", "Penguin(tweety)"]);
    assert_eq!(form_smt(&m.ground_atoms[1].formula), "(Flies tweety)");

    let mut s = Core::new();
    s.seed_scenario();
    let ms = s.meta();
    assert_eq!(ms.bool_atoms, strs(&["BudgetOK", "QualityHigh", "Reviewed", "Ships", "TeamHappy", "TestsPass"]));
    let labels: Vec<&str> = ms.ground_atoms.iter().map(|g| g.label.as_str()).collect();
    assert_eq!(labels, vec!["Ships", "TestsPass", "Reviewed", "QualityHigh", "BudgetOK", "TeamHappy"]);
}

#[test]
fn ground_atoms_skip_wide_predicates() {
    let mut c = Core::new();
    let mut funcs = vec![];
    for k in 0..5 {
        funcs.push(Sig { name: format!("k{k}"), args: vec![], ret: Some(st("T")), gloss: st("") });
    }
    let b = Ingest {
        sorts: strs(&["T"]),
        preds: vec![
            Sig { name: st("Pair"), args: strs(&["T", "T"]), ret: None, gloss: st("") },
            Sig { name: st("One"), args: strs(&["T"]), ret: None, gloss: st("") },
            Sig { name: st("Nowhere"), args: strs(&["S"]), ret: None, gloss: st("") },
        ],
        funcs,
        claims: vec![claim("c1", prop("Z"))],
    };
    assert!(c.ingest(b).0);
    let labels: Vec<String> = c.ground_atoms().iter().map(|g| g.label.clone()).collect();
    // 25 pairs pass the cap of 24, a sort without constants gives none.
    assert_eq!(labels, strs(&["One(k0)", "One(k1)", "One(k2)", "One(k3)", "One(k4)", "Z"]));
}

#[test]
fn ground_atoms_stop_at_forty() {
    let mut c = Core::new();
    let mut funcs = vec![];
    for k in 0..20 {
        funcs.push(Sig { name: format!("k{k:02}"), args: vec![], ret: Some(st("T")), gloss: st("") });
    }
    let mut preds = vec![];
    for p in ["A", "B", "C"] {
        preds.push(Sig { name: st(p), args: strs(&["T"]), ret: None, gloss: st("") });
    }
    let b = Ingest { sorts: strs(&["T"]), preds, funcs, claims: vec![claim("c1", prop("A0"))] };
    assert!(c.ingest(b).0);
    let g = c.ground_atoms();
    assert_eq!(g.len(), 40);
    assert_eq!(g[39].label, "B(k19)");
}

// ---- engine: calls that undo each other ------------------------------------

#[test]
fn retract_then_reactivate_restores() {
    let mut e = WmtEngine::new();
    e.seed_demo();
    let m = e.retract("c_birds_fly");
    assert_eq!(m.claims[0].active, false);
    assert_eq!(e.core.active_ids(), strs(&["c_penguin_bird", "c_tweety_penguin"]));
    let m = e.reactivate("c_birds_fly");
    assert!(m.claims.iter().all(|c| c.active));
    let m = e.retract("no_such_claim");
    assert_eq!(m.claims.len(), 3);
    assert!(m.claims.iter().all(|c| c.active));
}

#[test]
fn weight_is_kept_at_least_one() {
    let mut e = WmtEngine::new();
    e.seed_demo();
    assert_eq!(e.set_weight("c_birds_fly", 0).claims[0].weight, 1);
    assert_eq!(e.set_weight("c_birds_fly", -5).claims[0].weight, 1);
    assert_eq!(e.set_weight("c_birds_fly", 7).claims[0].weight, 7);
    assert_eq!(e.core.weight_of("c_birds_fly"), 7);
    assert_eq!(e.core.weight_of("nobody"), 1);
}

#[test]
fn remove_drops_every_claim_with_the_id() {
    let mut e = WmtEngine::new();
    e.seed_demo();
    e.core.claims.push(claim("c_birds_fly", prop("Dup")));
    let m = e.remove("c_birds_fly");
    assert_eq!(m.claims.iter().map(|c| c.id.as_str()).collect::<Vec<_>>(), vec!["c_penguin_bird", "c_tweety_penguin"]);
    let m = e.remove("nobody");
    assert_eq!(m.claims.len(), 2);
}

#[test]
fn defeasible_flag_is_set_per_claim() {
    let mut e = WmtEngine::new();
    e.seed_demo();
    let m = e.set_defeasible("c_birds_fly", true);
    assert_eq!(m.claims.iter().map(|c| c.defeasible).collect::<Vec<_>>(), vec![true, false, false]);
    let m = e.set_defeasible("c_birds_fly", false);
    assert!(m.claims.iter().all(|c| !c.defeasible));
}

#[test]
fn import_refuses_unreadable_or_unsorted_branches() {
    let mut e = WmtEngine::new();
    e.seed_demo();
    e.analyze_begin();
    let (ok, m) = e.import_state(None);
    assert!(!ok);
    assert_eq!(m.claims.len(), 3, "a refused branch keeps the world-model");
    assert!(e.analyze_result().is_none(), "every machine is dropped");
    let mut bad = Core::new();
    bad.preds = SortedMap { entries: vec![(st("Z"), prop_sig("Z")), (st("A"), prop_sig("A"))] };
    let (ok, _) = e.import_state(Some(bad));
    assert!(!ok);
    let mut fresh = Core::new();
    fresh.seed_scenario();
    let (ok, m) = e.import_state(Some(fresh));
    assert!(ok);
    assert_eq!(m.claims.len(), 9);
}

#[test]
fn reset_starts_from_nothing() {
    let mut e = WmtEngine::default();
    e.seed_scenario();
    e.lattice_begin();
    let m = e.reset();
    assert!(m.claims.is_empty());
    assert_eq!(m.vocab, "  (vocabulary empty — declare what you need)\n");
    assert!(e.lattice_result().is_none());
    assert_eq!(e.lattice_next(), "");
}

#[test]
fn entailment_probe_that_cannot_be_read() {
    let e = WmtEngine::new();
    assert_eq!(e.smt_entails_json(Err(st("EOF while parsing"))), "; IR parse error: EOF while parsing\n(check-sat)\n");
    let mut d = WmtEngine::new();
    d.seed_demo();
    let probe = pred("Flies", vec![konst("tweety")]);
    assert_eq!(d.smt_entails_json(Ok(probe)), d.core.smt_entails(&pred("Flies", vec![konst("tweety")])));
}

#[test]
fn machines_not_begun_answer_nothing() {
    let mut e = WmtEngine::new();
    assert_eq!(e.analyze_next(), "");
    assert_eq!(e.witness_next(), "");
    assert_eq!(e.defeasible_next(), "");
    e.analyze_feed("sat");
    assert!(e.analyze_result().is_none());
    e.witness_begin(None);
    assert!(e.witness_result().is_none());
}

#[test]
fn engine_analysis_round() {
    let mut e = WmtEngine::new();
    e.seed_demo();
    e.analyze_begin();
    let s = e.analyze_next();
    assert!(s.ends_with("(check-sat-assuming (a_c_birds_fly a_c_penguin_bird a_c_tweety_penguin))\n(get-unsat-core)\n"));
    assert!(e.analyze_answer_ok("sat\n"));
    e.analyze_feed("sat\n");
    let d = e.analyze_result().unwrap();
    assert_eq!(d.status, "consistent");
    assert!(d.done());
    assert_eq!(e.analyze_next(), "");
}

#[test]
fn analysis_reports_unknown_never_consistent() {
    let mut e = WmtEngine::new();
    e.seed_demo();
    e.analyze_begin();
    e.analyze_feed("unknown\n");
    assert_eq!(e.analyze_result().unwrap().status, "unknown");
    e.analyze_begin();
    e.analyze_feed("\n\n");
    assert_eq!(e.analyze_result().unwrap().status, "unknown");
}

#[test]
fn analysis_shrinks_a_large_core_but_refuses_a_large_conflict() {
    let claims = || -> Vec<Claim> { (0..33).map(|k| claim(&format!("c{k}"), prop(&format!("P{k}")))).collect() };
    let core: Vec<String> = (0..33).map(|k| format!("a_c{k}")).collect();
    let first = format!("unsat\n({})\n", core.join(" "));

    // A first core of 33 claims is shrunk to a small conflict.
    let mut e = WmtEngine::new();
    assert!(e.ingest(batch(claims())).0);
    e.analyze_begin();
    assert!(e.analyze_answer_ok(&first));
    e.analyze_feed(&first);
    for _ in 0..30 {
        assert!(e.analyze_answer_ok("unsat\n"));
        e.analyze_feed("unsat\n");
    }
    for _ in 0..3 {
        assert!(e.analyze_answer_ok("sat\n"));
        e.analyze_feed("sat\n");
    }
    let d = e.analyze_result().unwrap();
    assert_eq!(d.status, "inconsistent");
    assert_eq!(d.mus, strs(&["c30", "c31", "c32"]));

    // Settling on a conflict of 33 claims is refused.
    let mut f = WmtEngine::new();
    assert!(f.ingest(batch(claims())).0);
    f.analyze_begin();
    f.analyze_feed(&first);
    for k in 0..32 {
        if k == 31 {
            // Removing the member at position 31 of 33 does not end the shrink.
            assert!(f.analyze_answer_ok("unsat\n"));
        }
        f.analyze_feed("sat\n");
    }
    assert!(!f.analyze_answer_ok("sat\n"));
    assert!(!f.analyze_answer_ok("unsat\n"));
    assert!(f.analyze_answer_ok("unknown\n"));
}

#[test]
fn undecided_answers_are_never_verdicts() {
    // The analysis, at the first check and in the middle of a shrink.
    let mut e = WmtEngine::new();
    e.seed_demo();
    e.analyze_begin();
    e.analyze_feed("(error \"line 3 column 10: unknown constant Foo\")\n");
    let d = e.analyze_result().unwrap();
    assert_eq!(d.status, "unknown");
    assert!(d.done());
    assert!(d.mus.is_empty());
    e.analyze_begin();
    e.analyze_feed("unsat\n(a_c_birds_fly a_c_penguin_bird)\n");
    e.analyze_feed("(error \"timeout\")\n");
    assert_eq!(e.analyze_result().unwrap().status, "unknown");

    // The defeasible reading of strict claims only.
    e.defeasible_begin();
    e.defeasible_feed("(error \"line 3 column 10: unknown constant Foo\")\n");
    let r = e.defeasible_result().unwrap();
    assert_eq!(r.status, "unknown");
    assert!(r.done());

    // The lattice, in the middle of the enumeration.
    e.lattice_begin();
    e.lattice_feed("unsat\n");
    e.lattice_feed("unknown\n");
    let l = e.lattice_result().unwrap();
    assert!(l.unknown && !l.consistent && l.done);
    assert!(l.mus.is_empty() && l.mss.is_empty());

    // The witness search, in the middle of a shrink.
    e.witness_begin(Some(pred("Flies", vec![konst("tweety")])));
    e.witness_feed("unsat\n(a_c_birds_fly a_c_penguin_bird)\n");
    e.witness_feed("unknown\n");
    let w = e.witness_result().unwrap();
    assert_eq!(w.status, "unknown");
    assert!(w.witness.is_empty());
}

#[test]
fn a_lone_candidate_is_still_tested() {
    // A probe that holds with no claim at all: its witness is empty.
    let mut e = WmtEngine::new();
    assert!(e.ingest(batch(vec![claim("c1", prop("P"))])).0);
    let valid = Formula::Or { xs: vec![prop("Q"), not(prop("Q"))] };
    e.witness_begin(Some(valid));
    e.witness_feed("unsat\n()\n");
    let s = e.witness_next();
    assert!(s.ends_with("(check-sat-assuming ())\n(get-unsat-core)\n"), "{s}");
    e.witness_feed("unsat\n()\n");
    let w = e.witness_result().unwrap();
    assert_eq!(w.status, "entailed");
    assert!(w.witness.is_empty());
    assert!(w.done());
}

#[test]
fn lattice_undecided_is_not_consistent() {
    let mut e = WmtEngine::new();
    e.seed_demo();
    e.lattice_begin();
    e.lattice_feed("(error \"unknown constant\")\n");
    let r = e.lattice_result().unwrap();
    assert!(r.unknown);
    assert!(!r.consistent);
    assert!(r.done);
}

#[test]
fn witness_unknown_is_reported() {
    let mut e = WmtEngine::new();
    e.seed_demo();
    e.witness_begin(Some(pred("Flies", vec![konst("tweety")])));
    e.witness_feed("unknown\n");
    let w = e.witness_result().unwrap();
    assert_eq!(w.status, "unknown");
    assert!(!w.entailed());
}

#[test]
fn defeasible_all_strict_and_consistent_is_coherent() {
    let mut e = WmtEngine::new();
    e.seed_demo();
    e.defeasible_begin();
    e.defeasible_feed("sat\n");
    let d = e.defeasible_result().unwrap();
    assert_eq!(d.status, "coherent");
    assert_eq!(d.accepted, strs(&["c_birds_fly", "c_penguin_bird", "c_tweety_penguin"]));
    assert!(d.beaten_by().is_empty());
}

// ---- reading solver answers ------------------------------------------------

#[test]
fn solver_answers_are_read() {
    assert_eq!(z3_head("\n  unsat  \n(a_x a_y)\n"), "unsat");
    assert_eq!(z3_head(""), "");
    assert_eq!(z3_core_ids("unsat\n( a_c1 a_c2 other )\n"), strs(&["c1", "c2"]));
    assert_eq!(z3_core_ids("sat\n"), Vec::<String>::new());
    assert_eq!(parse_bool_model("sat\n((m0 true)\n (m1 false) (m2 true) (m9 true))", 3), vec![true, false, true]);
    assert_eq!(parse_bool_model("unsat", 2), vec![false, false]);
}

// ---- subsets, hitting sets, argumentation -----------------------------------

#[test]
fn subsets_in_lexicographic_order() {
    let c = combinations(4, 2);
    assert_eq!(c, vec![vec![0, 1], vec![0, 2], vec![0, 3], vec![1, 2], vec![1, 3], vec![2, 3]]);
    assert!(combinations(3, 0).is_empty());
    assert!(combinations(2, 3).is_empty());
    assert_eq!(combinations(3, 3), vec![vec![0, 1, 2]]);
}

#[test]
fn hitting_sets_smallest_first() {
    let sets = vec![strs(&["a", "b"]), strs(&["b", "c"])];
    let u = strs(&["a", "b", "c"]);
    assert_eq!(minimal_hitting_sets(&sets, &u), vec![strs(&["b"]), strs(&["a", "c"])]);
    assert!(minimal_hitting_sets(&vec![], &u).is_empty());
    assert!(minimal_hitting_sets(&vec![strs(&["z"])], &u).is_empty());
}

#[test]
fn argumentation_classes() {
    let mus = vec![strs(&["b", "a"])];
    let mss = vec![strs(&["a", "c"]), strs(&["b", "c"])];
    let active = strs(&["a", "b", "c", "d"]);
    let af = argumentation(&mus, &mss, &active);
    assert_eq!(af.attacks, vec![strs(&["a", "b"])]);
    assert_eq!(af.skeptical, strs(&["c"]));
    assert_eq!(af.credulous, strs(&["a", "b", "c"]));
    assert_eq!(af.defeated, strs(&["d"]));
    let coherent = argumentation(&vec![], &vec![active.clone()], &active);
    assert!(coherent.attacks.is_empty());
    assert_eq!(coherent.skeptical, active);
    assert!(coherent.defeated.is_empty());
}

#[test]
fn repairs_are_tried_cheapest_first() {
    let mut c = Core::new();
    let mut a = claim("a", prop("A"));
    a.weight = 3;
    let mut b = claim("b", prop("B"));
    b.weight = 1;
    let mut d = claim("d", prop("D"));
    d.weight = 2;
    assert!(c.ingest(batch(vec![a, b, d])).0);
    let subs = powerset_by_weight(&c, &strs(&["a", "b", "d"]));
    let shown: Vec<String> = subs.iter().map(|s| s.join("+")).collect();
    assert_eq!(shown, strs(&["b", "d", "a", "b+d", "a+b", "a+d", "a+b+d"]));
}

#[test]
fn loading_the_demo_into_nothing_gives_the_demo() {
    let mut e = WmtEngine::new();
    e.seed_scenario();
    e.reset();
    let m = e.seed_demo();
    let got: Vec<&str> = m.claims.iter().map(|c| c.id.as_str()).collect();
    assert_eq!(got, vec!["c_birds_fly", "c_penguin_bird", "c_tweety_penguin"]);
}

#[test]
fn lattice_budget_cut_is_reported() {
    let mut c = Core::new();
    assert!(c.ingest(batch(vec![claim("c1", prop("P")), claim("c2", prop("Q"))])).0);
    let mut l = wmt_core::lattice::Lattice::new(&c);
    l.muses = vec![vec![0]; 240];
    l.phase = wmt_core::lattice::MPhase::MapQuery;
    l.feed("sat\n((m0 true) (m1 true))\n");
    assert!(l.out.capped, "the budget cut is reported");
    assert!(l.out.done);
    let mut k = wmt_core::lattice::Lattice::new(&c);
    k.phase = wmt_core::lattice::MPhase::MapQuery;
    k.feed("unsat\n");
    assert!(!k.out.capped, "an exhausted map is not a budget cut");
    let mut u = wmt_core::lattice::Lattice::new(&c);
    u.muses = vec![vec![0]; 240];
    u.phase = wmt_core::lattice::MPhase::MapQuery;
    u.feed("(error \"out of memory\")\n");
    assert!(u.out.capped, "a spent budget is reported whatever the map query got back");
    assert!(!u.out.unknown);
    assert_eq!(u.out.mus.len(), 240, "what was found is kept");
}

#[test]
fn an_undecided_repair_keeps_the_conflict() {
    let mut e = WmtEngine::new();
    e.seed_demo();
    e.analyze_begin();
    e.analyze_feed("unsat\n(a_c_tweety_penguin)\n");
    e.analyze_feed("unknown\n");
    let d = e.analyze_result().unwrap();
    assert_eq!(d.status, "inconsistent");
    assert_eq!(d.mus, strs(&["c_tweety_penguin"]));
    assert!(d.repair.is_empty());
    assert!(d.done());
}

fn truthful_lattice_run(c: &Core, clash: &dyn Fn(&[usize]) -> bool) -> LatOut {
    let mut l = Lattice::new(c);
    let n = l.active.len();
    let verdict = |set: &[usize]| if clash(set) { "unsat\n" } else { "sat\n" };
    for _ in 0..500 {
        let reply: String = match &l.phase {
            MPhase::Done => break,
            MPhase::CheckAll => verdict(&(0..n).collect::<Vec<_>>()).to_string(),
            MPhase::CheckSeed { seed } => verdict(seed).to_string(),
            MPhase::Grow { keep, rest, i } => {
                let mut t = keep.clone();
                t.push(rest[*i]);
                verdict(&t).to_string()
            }
            MPhase::Shrink { cand, i } => {
                let mut t = cand.clone();
                t.remove(*i);
                verdict(&t).to_string()
            }
            MPhase::MapQuery => {
                let mut found = None;
                for bits in 0..(1u32 << n) {
                    let on = |k: usize| bits & (1 << k) != 0;
                    let ok = l.map.iter().all(|cl| {
                        cl.iter().any(|&x| if x > 0 { on((x - 1) as usize) } else { !on((-x - 1) as usize) })
                    });
                    if ok {
                        found = Some(bits);
                        break;
                    }
                }
                match found {
                    None => "unsat\n".to_string(),
                    Some(bits) => {
                        let vals: Vec<String> =
                            (0..n).map(|k| format!("(m{} {})", k, bits & (1 << k) != 0)).collect();
                        format!("sat\n({})\n", vals.join(" "))
                    }
                }
            }
        };
        l.feed(&reply);
    }
    l.out
}

#[test]
fn correction_sets_meet_every_conflict() {
    let mut c = Core::new();
    assert!(c
        .ingest(batch(vec![
            claim("c1", prop("P")),
            claim("c2", not(prop("P"))),
            claim("c3", prop("Q")),
            claim("c4", not(prop("Q"))),
        ]))
        .0);
    let clash = |s: &[usize]| (s.contains(&0) && s.contains(&1)) || (s.contains(&2) && s.contains(&3));
    let out = truthful_lattice_run(&c, &clash);
    assert!(out.done && !out.unknown && !out.capped && !out.consistent);
    let mut mus: Vec<Vec<String>> = out.mus.clone();
    mus.sort();
    assert_eq!(mus, vec![strs(&["c1", "c2"]), strs(&["c3", "c4"])]);
    let mut mcs: Vec<Vec<String>> = out.mcs.clone();
    mcs.sort();
    assert_eq!(
        mcs,
        vec![strs(&["c1", "c3"]), strs(&["c1", "c4"]), strs(&["c2", "c3"]), strs(&["c2", "c4"])]
    );
    for m in &out.mus {
        for k in &out.mcs {
            assert!(m.iter().any(|x| k.contains(x)), "{:?} misses {:?}", k, m);
        }
    }
    let mut dual = minimal_hitting_sets(&out.mus, &strs(&["c1", "c2", "c3", "c4"]));
    dual.sort();
    assert_eq!(dual, mcs, "the correction sets are the minimal hitting sets of the conflicts");
    let mut mss: Vec<Vec<String>> = out.mss.clone();
    mss.sort();
    assert_eq!(
        mss,
        vec![strs(&["c1", "c3"]), strs(&["c1", "c4"]), strs(&["c2", "c3"]), strs(&["c2", "c4"])]
    );
}
