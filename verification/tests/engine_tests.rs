// End-to-end scenarios: world-models are pasted as IR JSON, the step
// machines are pumped against a solver stand-in that knows each test's
// minimal conflicts, and the published results are checked.

use serde_json::Value;
use wmt_core::analysis::Driver;
use wmt_core::answers::z3_head;
use wmt_core::defeasible::DefeasibleDriver;
use wmt_core::english::form_en;
use wmt_core::hitting::minimal_hitting_sets;
use wmt_core::ir::{Claim, Formula, Ingest, QVar, Sig, Term};
use wmt_core::lattice::{LatOut, Lattice};
use wmt_core::meta::Meta;
use wmt_core::smt::form_smt;
use wmt_core::symtab::SortedMap;
use wmt_core::witness::WitnessDriver;
use wmt_core::world::Core;

// ---- IR JSON → values (the defaults a pasted batch gets) ----------------

fn text(v: &Value, k: &str) -> String {
    v.get(k).and_then(|x| x.as_str()).unwrap_or("").to_string()
}

fn list(v: &Value, k: &str) -> Vec<Value> {
    v.get(k).and_then(|x| x.as_array()).cloned().unwrap_or_default()
}

fn term(v: &Value) -> Term {
    match v["t"].as_str().unwrap() {
        "var" => Term::Var { name: text(v, "name") },
        "int" => Term::Int { v: v["v"].as_i64().unwrap() },
        "real" => Term::Real { v: text(v, "v") },
        "app" => Term::App { name: text(v, "name"), args: list(v, "args").iter().map(term).collect() },
        "arith" => Term::Arith { op: text(v, "op"), args: list(v, "args").iter().map(term).collect() },
        other => panic!("unknown term tag {other}"),
    }
}

fn qvar(v: &Value) -> QVar {
    QVar { name: text(v, "name"), sort: text(v, "sort") }
}

fn formula(v: &Value) -> Formula {
    let b = |k: &str| Box::new(formula(&v[k]));
    match v["op"].as_str().unwrap() {
        "pred" => Formula::Pred { name: text(v, "name"), args: list(v, "args").iter().map(term).collect() },
        "eq" => Formula::Eq { a: term(&v["a"]), b: term(&v["b"]) },
        "cmp" => Formula::Cmp { rel: text(v, "rel"), a: term(&v["a"]), b: term(&v["b"]) },
        "not" => Formula::Not { x: b("x") },
        "and" => Formula::And { xs: list(v, "xs").iter().map(formula).collect() },
        "or" => Formula::Or { xs: list(v, "xs").iter().map(formula).collect() },
        "imp" => Formula::Imp { a: b("a"), b: b("b") },
        "iff" => Formula::Iff { a: b("a"), b: b("b") },
        "forall" => Formula::Forall { vars: list(v, "vars").iter().map(qvar).collect(), body: b("body") },
        "exists" => Formula::Exists { vars: list(v, "vars").iter().map(qvar).collect(), body: b("body") },
        other => panic!("unknown formula op {other}"),
    }
}

fn parse_formula(json: &str) -> Formula {
    formula(&serde_json::from_str::<Value>(json).unwrap())
}

fn strings(v: &Value, k: &str) -> Vec<String> {
    list(v, k).iter().map(|x| x.as_str().unwrap().to_string()).collect()
}

fn sig(v: &Value) -> Sig {
    Sig {
        name: text(v, "name"),
        args: strings(v, "args"),
        ret: v.get("ret").and_then(|x| x.as_str()).map(|x| x.to_string()),
        gloss: text(v, "gloss"),
    }
}

fn claim(v: &Value) -> Claim {
    Claim {
        id: text(v, "id"),
        source: text(v, "source"),
        gloss: text(v, "gloss"),
        formula: formula(&v["formula"]),
        back: text(v, "back"),
        weight: v.get("weight").and_then(|x| x.as_i64()).unwrap_or(1),
        active: v.get("active").and_then(|x| x.as_bool()).unwrap_or(true),
        defeasible: v.get("defeasible").and_then(|x| x.as_bool()).unwrap_or(false),
    }
}

fn batch(json: &str) -> Result<Ingest, String> {
    let v: Value = serde_json::from_str(json).map_err(|e| e.to_string())?;
    if v.get("claims").is_none() {
        return Err("missing field `claims`".to_string());
    }
    Ok(Ingest {
        sorts: strings(&v, "sorts"),
        preds: list(&v, "preds").iter().map(sig).collect(),
        funcs: list(&v, "funcs").iter().map(sig).collect(),
        claims: list(&v, "claims").iter().map(claim).collect(),
    })
}

fn ingest(c: &mut Core, json: &str) -> (bool, Vec<String>) {
    match batch(json) {
        Ok(b) => c.ingest(b),
        Err(e) => (false, vec![format!("not valid IR JSON: {e}")]),
    }
}

// ---- values → IR JSON (a saved branch) -----------------------------------

fn obj(pairs: Vec<(&str, Value)>) -> Value {
    let mut m = serde_json::Map::new();
    for (k, v) in pairs {
        m.insert(k.to_string(), v);
    }
    Value::Object(m)
}

fn s(x: &str) -> Value {
    Value::String(x.to_string())
}

fn term_json(t: &Term) -> Value {
    match t {
        Term::Var { name } => obj(vec![("t", s("var")), ("name", s(name))]),
        Term::Int { v } => obj(vec![("t", s("int")), ("v", Value::from(*v))]),
        Term::Real { v } => obj(vec![("t", s("real")), ("v", s(v))]),
        Term::App { name, args } => obj(vec![
            ("t", s("app")),
            ("name", s(name)),
            ("args", Value::Array(args.iter().map(term_json).collect())),
        ]),
        Term::Arith { op, args } => obj(vec![
            ("t", s("arith")),
            ("op", s(op)),
            ("args", Value::Array(args.iter().map(term_json).collect())),
        ]),
    }
}

fn formula_json(f: &Formula) -> Value {
    let vars = |vs: &Vec<QVar>| {
        Value::Array(vs.iter().map(|q| obj(vec![("name", s(&q.name)), ("sort", s(&q.sort))])).collect())
    };
    match f {
        Formula::Pred { name, args } => obj(vec![
            ("op", s("pred")),
            ("name", s(name)),
            ("args", Value::Array(args.iter().map(term_json).collect())),
        ]),
        Formula::Eq { a, b } => obj(vec![("op", s("eq")), ("a", term_json(a)), ("b", term_json(b))]),
        Formula::Cmp { rel, a, b } => {
            obj(vec![("op", s("cmp")), ("rel", s(rel)), ("a", term_json(a)), ("b", term_json(b))])
        }
        Formula::Not { x } => obj(vec![("op", s("not")), ("x", formula_json(x))]),
        Formula::And { xs } => obj(vec![("op", s("and")), ("xs", Value::Array(xs.iter().map(formula_json).collect()))]),
        Formula::Or { xs } => obj(vec![("op", s("or")), ("xs", Value::Array(xs.iter().map(formula_json).collect()))]),
        Formula::Imp { a, b } => obj(vec![("op", s("imp")), ("a", formula_json(a)), ("b", formula_json(b))]),
        Formula::Iff { a, b } => obj(vec![("op", s("iff")), ("a", formula_json(a)), ("b", formula_json(b))]),
        Formula::Forall { vars: vs, body } => {
            obj(vec![("op", s("forall")), ("vars", vars(vs)), ("body", formula_json(body))])
        }
        Formula::Exists { vars: vs, body } => {
            obj(vec![("op", s("exists")), ("vars", vars(vs)), ("body", formula_json(body))])
        }
    }
}

fn sig_json(g: &Sig) -> Value {
    obj(vec![
        ("name", s(&g.name)),
        ("args", Value::Array(g.args.iter().map(|a| s(a)).collect())),
        ("ret", g.ret.as_ref().map(|r| s(r)).unwrap_or(Value::Null)),
        ("gloss", s(&g.gloss)),
    ])
}

fn table_json(m: &SortedMap<Sig>) -> Value {
    let mut o = serde_json::Map::new();
    for (k, g) in &m.entries {
        o.insert(k.clone(), sig_json(g));
    }
    Value::Object(o)
}

fn export_state(c: &Core) -> String {
    obj(vec![
        ("sorts", Value::Array(c.sorts.iter().map(|x| s(x)).collect())),
        ("preds", table_json(&c.preds)),
        ("funcs", table_json(&c.funcs)),
        (
            "decl_order",
            Value::Array(c.decl_order.iter().map(|(k, n)| Value::Array(vec![s(&k.to_string()), s(n)])).collect()),
        ),
        (
            "claims",
            Value::Array(
                c.claims
                    .iter()
                    .map(|x| {
                        obj(vec![
                            ("id", s(&x.id)),
                            ("source", s(&x.source)),
                            ("gloss", s(&x.gloss)),
                            ("formula", formula_json(&x.formula)),
                            ("back", s(&x.back)),
                            ("weight", Value::from(x.weight)),
                            ("active", Value::Bool(x.active)),
                            ("defeasible", Value::Bool(x.defeasible)),
                        ])
                    })
                    .collect(),
            ),
        ),
    ])
    .to_string()
}

fn table(v: &Value) -> SortedMap<Sig> {
    let mut m = SortedMap::new();
    if let Some(o) = v.as_object() {
        for (k, g) in o {
            m.insert(k.clone(), sig(g));
        }
    }
    m
}

fn parse_state(json: &str) -> Option<Core> {
    let v: Value = serde_json::from_str(json).ok()?;
    Some(Core {
        sorts: strings(&v, "sorts"),
        preds: table(&v["preds"]),
        funcs: table(&v["funcs"]),
        decl_order: list(&v, "decl_order")
            .iter()
            .map(|e| (e[0].as_str().unwrap().chars().next().unwrap(), e[1].as_str().unwrap().to_string()))
            .collect(),
        claims: list(&v, "claims").iter().map(claim).collect(),
    })
}

fn import_state(c: &mut Core, json: &str) -> bool {
    let mut e = wmt_core::engine::WmtEngine::new();
    let (ok, _) = e.import_state(parse_state(json));
    if ok {
        *c = e.core;
    }
    ok
}

fn meta_text(m: &Meta) -> String {
    let mut out = String::new();
    for c in &m.claims {
        out.push_str(&format!(
            "{}|{}|{}|{}|{}|{}|{}|{}\n",
            c.id, c.source, c.gloss, c.render, c.back, c.weight, c.active, c.defeasible
        ));
    }
    out.push_str(&m.vocab);
    out.push_str(&m.bool_atoms.join(","));
    for g in &m.ground_atoms {
        out.push_str(&format!("\n{} = {}", g.label, form_smt(&g.formula)));
    }
    out
}

// ---- a solver stand-in -----------------------------------------------------

/// Answers the engine's scripts from what the test knows of its world:
/// the minimal conflicts among claim ids (`__probe` standing for the
/// negated probe of an entailment question), and which predicate is
/// narrower than which for the specificity questions.
struct Solver {
    muses: Vec<Vec<String>>,
    narrower: Vec<(String, String)>,
}

impl Solver {
    fn new(muses: &[&[&str]], narrower: &[(&str, &str)]) -> Solver {
        Solver {
            muses: muses.iter().map(|m| m.iter().map(|x| x.to_string()).collect()).collect(),
            narrower: narrower.iter().map(|(a, b)| (a.to_string(), b.to_string())).collect(),
        }
    }

    fn verdict(&self, ids: &[String], with_core: bool) -> String {
        for m in &self.muses {
            if m.iter().all(|x| ids.contains(x)) {
                if !with_core {
                    return "unsat\n".to_string();
                }
                let core: Vec<String> =
                    m.iter().filter(|x| x.as_str() != "__probe").map(|x| format!("a_{x}")).collect();
                return format!("unsat\n({})\n", core.join(" "));
            }
        }
        if with_core {
            "sat\n(error \"line 1 column 1: unsat core is not available\")\n".to_string()
        } else {
            "sat\n".to_string()
        }
    }

    fn map_answer(&self, script: &str) -> String {
        let n = script.lines().filter(|l| l.starts_with("(declare-const m")).count();
        let mut clauses: Vec<Vec<(usize, bool)>> = Vec::new();
        for l in script.lines().filter(|l| l.starts_with("(assert (or ")) {
            let inner = &l["(assert (or ".len()..l.len() - " false))".len()];
            let mut cl = Vec::new();
            let mut neg = false;
            for tok in inner.split_whitespace() {
                if tok == "(not" {
                    neg = true;
                    continue;
                }
                let k: usize = tok.trim_end_matches(')').trim_start_matches('m').parse().unwrap();
                cl.push((k, !neg));
                neg = false;
            }
            clauses.push(cl);
        }
        let mut mask: i64 = (1i64 << n) - 1;
        while mask >= 0 {
            let bit = |k: usize| mask & (1i64 << k) != 0;
            if clauses.iter().all(|cl| cl.iter().any(|&(k, pos)| bit(k) == pos)) {
                let vals: Vec<String> =
                    (0..n).map(|k| format!("(m{k} {})", if bit(k) { "true" } else { "false" })).collect();
                return format!("sat\n({})\n", vals.join("\n "));
            }
            mask -= 1;
        }
        "unsat\n(error \"line 1 column 1: model is not available\")\n".to_string()
    }

    fn answer(&self, script: &str, core: &Core) -> String {
        if let Some(pos) = script.find("(check-sat-assuming (") {
            let rest = &script[pos + "(check-sat-assuming (".len()..];
            let end = rest.find("))").unwrap();
            let mut ids: Vec<String> =
                rest[..end].split_whitespace().map(|w| w.trim_start_matches("a_").to_string()).collect();
            if script.lines().any(|l| l.starts_with("(assert (not ")) {
                ids.push("__probe".to_string());
            }
            return self.verdict(&ids, true);
        }
        if script.contains("(declare-const m0 Bool)") || script.contains("(get-value (m") {
            return self.map_answer(script);
        }
        if script.contains("(declare-const __k ") {
            let pa = script
                .lines()
                .find(|l| l.starts_with("(assert (") && l.ends_with(" __k))") && !l.starts_with("(assert (not"))
                .unwrap();
            let pb = script.lines().find(|l| l.starts_with("(assert (not (") && l.ends_with(" __k)))")).unwrap();
            let pa = pa["(assert (".len()..pa.len() - " __k))".len()].to_string();
            let pb = pb["(assert (not (".len()..pb.len() - " __k)))".len()].to_string();
            return if pa == pb || self.narrower.contains(&(pa, pb)) { "unsat\n" } else { "sat\n" }.to_string();
        }
        let mut ids: Vec<String> = Vec::new();
        for l in script.lines().filter(|l| l.starts_with("(assert ")) {
            let hit = core
                .claims
                .iter()
                .find(|c| c.active && l == format!("(assert {})", form_smt(&c.formula)));
            match hit {
                Some(c) => ids.push(c.id.clone()),
                None => {
                    if l.starts_with("(assert (not ") {
                        ids.push("__probe".to_string());
                    }
                }
            }
        }
        self.verdict(&ids, false)
    }
}

fn head(o: &str) -> String {
    z3_head(o)
}

fn analyze(c: &Core, z: &Solver) -> Driver {
    let mut d = Driver::new(c);
    let mut guard = 0;
    while let Some(script) = d.next_script(c) {
        let o = z.answer(&script, c);
        assert!(d.answer_ok(&o), "the analysis cannot take this answer");
        d.feed(c, &o);
        guard += 1;
        assert!(guard < 200, "driver did not terminate");
    }
    d
}

fn lattice(c: &Core, z: &Solver) -> LatOut {
    let mut l = Lattice::new(c);
    let mut guard = 0;
    while let Some(script) = l.next_script(c) {
        let o = z.answer(&script, c);
        l.feed(&o);
        guard += 1;
        assert!(guard < 4096, "lattice did not terminate");
    }
    l.out
}

fn witness(c: &Core, probe: Formula, z: &Solver) -> WitnessDriver {
    let mut w = WitnessDriver::new(c, probe);
    let mut g = 0;
    while let Some(script) = w.next_script(c) {
        let o = z.answer(&script, c);
        w.feed(&o);
        g += 1;
        assert!(g < 200, "witness did not terminate");
    }
    w
}

fn defeasible(c: &Core, z: &Solver) -> DefeasibleDriver {
    let mut d = DefeasibleDriver::new(c);
    let mut g = 0;
    while let Some(script) = d.next_script(c) {
        let o = z.answer(&script, c);
        d.feed(c, &o);
        g += 1;
        assert!(g < 500, "defeasible driver did not terminate");
    }
    d
}

fn sorted(v: &[String]) -> Vec<String> {
    let mut x = v.to_vec();
    x.sort();
    x
}

fn as_sets(v: &[Vec<String>]) -> Vec<Vec<String>> {
    v.iter().map(|s| sorted(s)).collect()
}

fn strs(xs: &[&str]) -> Vec<String> {
    xs.iter().map(|x| x.to_string()).collect()
}

fn seeded_demo() -> Core {
    let mut c = Core::new();
    c.seed_demo();
    c
}

const PEN_NOFLY: &str = r#"{"claims":[{"id":"c_pen_nofly","weight":1,
  "formula":{"op":"forall","vars":[{"name":"x","sort":"Thing"}],
    "body":{"op":"imp",
      "a":{"op":"pred","name":"Penguin","args":[{"t":"var","name":"x"}]},
      "b":{"op":"not","x":{"op":"pred","name":"Flies","args":[{"t":"var","name":"x"}]}}}}}]}"#;

const PENGUIN_CONFLICT: &[&str] = &["c_birds_fly", "c_penguin_bird", "c_tweety_penguin", "c_pen_nofly"];

const FLIES_TWEETY: &str = r#"{"op":"pred","name":"Flies","args":[{"t":"app","name":"tweety","args":[]}]}"#;

const FLIES_TWEETY_FORCED: &[&str] = &["c_birds_fly", "c_penguin_bird", "c_tweety_penguin", "__probe"];

const P_Q_PAIRS: &str = r#"{"preds":[{"name":"P","args":[],"gloss":"p"},{"name":"Q","args":[],"gloss":"q"}],
  "claims":[
   {"id":"c_p","formula":{"op":"pred","name":"P","args":[]}},
   {"id":"c_np","formula":{"op":"not","x":{"op":"pred","name":"P","args":[]}}},
   {"id":"c_q","formula":{"op":"pred","name":"Q","args":[]}},
   {"id":"c_nq","formula":{"op":"not","x":{"op":"pred","name":"Q","args":[]}}}]}"#;

#[test]
fn explanation_witness_is_minimal() {
    let c = seeded_demo();
    let probe = parse_formula(FLIES_TWEETY);
    let z = Solver::new(&[FLIES_TWEETY_FORCED], &[]);
    let r = witness(&c, probe, &z);
    assert_eq!(r.status, "entailed");
    assert_eq!(
        sorted(&r.witness),
        vec!["c_birds_fly", "c_penguin_bird", "c_tweety_penguin"],
        "witness must be the minimal forcing chain"
    );
}

#[test]
fn explanation_witness_not_entailed() {
    let mut c = Core::new();
    ingest(
        &mut c,
        r#"{"sorts":["Thing"],
          "preds":[{"name":"Bird","args":["Thing"]},{"name":"Flies","args":["Thing"]}],
          "funcs":[{"name":"tweety","args":[],"ret":"Thing"}],
          "claims":[{"id":"c_bf","formula":{"op":"forall","vars":[{"name":"x","sort":"Thing"}],
            "body":{"op":"imp","a":{"op":"pred","name":"Bird","args":[{"t":"var","name":"x"}]},
                                "b":{"op":"pred","name":"Flies","args":[{"t":"var","name":"x"}]}}}}]}"#,
    );
    let probe = parse_formula(FLIES_TWEETY);
    let z = Solver::new(&[], &[]);
    let r = witness(&c, probe, &z);
    assert_eq!(r.status, "not_entailed");
    assert_eq!(r.entailed(), false);
}

#[test]
fn back_translation_field_round_trips() {
    let mut c = Core::new();
    assert!(
        ingest(
            &mut c,
            r#"{"preds":[{"name":"P","args":[],"gloss":"p"}],
              "claims":[{"id":"c1","source":"It is P.","back":"P holds.",
                "formula":{"op":"pred","name":"P","args":[]}}]}"#
        )
        .0
    );
    assert_eq!(c.meta().claims[0].back, "P holds.");
}

#[test]
fn lattice_consistent_one_position() {
    let c = seeded_demo();
    let r = lattice(&c, &Solver::new(&[], &[]));
    assert_eq!(r.consistent, true);
    assert!(r.mus.is_empty());
    let mss = as_sets(&r.mss);
    assert_eq!(mss.len(), 1, "one coherent position = everything");
    assert_eq!(mss[0].len(), 3);
}

#[test]
fn lattice_penguin_single_mus_four_positions() {
    let mut c = seeded_demo();
    ingest(&mut c, PEN_NOFLY);
    let r = lattice(&c, &Solver::new(&[PENGUIN_CONFLICT], &[]));
    assert_eq!(r.consistent, false);
    let mus = as_sets(&r.mus);
    assert_eq!(mus.len(), 1, "one irreducible disagreement");
    assert_eq!(mus[0].len(), 4);
    let mcs = as_sets(&r.mcs);
    assert_eq!(mcs.len(), 4, "four ways out (drop any one)");
    assert!(mcs.iter().all(|m| m.len() == 1));
    let mss = as_sets(&r.mss);
    assert_eq!(mss.len(), 4, "four maximal coherent positions");
    assert!(mss.iter().all(|p| p.len() == 3));
}

#[test]
fn lattice_two_independent_conflicts_duality() {
    let mut c = Core::new();
    ingest(&mut c, P_Q_PAIRS);
    let r = lattice(&c, &Solver::new(&[&["c_p", "c_np"], &["c_q", "c_nq"]], &[]));
    assert_eq!(r.consistent, false);
    let mut mus = as_sets(&r.mus);
    mus.sort();
    assert_eq!(
        mus,
        vec![vec!["c_np".to_string(), "c_p".to_string()], vec!["c_nq".to_string(), "c_q".to_string()]]
    );
    let mcs = as_sets(&r.mcs);
    assert_eq!(mcs.len(), 4, "4 minimal hitting sets: {mcs:?}");
    assert!(mcs.iter().all(|m| m.len() == 2));
}

#[test]
fn ir_compiles_and_renders() {
    let mut c = Core::new();
    assert!(
        ingest(
            &mut c,
            r#"{"preds":[{"name":"P","args":[],"gloss":"p"}],
            "claims":[{"id":"c1","formula":{"op":"pred","name":"P","args":[]}}]}"#
        )
        .0
    );
    assert_eq!(form_smt(&c.claims[0].formula), "P");
    assert_eq!(form_en(&c.claims[0].formula), "P");
    let o = Solver::new(&[], &[]).answer(&c.smt_check(), &c);
    assert_eq!(head(&o), "sat");
}

#[test]
fn english_render_has_no_smt() {
    let c = seeded_demo();
    let r = form_en(&c.claims[0].formula);
    assert!(r.contains("for every") && r.contains("if"), "{r}");
    assert!(!r.contains("=>") && !r.contains("(op"), "leaked smt: {r}");
}

#[test]
fn quantified_penguin_contradiction_and_core() {
    let mut c = seeded_demo();
    let z = Solver::new(&[PENGUIN_CONFLICT], &[]);
    let o = z.answer(&c.smt_check(), &c);
    assert_eq!(head(&o), "sat", "{o}");
    assert!(
        ingest(
            &mut c,
            r#"{"claims":[{"id":"c_pen_nofly","source":"Penguins cannot fly.","weight":3,
      "formula":{"op":"forall","vars":[{"name":"x","sort":"Thing"}],
        "body":{"op":"imp",
          "a":{"op":"pred","name":"Penguin","args":[{"t":"var","name":"x"}]},
          "b":{"op":"not","x":{"op":"pred","name":"Flies","args":[{"t":"var","name":"x"}]}}}}}]}"#
        )
        .0
    );
    let o = z.answer(&c.smt_check(), &c);
    assert_eq!(head(&o), "unsat", "{o}");
}

#[test]
fn analysis_minimal_conflict_and_optimal_repair() {
    // weights: birds_fly 2, penguin_bird 5, tweety_penguin 4, pen_nofly 3
    // single MUS = all four; min-weight repair drops birds_fly (2).
    let mut c = seeded_demo();
    ingest(
        &mut c,
        r#"{"claims":[{"id":"c_pen_nofly","weight":3,
      "formula":{"op":"forall","vars":[{"name":"x","sort":"Thing"}],
        "body":{"op":"imp",
          "a":{"op":"pred","name":"Penguin","args":[{"t":"var","name":"x"}]},
          "b":{"op":"not","x":{"op":"pred","name":"Flies","args":[{"t":"var","name":"x"}]}}}}}]}"#,
    );
    let r = analyze(&c, &Solver::new(&[PENGUIN_CONFLICT], &[]));
    assert_eq!(r.status, "inconsistent");
    assert_eq!(sorted(&r.mus), vec!["c_birds_fly", "c_pen_nofly", "c_penguin_bird", "c_tweety_penguin"]);
    assert_eq!(r.repair, vec!["c_birds_fly"]);
    assert_eq!(r.repair_weight, 2);
}

#[test]
fn analysis_consistent_set() {
    let c = seeded_demo();
    let r = analyze(&c, &Solver::new(&[], &[]));
    assert_eq!(r.status, "consistent");
}

#[test]
fn arithmetic_conflict_beyond_propositional() {
    let mut c = Core::new();
    ingest(
        &mut c,
        r#"{"funcs":[{"name":"x","args":[],"ret":"Int","gloss":"the number x"}],
      "claims":[
       {"id":"c_big","formula":{"op":"cmp","rel":">","a":{"t":"app","name":"x","args":[]},"b":{"t":"int","v":5}}},
       {"id":"c_small","formula":{"op":"cmp","rel":"<","a":{"t":"app","name":"x","args":[]},"b":{"t":"int","v":3}}}]}"#,
    );
    let z = Solver::new(&[&["c_big", "c_small"]], &[]);
    let o = z.answer(&c.smt_check(), &c);
    assert_eq!(head(&o), "unsat", "{o}");
    let r = analyze(&c, &z);
    assert_eq!(r.status, "inconsistent");
    assert_eq!(sorted(&r.mus), vec!["c_big", "c_small"]);
}

#[test]
fn ground_atoms_surfaced_and_entailed() {
    let c = seeded_demo();
    let m = c.meta();
    let labels: Vec<String> = m.ground_atoms.iter().map(|g| g.label.clone()).collect();
    assert!(labels.iter().any(|l| l == "Flies(tweety)"), "{labels:?}");
    let f = &m.ground_atoms.iter().find(|g| g.label == "Flies(tweety)").unwrap().formula;
    let o = Solver::new(&[FLIES_TWEETY_FORCED], &[]).answer(&c.smt_entails(f), &c);
    assert_eq!(head(&o), "unsat", "Flies(tweety) must be entailed: {o}");
}

#[test]
fn entailment_forced_consequence() {
    let c = seeded_demo();
    let probe = parse_formula(FLIES_TWEETY);
    let o = Solver::new(&[FLIES_TWEETY_FORCED], &[]).answer(&c.smt_entails(&probe), &c);
    assert_eq!(head(&o), "unsat", "Flies(tweety) should be entailed: {o}");
}

#[test]
fn state_round_trips() {
    // A branch in the trajectory tree is a saved Core. Export the
    // penguin world-model, import it into a fresh one, and check the
    // imported branch analyses identically (same conflict).
    let mut a = seeded_demo();
    ingest(
        &mut a,
        r#"{"claims":[{"id":"c_pen_nofly","weight":3,
          "formula":{"op":"forall","vars":[{"name":"x","sort":"Thing"}],
            "body":{"op":"imp",
              "a":{"op":"pred","name":"Penguin","args":[{"t":"var","name":"x"}]},
              "b":{"op":"not","x":{"op":"pred","name":"Flies","args":[{"t":"var","name":"x"}]}}}}}]}"#,
    );
    let snap = export_state(&a);
    let mut b = Core::new();
    assert!(import_state(&mut b, &snap), "snapshot must import");
    assert_eq!(meta_text(&a.meta()), meta_text(&b.meta()), "imported branch must match exactly");
    let z = Solver::new(&[PENGUIN_CONFLICT], &[]);
    let ra = lattice(&a, &z);
    let rb = lattice(&b, &z);
    assert_eq!(ra, rb, "forked branch must analyse identically");
    assert!(!import_state(&mut b, "{ not json"), "garbage must be rejected");
}

#[test]
fn argumentation_penguin_framework() {
    let mut c = seeded_demo();
    ingest(&mut c, PEN_NOFLY);
    let r = lattice(&c, &Solver::new(&[PENGUIN_CONFLICT], &[]));
    let af = &r.af;
    let atk = as_sets(&af.attacks);
    assert_eq!(atk.len(), 6, "all 4 mutually attack: {atk:?}");
    assert!(af.skeptical.is_empty());
    assert_eq!(af.credulous.len(), 4);
    assert!(af.defeated.is_empty());
}

#[test]
fn argumentation_two_conflicts_and_consistent() {
    let mut c = Core::new();
    ingest(&mut c, P_Q_PAIRS);
    let r = lattice(&c, &Solver::new(&[&["c_p", "c_np"], &["c_q", "c_nq"]], &[]));
    let mut atk = as_sets(&r.af.attacks);
    atk.sort();
    assert_eq!(
        atk,
        vec![vec!["c_np".to_string(), "c_p".to_string()], vec!["c_nq".to_string(), "c_q".to_string()]],
        "attacks must be exactly the two contradictory pairs"
    );
    let k = seeded_demo();
    let rk = lattice(&k, &Solver::new(&[], &[]));
    let af = &rk.af;
    assert!(af.attacks.is_empty());
    assert_eq!(
        sorted(&af.skeptical),
        vec!["c_birds_fly", "c_penguin_bird", "c_tweety_penguin"],
        "in a coherent world-model every claim is skeptically accepted"
    );
    assert!(af.defeated.is_empty());
}

#[test]
fn defeasible_penguin_specificity_from_own_kb() {
    // The two rules are defaults, the facts strict; specificity comes
    // from the strict claim that penguins are birds.
    let mut c = seeded_demo();
    ingest(
        &mut c,
        r#"{"claims":[{"id":"c_pen_nofly","weight":1,"defeasible":true,
          "formula":{"op":"forall","vars":[{"name":"x","sort":"Thing"}],
            "body":{"op":"imp",
              "a":{"op":"pred","name":"Penguin","args":[{"t":"var","name":"x"}]},
              "b":{"op":"not","x":{"op":"pred","name":"Flies","args":[{"t":"var","name":"x"}]}}}}}]}"#,
    );
    c.claims.iter_mut().find(|x| x.id == "c_birds_fly").unwrap().defeasible = true;
    let r = defeasible(&c, &Solver::new(&[PENGUIN_CONFLICT], &[("Penguin", "Bird")]));
    assert_eq!(r.status, "defeasibly-coherent");
    let ov: Vec<String> = r.beaten_by().into_iter().map(|(id, _)| id).collect();
    assert_eq!(ov, vec!["c_birds_fly"], "the GENERAL rule is the one overridden");
    assert!(r.accepted.contains(&"c_pen_nofly".to_string()), "the specific rule survives");
    let spec: Vec<Vec<String>> = r.spec.iter().map(|(m, l)| vec![m.clone(), l.clone()]).collect();
    assert!(
        spec.iter().any(|e| e == &vec!["c_birds_fly".to_string(), "c_pen_nofly".to_string()]
            || e == &vec!["c_pen_nofly".to_string(), "c_birds_fly".to_string()]),
        "penguin⊑bird specificity must be derived from the KB: {spec:?}"
    );
}

#[test]
fn defeasible_does_not_rescue_strict_contradiction() {
    let mut c = Core::new();
    ingest(
        &mut c,
        r#"{"preds":[{"name":"P","args":[],"gloss":"p"}],
          "claims":[
           {"id":"c_p","formula":{"op":"pred","name":"P","args":[]}},
           {"id":"c_np","formula":{"op":"not","x":{"op":"pred","name":"P","args":[]}}}]}"#,
    );
    let r = defeasible(&c, &Solver::new(&[&["c_p", "c_np"]], &[]));
    assert_eq!(r.status, "inconsistent");
    let strict_inconsistent = r.status == "inconsistent";
    assert_eq!(strict_inconsistent, true);
}

#[test]
fn defeasible_flag_defaults_false_and_round_trips() {
    let mut c = Core::new();
    assert!(
        ingest(
            &mut c,
            r#"{"preds":[{"name":"P","args":[],"gloss":"p"}],
          "claims":[{"id":"c1","formula":{"op":"pred","name":"P","args":[]}}]}"#
        )
        .0
    );
    assert_eq!(c.meta().claims[0].defeasible, false);
    let snap = export_state(&c);
    let mut d = Core::new();
    assert!(import_state(&mut d, &snap));
    assert_eq!(d.meta().claims[0].defeasible, false);
}

#[test]
fn triage_prompt_carries_the_conflict() {
    let c = seeded_demo();
    let irs: Vec<String> = c.claims.iter().map(|x| formula_json(&x.formula).to_string()).collect();
    let p = c.triage_prompt(&vec!["c_birds_fly".to_string(), "c_tweety_penguin".to_string()], &irs);
    assert!(p.contains("id c_birds_fly") && p.contains("id c_tweety_penguin"));
    assert!(p.contains("Birds can fly.") && p.contains("Tweety is a penguin."));
    assert!(p.contains("for every") && p.contains("\"op\""), "render + IR present");
    assert!(p.contains("INTRINSIC") && p.contains("FORMALIZATION"));
    assert!(p.contains("\"verdict\"") && p.contains("\"fix\""));
}

#[test]
fn marco_scales_past_the_old_cap() {
    // 12 active claims: one 3-claim conflict {P, P⇒Q, ¬Q} and 9
    // independent claims; enumerated exactly, not capped.
    let mut c = Core::new();
    let mut preds = String::from(r#"{"name":"P","args":[]},{"name":"Q","args":[]}"#);
    for i in 1..=9 {
        preds.push_str(&format!(r#",{{"name":"R{i}","args":[]}}"#));
    }
    let mut claims = String::from(
        r#"{"id":"c_a","formula":{"op":"pred","name":"P","args":[]}},
           {"id":"c_b","formula":{"op":"imp","a":{"op":"pred","name":"P","args":[]},"b":{"op":"pred","name":"Q","args":[]}}},
           {"id":"c_c","formula":{"op":"not","x":{"op":"pred","name":"Q","args":[]}}}"#,
    );
    for i in 1..=9 {
        claims.push_str(&format!(r#",{{"id":"c_r{i}","formula":{{"op":"pred","name":"R{i}","args":[]}}}}"#));
    }
    assert!(ingest(&mut c, &format!(r#"{{"preds":[{preds}],"claims":[{claims}]}}"#)).0);
    assert_eq!(c.active().len(), 12);
    let r = lattice(&c, &Solver::new(&[&["c_a", "c_b", "c_c"]], &[]));
    assert_eq!(r.consistent, false);
    assert_eq!(r.capped, false, "MARCO must not cap at 12 claims");
    let mut mus = as_sets(&r.mus);
    mus.sort();
    assert_eq!(mus, vec![vec!["c_a".to_string(), "c_b".into(), "c_c".into()]]);
    let mcs = as_sets(&r.mcs);
    assert_eq!(mcs.len(), 3, "3 ways out (drop any of the 3): {mcs:?}");
    assert!(mcs.iter().all(|m| m.len() == 1));
    let mss = as_sets(&r.mss);
    assert_eq!(mss.len(), 3);
    assert!(mss.iter().all(|p| p.len() == 11), "each position keeps 11/12");
}

#[test]
fn autodeclare_underdeclared_ir_is_well_formed_not_unknown() {
    // The constants A, B, C are used but never declared; they must be
    // declared from their use, so the solver gets a well-formed script.
    let mut c = Core::new();
    assert!(
        ingest(
            &mut c,
            r#"{"sorts":["Thing"],
          "preds":[{"name":"Bigger","args":["Thing","Thing"],"gloss":"x>y"}],
          "claims":[
           {"id":"c_ab","formula":{"op":"pred","name":"Bigger","args":[
             {"t":"app","name":"A","args":[]},{"t":"app","name":"B","args":[]}]}},
           {"id":"c_bc","formula":{"op":"pred","name":"Bigger","args":[
             {"t":"app","name":"B","args":[]},{"t":"app","name":"C","args":[]}]}}]}"#
        )
        .0
    );
    let script = c.smt_check();
    for k in ["A", "B", "C"] {
        assert!(script.contains(&format!("(declare-fun {k} () Thing)")), "{script}");
    }
    let r = lattice(&c, &Solver::new(&[], &[]));
    assert_eq!(r.unknown, false, "must NOT be undecided");
    assert_eq!(r.consistent, true, "two unrelated facts cohere");

    let mut d = Core::new();
    assert!(
        ingest(
            &mut d,
            r#"{"sorts":["Thing"],
          "preds":[{"name":"Gt","args":["Thing","Thing"],"gloss":"x>y"}],
          "claims":[
           {"id":"c_trans","formula":{"op":"forall",
             "vars":[{"name":"x","sort":"Thing"},{"name":"y","sort":"Thing"},{"name":"z","sort":"Thing"}],
             "body":{"op":"imp",
               "a":{"op":"and","xs":[
                 {"op":"pred","name":"Gt","args":[{"t":"var","name":"x"},{"t":"var","name":"y"}]},
                 {"op":"pred","name":"Gt","args":[{"t":"var","name":"y"},{"t":"var","name":"z"}]}]},
               "b":{"op":"pred","name":"Gt","args":[{"t":"var","name":"x"},{"t":"var","name":"z"}]}}}},
           {"id":"c_irr","formula":{"op":"forall","vars":[{"name":"x","sort":"Thing"}],
             "body":{"op":"not","x":{"op":"pred","name":"Gt","args":[{"t":"var","name":"x"},{"t":"var","name":"x"}]}}}},
           {"id":"c_ab","formula":{"op":"pred","name":"Gt","args":[{"t":"app","name":"A","args":[]},{"t":"app","name":"B","args":[]}]}},
           {"id":"c_bc","formula":{"op":"pred","name":"Gt","args":[{"t":"app","name":"B","args":[]},{"t":"app","name":"C","args":[]}]}},
           {"id":"c_ca","formula":{"op":"pred","name":"Gt","args":[{"t":"app","name":"C","args":[]},{"t":"app","name":"A","args":[]}]}}]}"#
        )
        .0
    );
    let r = lattice(&d, &Solver::new(&[&["c_trans", "c_irr", "c_ab", "c_bc", "c_ca"]], &[]));
    assert_eq!(r.unknown, false);
    assert_eq!(r.consistent, false, "a strict 3-cycle is inconsistent");
    assert!(!r.mus.is_empty(), "the cycle is a real MUS");
}

#[test]
fn scenario_seed_is_a_rich_lattice() {
    let mut c = Core::new();
    c.seed_scenario();
    let z = Solver::new(
        &[
            &["c_ships", "c_ship_needs_tests", "c_tests_fail"],
            &["c_ships", "c_ship_needs_review", "c_not_reviewed"],
            &["c_quality", "c_quality_needs_review", "c_not_reviewed"],
        ],
        &[],
    );
    let r = lattice(&c, &z);
    assert_eq!(r.unknown, false);
    assert_eq!(r.consistent, false);
    assert_eq!(r.capped, false, "must be exhaustive, not budget-capped");
    let mut mus = as_sets(&r.mus);
    mus.sort();
    assert_eq!(
        mus,
        vec![
            strs(&["c_not_reviewed", "c_quality", "c_quality_needs_review"]),
            strs(&["c_not_reviewed", "c_ship_needs_review", "c_ships"]),
            strs(&["c_ship_needs_tests", "c_ships", "c_tests_fail"]),
        ],
        "exactly the three intended overlapping conflicts"
    );
    assert!(r.mss.len() >= 3, "several coherent positions");
    let sk = &r.af.skeptical;
    assert!(
        sk.contains(&"c_budget".to_string()) && sk.contains(&"c_team".to_string()),
        "independent facts must be skeptically accepted: {sk:?}"
    );
}

#[test]
fn marco_mcs_is_reiter_dual_of_mus() {
    for setup in [0u8, 1u8] {
        let mut c = Core::new();
        let z = if setup == 0 {
            c.seed_demo();
            ingest(
                &mut c,
                r#"{"claims":[{"id":"c_pen_nofly",
                  "formula":{"op":"forall","vars":[{"name":"x","sort":"Thing"}],
                    "body":{"op":"imp",
                      "a":{"op":"pred","name":"Penguin","args":[{"t":"var","name":"x"}]},
                      "b":{"op":"not","x":{"op":"pred","name":"Flies","args":[{"t":"var","name":"x"}]}}}}}]}"#,
            );
            Solver::new(&[PENGUIN_CONFLICT], &[])
        } else {
            ingest(
                &mut c,
                r#"{"preds":[{"name":"P","args":[]},{"name":"Q","args":[]}],
                  "claims":[
                   {"id":"c_p","formula":{"op":"pred","name":"P","args":[]}},
                   {"id":"c_np","formula":{"op":"not","x":{"op":"pred","name":"P","args":[]}}},
                   {"id":"c_q","formula":{"op":"pred","name":"Q","args":[]}},
                   {"id":"c_nq","formula":{"op":"not","x":{"op":"pred","name":"Q","args":[]}}}]}"#,
            );
            Solver::new(&[&["c_p", "c_np"], &["c_q", "c_nq"]], &[])
        };
        let r = lattice(&c, &z);
        let mus = as_sets(&r.mus);
        let active = c.active_ids();
        let mut expect = minimal_hitting_sets(&mus, &active);
        for s in expect.iter_mut() {
            s.sort();
        }
        expect.sort();
        let mut got = as_sets(&r.mcs);
        got.sort();
        assert_eq!(got, expect, "MCS must be the minimal hitting sets of MUS (setup {setup})");
    }
}

#[test]
fn belief_elicitation_prompt_is_honest_and_well_formed() {
    let c = seeded_demo();
    let p = c.belief_elicitation_prompt("animal flight and taxonomy", 12);
    assert!(p.contains("animal flight and taxonomy") && p.contains("12 separate"));
    assert!(p.contains("\"op\"") && p.contains("forall"), "IR grammar present");
    assert!(p.contains("REUSE one symbol per concept"));
    assert!(p.contains("not their truth"), "honesty framing present");
    assert!(p.contains("Bird"), "existing vocabulary carried for reuse");
    assert!(!p.contains("```"), "must forbid code fences");
}

#[test]
fn revision_replaces_same_id() {
    let mut c = Core::new();
    ingest(
        &mut c,
        r#"{"preds":[{"name":"P","args":[],"gloss":"p"}],
      "claims":[{"id":"c1","formula":{"op":"pred","name":"P","args":[]}}]}"#,
    );
    ingest(&mut c, r#"{"claims":[{"id":"c1","formula":{"op":"not","x":{"op":"pred","name":"P","args":[]}}}]}"#);
    assert_eq!(c.claims.len(), 1);
    let o = Solver::new(&[], &[]).answer(&c.smt_check(), &c);
    assert_eq!(head(&o), "sat");
}
