//! What holds of the engine across calls and across every input.
use vstd::prelude::*;
use crate::ir::Claim;
use crate::world::Core;
use crate::ingest::{find_id, merge_claims};
use crate::engine::{set_active, set_weight, import_outcome};
use crate::argue::{framework, select, in_some, in_all, attack_list, attack_set, pairs_sorted};
use crate::lattice::{LatticeView, final_out, lattice_step, MPhaseView, record_mus, record_mss};
use crate::ingest::{ingest_effect, sig_table, grow_decls, used_preds, used_funcs};
use crate::symtab::{strictly_sorted, sorted_keys};
use crate::symbols::absorb;
use crate::text::{chars_lt, lemma_chars_lt_total, lemma_chars_lt_transitive, lemma_chars_lt_irreflexive};
use crate::ir::Ingest;
use crate::seeds::demo_batch_is;
use crate::analysis::{DriverView, PhaseView, analysis_step, starts_with, subset_key, key_le, insert_stable,
    stable_sort, subsets_by_weight};
use crate::answers::first_nonblank_line;
use crate::defeasible::{DefeasibleView, DPhaseView, defeasible_step, ranks_before, rank_insert, ranked};
use crate::lattice::{budget_hit, ids_at};

verus! {

/// Where the first claim with an id stands: a position holding that id,
/// or -1.
proof fn lemma_find_id_range(cs: Seq<Claim>, id: Seq<char>)
    ensures
        find_id(cs, id) >= 0 ==> find_id(cs, id) < cs.len() && cs[find_id(cs, id)].id@ == id,
        find_id(cs, id) < 0 ==> find_id(cs, id) == -1,
    decreases cs.len(),
{
    if cs.len() > 0 {
        lemma_find_id_range(cs.drop_last(), id);
    }
}

/// Ingesting a claim under an id that is already there revises that
/// claim in place: the trajectory keeps its length, the first claim with
/// the id becomes the new one, and every other claim stays.
pub proof fn law_revision_replaces_same_id(cs: Seq<Claim>, c: Claim)
    requires
        find_id(cs, c.id@) >= 0,
    ensures
        merge_claims(cs, seq![c]).len() == cs.len(),
        merge_claims(cs, seq![c])[find_id(cs, c.id@)] == c,
        forall|i: int| 0 <= i < cs.len() && i != find_id(cs, c.id@) ==> #[trigger] merge_claims(cs, seq![c])[i] == cs[i],
{
    lemma_find_id_range(cs, c.id@);
    assert(seq![c].drop_last() =~= Seq::<Claim>::empty());
    assert(merge_claims(cs, Seq::<Claim>::empty()) == cs);
}

/// A claim under a new id is appended after the others.
pub proof fn law_new_id_appends(cs: Seq<Claim>, c: Claim)
    requires
        find_id(cs, c.id@) < 0,
    ensures
        merge_claims(cs, seq![c]) == cs.push(c),
{
    lemma_find_id_range(cs, c.id@);
    assert(seq![c].drop_last() =~= Seq::<Claim>::empty());
    assert(merge_claims(cs, Seq::<Claim>::empty()) == cs);
}

/// The first claim with an id is still the first one after that claim
/// is replaced by one with the same id.
proof fn lemma_find_id_update(cs: Seq<Claim>, id: Seq<char>, c: Claim)
    requires
        find_id(cs, id) >= 0,
        c.id@ == id,
    ensures
        find_id(cs.update(find_id(cs, id), c), id) == find_id(cs, id),
    decreases cs.len(),
{
    lemma_find_id_range(cs, id);
    lemma_find_id_range(cs.drop_last(), id);
    let j = find_id(cs, id);
    let u = cs.update(j, c);
    if find_id(cs.drop_last(), id) >= 0 {
        lemma_find_id_update(cs.drop_last(), id, c);
        assert(u.drop_last() =~= cs.drop_last().update(j, c));
    } else {
        assert(j == cs.len() - 1);
        assert(u.drop_last() =~= cs.drop_last());
    }
}

/// Retracting a claim that is active and then reactivating it gives the
/// trajectory back unchanged; so does doing both when no claim has the id.
pub proof fn law_retract_then_reactivate(cs: Seq<Claim>, id: Seq<char>)
    requires
        find_id(cs, id) >= 0 ==> cs[find_id(cs, id)].active,
    ensures
        set_active(set_active(cs, id, false), id, true) == cs,
{
    lemma_find_id_range(cs, id);
    let j = find_id(cs, id);
    if j >= 0 {
        let c2 = Claim { active: false, ..cs[j] };
        lemma_find_id_update(cs, id, c2);
        assert(set_active(set_active(cs, id, false), id, true) =~= cs);
    }
}

/// After a weight change the claim's weight is at least 1, and exactly
/// the requested weight when that is at least 1.
pub proof fn law_weight_at_least_one(cs: Seq<Claim>, id: Seq<char>, w: i64)
    requires
        find_id(cs, id) >= 0,
    ensures
        set_weight(cs, id, w)[find_id(cs, id)].weight >= 1,
        w >= 1 ==> set_weight(cs, id, w)[find_id(cs, id)].weight == w,
        set_weight(cs, id, w).len() == cs.len(),
{
    lemma_find_id_range(cs, id);
}

/// Importing the world-model just exported takes the branch and gives
/// back the very same world-model.
pub proof fn law_export_import_round_trip(pre: Core, post: Core, ok: bool)
    requires
        pre.wf(),
        import_outcome(pre, post, Some(pre), ok),
    ensures
        ok,
        post == pre,
{
}

/// A refused branch leaves the world-model as it was.
pub proof fn law_refused_import_keeps_world(pre: Core, post: Core, ok: bool)
    requires
        import_outcome(pre, post, None, ok),
    ensures
        !ok,
        post == pre,
{
}

/// What `select` keeps: an id is selected exactly when it is in the list
/// and passes the test.
proof fn lemma_select_contains(active: Seq<Seq<char>>, keep: spec_fn(Seq<char>) -> bool, x: Seq<char>)
    ensures
        select(active, keep).contains(x) == (active.contains(x) && keep(x)),
    decreases active.len(),
{
    if active.len() > 0 {
        lemma_select_contains(active.drop_last(), keep, x);
        let d = active.drop_last();
        if active.contains(x) && x != active.last() {
            let i = choose|i: int| 0 <= i < active.len() && active[i] == x;
            assert(d[i] == x);
        }
        if d.contains(x) {
            let i = choose|i: int| 0 <= i < d.len() && d[i] == x;
            assert(active[i] == x);
        }
        let s = select(d, keep);
        if keep(active.last()) {
            if s.contains(x) {
                let i = choose|i: int| 0 <= i < s.len() && s[i] == x;
                assert(s.push(active.last())[i] == x);
            }
            if x == active.last() {
                assert(s.push(active.last())[s.len() as int] == x);
            }
            if s.push(active.last()).contains(x) && x != active.last() {
                let i = choose|i: int| 0 <= i < s.len() + 1 && s.push(active.last())[i] == x;
                assert(s[i] == x);
            }
        }
    }
}

/// How many ids `select` keeps and drops under a test and its negation.
proof fn lemma_select_split(active: Seq<Seq<char>>, keep: spec_fn(Seq<char>) -> bool, drop: spec_fn(Seq<char>) -> bool)
    requires
        forall|x: Seq<char>| #[trigger] drop(x) == !keep(x),
    ensures
        select(active, keep).len() + select(active, drop).len() == active.len(),
    decreases active.len(),
{
    if active.len() > 0 {
        lemma_select_split(active.drop_last(), keep, drop);
    }
}

/// In the argumentation reading, a claim accepted skeptically (in every
/// maximal coherent position) is accepted credulously (in some).
pub proof fn law_skeptical_within_credulous(muses: Seq<Seq<Seq<char>>>, mss: Seq<Seq<Seq<char>>>, active: Seq<Seq<char>>, x: Seq<char>)
    requires
        framework(muses, mss, active).skeptical.contains(x),
    ensures
        framework(muses, mss, active).credulous.contains(x),
{
    lemma_select_contains(active, |id: Seq<char>| in_all(mss, id), x);
    lemma_select_contains(active, |id: Seq<char>| in_some(mss, id), x);
    assert(mss[0].contains(x));
}

/// Every claim is credulously accepted or defeated and never both: the
/// two classes split the claims.
pub proof fn law_credulous_defeated_split(muses: Seq<Seq<Seq<char>>>, mss: Seq<Seq<Seq<char>>>, active: Seq<Seq<char>>, x: Seq<char>)
    ensures
        framework(muses, mss, active).credulous.len() + framework(muses, mss, active).defeated.len() == active.len(),
        active.contains(x) ==> (framework(muses, mss, active).credulous.contains(x) != framework(
            muses,
            mss,
            active,
        ).defeated.contains(x)),
        !active.contains(x) ==> !framework(muses, mss, active).credulous.contains(x) && !framework(
            muses,
            mss,
            active,
        ).defeated.contains(x),
{
    let keep = |id: Seq<char>| in_some(mss, id);
    let drop = |id: Seq<char>| !in_some(mss, id);
    lemma_select_split(active, keep, drop);
    lemma_select_contains(active, keep, x);
    lemma_select_contains(active, drop, x);
}

/// In a coherent world-model (no minimal conflict, one position holding
/// every claim) nothing attacks anything, every claim is accepted
/// skeptically and credulously, and none is defeated.
pub proof fn law_coherent_accepts_everything(active: Seq<Seq<char>>)
    ensures
        framework(Seq::empty(), seq![active], active).attacks.len() == 0,
        framework(Seq::empty(), seq![active], active).skeptical == active,
        framework(Seq::empty(), seq![active], active).credulous == active,
        framework(Seq::empty(), seq![active], active).defeated.len() == 0,
{
    let mss = seq![active];
    assert(attack_set(Seq::<Seq<Seq<char>>>::empty()) =~= Set::empty());
    let e = Seq::<(Seq<char>, Seq<char>)>::empty();
    assert(pairs_sorted(e) && e.to_set() =~= attack_set(Seq::<Seq<Seq<char>>>::empty()));
    let a = attack_list(Seq::<Seq<Seq<char>>>::empty());
    if a.len() > 0 {
        assert(a.to_set().contains(a[0]));
    }
    assert forall|i: int| 0 <= i < active.len() implies in_all(mss, #[trigger] active[i]) by {
        assert(mss[0].contains(active[i]));
    }
    assert forall|i: int| 0 <= i < active.len() implies in_some(mss, #[trigger] active[i]) by {
        assert(mss[0].contains(active[i]));
    }
    lemma_select_all(active, |id: Seq<char>| in_all(mss, id));
    lemma_select_all(active, |id: Seq<char>| in_some(mss, id));
    lemma_select_none(active, |id: Seq<char>| !in_some(mss, id));
}

proof fn lemma_select_all(active: Seq<Seq<char>>, keep: spec_fn(Seq<char>) -> bool)
    requires
        forall|i: int| 0 <= i < active.len() ==> keep(#[trigger] active[i]),
    ensures
        select(active, keep) == active,
    decreases active.len(),
{
    if active.len() > 0 {
        let d = active.drop_last();
        assert forall|i: int| 0 <= i < d.len() implies keep(#[trigger] d[i]) by {
            assert(d[i] == active[i]);
        }
        lemma_select_all(d, keep);
        assert(keep(active[active.len() - 1]));
        assert(d.push(active.last()) =~= active);
    }
}

proof fn lemma_select_none(active: Seq<Seq<char>>, keep: spec_fn(Seq<char>) -> bool)
    requires
        forall|i: int| 0 <= i < active.len() ==> !keep(#[trigger] active[i]),
    ensures
        select(active, keep).len() == 0,
    decreases active.len(),
{
    if active.len() > 0 {
        let d = active.drop_last();
        assert forall|i: int| 0 <= i < d.len() implies !keep(#[trigger] d[i]) by {
            assert(d[i] == active[i]);
        }
        lemma_select_none(d, keep);
        assert(!keep(active[active.len() - 1]));
    }
}

/// The lattice never reports a verdict it does not have: when the
/// solver could not decide, the published result is not "consistent".
/// (Every enumeration starts with nothing undecided, and the next law
/// shows each step keeps the published flag tied to the state's.)
pub proof fn law_unknown_is_never_consistent(l: LatticeView)
    requires
        l.out.unknown ==> l.unknown,
    ensures
        final_out(l).unknown ==> !final_out(l).consistent,
        l.unknown ==> final_out(l).unknown && final_out(l).mus.len() == 0 && final_out(l).mss.len() == 0,
{
}

/// Each step of the enumeration publishes "undecided" only when it is.
pub proof fn law_lattice_step_keeps_unknown_honest(l: LatticeView, out: Seq<char>)
    requires
        l.out.unknown ==> l.unknown,
    ensures
        lattice_step(l, out).out.unknown ==> lattice_step(l, out).unknown,
{
}

/// When no minimal conflict was found (and the solver decided), the
/// lattice publishes a consistent world-model with one coherent
/// position: every active claim.
pub proof fn law_no_conflict_one_position(l: LatticeView)
    requires
        !l.unknown,
        l.muses.len() == 0,
    ensures
        final_out(l).consistent,
        final_out(l).mus.len() == 0,
        final_out(l).mss == seq![l.active],
        final_out(l).af.skeptical == l.active,
        final_out(l).af.defeated.len() == 0,
{
    law_coherent_accepts_everything(l.active);
}

/// The solver's first line starts with at most one of `sat` and
/// `unsat`.
proof fn lemma_sat_unsat_exclusive(h: Seq<char>)
    ensures
        !(starts_with(h, "sat"@) && starts_with(h, "unsat"@)),
{
    reveal_strlit("sat");
    reveal_strlit("unsat");
    if starts_with(h, "sat"@) && starts_with(h, "unsat"@) {
        assert(h[0] == h.take(3)[0]);
        assert(h[0] == h.take(5)[0]);
    }
}

/// An undecided answer (neither `sat` nor `unsat`: `unknown`, an error,
/// nothing) is never read as a verdict by the analysis: before the
/// conflict is settled it stops the analysis as `unknown`.
pub proof fn law_analysis_undecided_stops(d: DriverView, cs: Seq<Claim>, out: Seq<char>)
    requires
        d.phase != PhaseView::Done,
        !(d.phase is Repair),
        !crate::analysis::decided(first_nonblank_line(out)),
    ensures
        analysis_step(d, cs, out).status == "unknown"@,
        analysis_step(d, cs, out).phase == PhaseView::Done,
{
}

/// During the repair search an undecided answer keeps the settled
/// conflict and status, and leaves the repair open: none is chosen.
pub proof fn law_analysis_undecided_repair_left_open(d: DriverView, cs: Seq<Claim>, out: Seq<char>)
    requires
        d.phase is Repair,
        !crate::analysis::decided(first_nonblank_line(out)),
    ensures
        analysis_step(d, cs, out).status == d.status,
        analysis_step(d, cs, out).mus == d.mus,
        analysis_step(d, cs, out).repair == d.repair,
        analysis_step(d, cs, out).repair_weight == d.repair_weight,
        analysis_step(d, cs, out).phase == PhaseView::Done,
{
}

/// Likewise for the witness search: it stops as `unknown`, with no
/// witness and nothing entailed.
pub proof fn law_witness_undecided_stops(w: crate::witness::WitnessView, out: Seq<char>)
    requires
        w.phase != crate::witness::WPhaseView::Done,
        !crate::analysis::decided(first_nonblank_line(out)),
    ensures
        crate::witness::witness_step(w, out).status == "unknown"@,
        crate::witness::witness_step(w, out).phase == crate::witness::WPhaseView::Done,
        crate::witness::witness_step(w, out).witness == w.witness,
{
}

/// Likewise for the defeasible reading: it stops as `unknown`, never
/// coherent and never inconsistent.
pub proof fn law_defeasible_undecided_stops(d: DefeasibleView, cs: Seq<Claim>, out: Seq<char>)
    requires
        d.phase != DPhaseView::Done,
        !crate::analysis::decided(first_nonblank_line(out)),
    ensures
        defeasible_step(d, cs, out).status == "unknown"@,
        defeasible_step(d, cs, out).phase == DPhaseView::Done,
{
}

/// Likewise for the lattice: it stops undecided and publishes no verdict,
/// no conflict and no position (a map query made once the budget is spent
/// is the exception: see the next law).
pub proof fn law_lattice_undecided_stops(l: LatticeView, out: Seq<char>)
    requires
        l.phase != MPhaseView::Done,
        !(l.phase == MPhaseView::MapQuery && budget_hit(l)),
        !crate::analysis::decided(first_nonblank_line(out)),
    ensures
        lattice_step(l, out).phase == MPhaseView::Done,
        lattice_step(l, out).out.unknown,
        !lattice_step(l, out).out.consistent,
        lattice_step(l, out).out.mus.len() == 0,
        lattice_step(l, out).out.mss.len() == 0,
{
}

/// Defaults never rescue a contradiction among the strict claims: when
/// the strict claims alone are unsatisfiable the reading is
/// `inconsistent` and stops.
pub proof fn law_strict_contradiction_not_rescued(d: DefeasibleView, cs: Seq<Claim>, out: Seq<char>)
    requires
        d.phase == DPhaseView::Strict,
        starts_with(first_nonblank_line(out), "unsat"@),
    ensures
        defeasible_step(d, cs, out).status == "inconsistent"@,
        defeasible_step(d, cs, out).phase == DPhaseView::Done,
{
}

/// The subsets a repair is looked for among come cheapest first: total
/// entrenchment, then size, never decreasing; and they are exactly the
/// non-empty subsets of the conflict, each once.
pub proof fn law_repairs_cheapest_first(cs: Seq<Claim>, ids: Seq<Seq<char>>)
    ensures
        forall|i: int, j: int|
            0 <= i < j < subsets_by_weight(cs, ids).len() ==> key_le(
                subset_key(cs, #[trigger] subsets_by_weight(cs, ids)[i]),
                subset_key(cs, #[trigger] subsets_by_weight(cs, ids)[j]),
            ),
        subsets_by_weight(cs, ids).to_multiset() == crate::analysis::subsets_by_mask(ids).to_multiset(),
{
    lemma_stable_sort_sorted(cs, crate::analysis::subsets_by_mask(ids));
}

/// A stable insertion sort by subset key orders and keeps its input.
proof fn lemma_stable_sort_sorted(cs: Seq<Claim>, s: Seq<Seq<Seq<char>>>)
    ensures
        forall|i: int, j: int|
            0 <= i < j < stable_sort(cs, s).len() ==> key_le(
                subset_key(cs, #[trigger] stable_sort(cs, s)[i]),
                subset_key(cs, #[trigger] stable_sort(cs, s)[j]),
            ),
        stable_sort(cs, s).to_multiset() == s.to_multiset(),
    decreases s.len(),
{
    broadcast use vstd::seq_lib::group_to_multiset_ensures;

    if s.len() > 0 {
        lemma_stable_sort_sorted(cs, s.drop_last());
        lemma_insert_stable_sorted(cs, stable_sort(cs, s.drop_last()), s.last());
        assert(s.drop_last().push(s.last()) =~= s);
    }
}

/// Inserting into a cheapest-first list keeps it cheapest first and adds
/// exactly the one subset.
proof fn lemma_insert_stable_sorted(cs: Seq<Claim>, s: Seq<Seq<Seq<char>>>, x: Seq<Seq<char>>)
    requires
        forall|i: int, j: int| 0 <= i < j < s.len() ==> key_le(subset_key(cs, #[trigger] s[i]), subset_key(cs, #[trigger] s[j])),
    ensures
        forall|i: int, j: int|
            0 <= i < j < insert_stable(cs, s, x).len() ==> key_le(
                subset_key(cs, #[trigger] insert_stable(cs, s, x)[i]),
                subset_key(cs, #[trigger] insert_stable(cs, s, x)[j]),
            ),
        insert_stable(cs, s, x).to_multiset() == s.to_multiset().insert(x),
    decreases s.len(),
{
    broadcast use vstd::seq_lib::group_to_multiset_ensures;

    if s.len() == 0 {
        assert(seq![x] =~= Seq::<Seq<Seq<char>>>::empty().push(x));
    } else if key_le(subset_key(cs, s.last()), subset_key(cs, x)) {
        let r = s.push(x);
        assert forall|i: int, j: int| 0 <= i < j < r.len() implies key_le(subset_key(cs, #[trigger] r[i]), subset_key(cs, #[trigger] r[j])) by {
            if j == s.len() {
                if i < s.len() - 1 {
                    assert(key_le(subset_key(cs, s[i]), subset_key(cs, s[s.len() - 1])));
                }
            }
        }
    } else {
        let d = s.drop_last();
        assert forall|i: int, j: int| 0 <= i < j < d.len() implies key_le(subset_key(cs, #[trigger] d[i]), subset_key(cs, #[trigger] d[j])) by {
            assert(d[i] == s[i] && d[j] == s[j]);
        }
        lemma_insert_stable_sorted(cs, d, x);
        let t = insert_stable(cs, d, x);
        let r = t.push(s.last());
        assert(s.last() == s[s.len() - 1]);
        assert forall|k: int| 0 <= k < t.len() implies key_le(subset_key(cs, #[trigger] t[k]), subset_key(cs, s.last())) by {
            assert(t.to_multiset().count(t[k]) > 0);
            assert(d.to_multiset().insert(x).count(t[k]) > 0);
            if t[k] != x {
                assert(d.to_multiset().count(t[k]) > 0);
                assert(d.contains(t[k]));
                let q = choose|q: int| 0 <= q < d.len() && d[q] == t[k];
                assert(s[q] == t[k]);
            }
        }
        assert forall|i: int, j: int| 0 <= i < j < r.len() implies key_le(subset_key(cs, #[trigger] r[i]), subset_key(cs, #[trigger] r[j])) by {
            if j == t.len() {
                assert(r[i] == t[i]);
            } else {
                assert(r[i] == t[i] && r[j] == t[j]);
            }
        }
        assert(d.push(s.last()) =~= s);
    }
}

/// No element occurs twice.
pub open spec fn distinct<T>(s: Seq<T>) -> bool {
    forall|i: int, j: int| 0 <= i < j < s.len() ==> s[i] != s[j]
}

/// The enumeration lists every minimal conflict and every minimal
/// correction set at most once: each step keeps both lists free of
/// repeats.
pub proof fn law_lattice_lists_each_set_once(l: LatticeView, out: Seq<char>)
    requires
        distinct(l.muses),
        distinct(l.mcses),
    ensures
        distinct(lattice_step(l, out).muses),
        distinct(lattice_step(l, out).mcses),
{
    assert forall|m: Seq<usize>| distinct(#[trigger] record_mus(l, m).muses) && record_mus(l, m).mcses == l.mcses by {
        let r = record_mus(l, m).muses;
        if !l.muses.contains(crate::lattice::sort_positions(m)) {
            assert forall|i: int, j: int| 0 <= i < j < r.len() implies r[i] != r[j] by {
                if j == l.muses.len() {
                    assert(r[i] == l.muses[i]);
                }
            }
        }
    }
    assert forall|m: Seq<usize>| distinct(#[trigger] record_mss(l, m).mcses) && record_mss(l, m).muses == l.muses by {
        let r = record_mss(l, m).mcses;
        let mcs = crate::lattice::complement(l.active.len(), crate::lattice::sort_positions(m));
        if mcs.len() > 0 && !l.mcses.contains(mcs) {
            assert forall|i: int, j: int| 0 <= i < j < r.len() implies r[i] != r[j] by {
                if j == l.mcses.len() {
                    assert(r[i] == l.mcses[i]);
                }
            }
        }
    }
}

/// Loading the penguin world-model into an empty one gives exactly its
/// three claims, in order.
pub proof fn law_seeding_an_empty_world_gives_the_demo(pre: Core, post: Core, b: Ingest)
    requires
        pre.claims@.len() == 0,
        demo_batch_is(b),
        ingest_effect(pre, post, b),
    ensures
        post.claims@ == b.claims@,
        post.claims@.len() == 3,
{
    reveal_strlit("c_birds_fly");
    reveal_strlit("c_penguin_bird");
    reveal_strlit("c_tweety_penguin");
    let cs = b.claims@;
    let e = Seq::<Claim>::empty();
    assert(cs.take(1) =~= seq![cs[0]]);
    assert(cs.take(2) =~= seq![cs[0], cs[1]]);
    assert(cs.take(3) =~= cs);
    assert(cs.take(1).drop_last() =~= e);
    assert(cs.take(2).drop_last() =~= cs.take(1));
    assert(cs.take(3).drop_last() =~= cs.take(2));
    assert(merge_claims(e, e) == e);
    assert(find_id(e, cs[0].id@) == -1);
    assert(merge_claims(e, cs.take(1)) == seq![cs[0]]);
    assert(seq![cs[0]].drop_last() =~= e);
    assert(find_id(seq![cs[0]], cs[1].id@) == -1) by {
        assert(find_id(e, cs[1].id@) == -1);
        assert(cs[0].id@.len() != cs[1].id@.len());
    }
    assert(merge_claims(e, cs.take(2)) =~= seq![cs[0], cs[1]]);
    assert(seq![cs[0], cs[1]].drop_last() =~= seq![cs[0]]);
    assert(find_id(seq![cs[0], cs[1]], cs[2].id@) == -1) by {
        assert(find_id(e, cs[2].id@) == -1);
        assert(cs[0].id@.len() != cs[2].id@.len());
        assert(find_id(seq![cs[0]], cs[2].id@) == -1);
        assert(cs[1].id@.len() != cs[2].id@.len());
    }
    assert(merge_claims(e, cs.take(3)) =~= seq![cs[0], cs[1], cs[2]]);
    assert(pre.claims@ =~= e);
}

/// `x` placed into a strictly sorted list of names.
spec fn insert_name(s: Seq<Seq<char>>, x: Seq<char>) -> Seq<Seq<char>>
    decreases s.len(),
{
    if s.len() == 0 {
        seq![x]
    } else if chars_lt(s.last(), x) {
        s.push(x)
    } else {
        insert_name(s.drop_last(), x).push(s.last())
    }
}

proof fn lemma_insert_name(s: Seq<Seq<char>>, x: Seq<char>)
    requires
        strictly_sorted(s),
        !s.contains(x),
    ensures
        strictly_sorted(insert_name(s, x)),
        insert_name(s, x).to_set() == s.to_set().insert(x),
        forall|k: int| 0 <= k < insert_name(s, x).len() ==> (#[trigger] insert_name(s, x)[k] == x || s.contains(insert_name(s, x)[k])),
    decreases s.len(),
{
    if s.len() == 0 {
        assert(seq![x].to_set() =~= Set::<Seq<char>>::empty().insert(x)) by {
            assert(seq![x][0] == x);
        }
        assert(s.to_set() =~= Set::<Seq<char>>::empty());
    } else if chars_lt(s.last(), x) {
        let r = s.push(x);
        assert forall|i: int, j: int| 0 <= i < j < r.len() implies chars_lt(#[trigger] r[i], #[trigger] r[j]) by {
            if j == s.len() && i < s.len() - 1 {
                lemma_chars_lt_transitive(s[i], s[s.len() - 1], x);
            }
        }
        assert(r.to_set() =~= s.to_set().insert(x)) by {
            assert forall|y: Seq<char>| r.to_set().contains(y) implies s.to_set().insert(x).contains(y) by {
                let k = choose|k: int| 0 <= k < r.len() && r[k] == y;
                if k < s.len() {
                    assert(s[k] == y);
                }
            }
            assert forall|y: Seq<char>| s.to_set().insert(x).contains(y) implies r.to_set().contains(y) by {
                if y == x {
                    assert(r[s.len() as int] == x);
                } else {
                    let k = choose|k: int| 0 <= k < s.len() && s[k] == y;
                    assert(r[k] == y);
                }
            }
        }
        assert forall|k: int| 0 <= k < r.len() implies (#[trigger] r[k] == x || s.contains(r[k])) by {
            if k < s.len() {
                assert(s[k] == r[k]);
            }
        }
    } else {
        let d = s.drop_last();
        let l = s.last();
        assert(s[s.len() - 1] == l);
        assert forall|i: int, j: int| 0 <= i < j < d.len() implies chars_lt(#[trigger] d[i], #[trigger] d[j]) by {
            assert(d[i] == s[i] && d[j] == s[j]);
        }
        assert(!d.contains(x)) by {
            if d.contains(x) {
                let k = choose|k: int| 0 <= k < d.len() && d[k] == x;
                assert(s[k] == x);
            }
        }
        lemma_insert_name(d, x);
        let t = insert_name(d, x);
        let r = t.push(l);
        lemma_chars_lt_total(l, x);
        assert(l != x) by {
            assert(s[s.len() - 1] == l);
        }
        assert(chars_lt(x, l));
        assert forall|k: int| 0 <= k < t.len() implies chars_lt(#[trigger] t[k], l) by {
            if t[k] != x {
                assert(d.contains(t[k]));
                let q = choose|q: int| 0 <= q < d.len() && d[q] == t[k];
                assert(s[q] == t[k]);
            }
        }
        assert forall|i: int, j: int| 0 <= i < j < r.len() implies chars_lt(#[trigger] r[i], #[trigger] r[j]) by {
            if j == t.len() {
                assert(r[i] == t[i]);
            } else {
                assert(r[i] == t[i] && r[j] == t[j]);
            }
        }
        assert(r.to_set() =~= s.to_set().insert(x)) by {
            assert(d.push(l) =~= s);
            assert forall|y: Seq<char>| r.to_set().contains(y) implies s.to_set().insert(x).contains(y) by {
                let k = choose|k: int| 0 <= k < r.len() && r[k] == y;
                if k < t.len() {
                    assert(t.to_set().contains(y));
                    assert(d.to_set().insert(x).contains(y));
                    if y != x {
                        let q = choose|q: int| 0 <= q < d.len() && d[q] == y;
                        assert(s[q] == y);
                    }
                } else {
                    assert(s[s.len() - 1] == y);
                }
            }
            assert forall|y: Seq<char>| s.to_set().insert(x).contains(y) implies r.to_set().contains(y) by {
                if y == l {
                    assert(r[t.len() as int] == y);
                } else if y == x {
                    assert(t.to_set().contains(x));
                    let k = choose|k: int| 0 <= k < t.len() && t[k] == y;
                    assert(r[k] == y);
                } else {
                    let q = choose|q: int| 0 <= q < s.len() && s[q] == y;
                    assert(q < d.len());
                    assert(d[q] == y);
                    assert(d.to_set().contains(y));
                    assert(t.to_set().contains(y));
                    let k = choose|k: int| 0 <= k < t.len() && t[k] == y;
                    assert(r[k] == y);
                }
            }
        }
        assert forall|k: int| 0 <= k < r.len() implies (#[trigger] r[k] == x || s.contains(r[k])) by {
            if k < t.len() {
                assert(r[k] == t[k]);
                if t[k] != x {
                    let q = choose|q: int| 0 <= q < d.len() && d[q] == t[k];
                    assert(s[q] == t[k]);
                }
            } else {
                assert(s[s.len() - 1] == r[k]);
            }
        }
    }
}

/// Every finite set of names can be listed in increasing order.
proof fn lemma_sortable(names: Set<Seq<char>>) -> (r: Seq<Seq<char>>)
    requires
        names.finite(),
    ensures
        strictly_sorted(r),
        r.to_set() == names,
    decreases names.len(),
{
    if names.len() == 0 {
        assert(names =~= Set::<Seq<char>>::empty());
        let e = Seq::<Seq<char>>::empty();
        assert(e.to_set() =~= Set::<Seq<char>>::empty());
        e
    } else {
        let x = names.choose();
        let rest = names.remove(x);
        let s = lemma_sortable(rest);
        assert(!s.contains(x)) by {
            if s.contains(x) {
                assert(s.to_set().contains(x));
            }
        }
        lemma_insert_name(s, x);
        assert(rest.insert(x) =~= names);
        insert_name(s, x)
    }
}

/// The names `absorb` collects form a finite set.
proof fn lemma_absorb_finite(m: Map<Seq<char>, usize>, occ: Seq<(Seq<char>, usize)>)
    requires
        m.dom().finite(),
    ensures
        absorb(m, occ).dom().finite(),
    decreases occ.len(),
{
    if occ.len() > 0 {
        lemma_absorb_finite(m, occ.drop_last());
    }
}

/// The used symbols are listed, each once, in name order.
proof fn lemma_used_keys(used: Map<Seq<char>, usize>)
    requires
        used.dom().finite(),
    ensures
        sorted_keys(used).to_set() == used.dom(),
{
    let w = lemma_sortable(used.dom());
    assert(strictly_sorted(w) && w.to_set() == used.dom());
}

/// Declaring the used symbols one by one keeps every earlier signature.
proof fn lemma_grow_keeps(
    t: Map<Seq<char>, crate::ingest::SigView>,
    keys: Seq<Seq<char>>,
    used: Map<Seq<char>, usize>,
    d: Seq<char>,
    kind: char,
    k: Seq<char>,
)
    requires
        t.contains_key(k),
    ensures
        grow_decls(t, keys, used, d, kind).0.contains_key(k),
        grow_decls(t, keys, used, d, kind).0[k] == t[k],
    decreases keys.len(),
{
    if keys.len() > 0 {
        lemma_grow_keeps(t, keys.drop_last(), used, d, kind, k);
    }
}

/// Declaring the used symbols one by one leaves each of them declared.
proof fn lemma_grow_declares(
    t: Map<Seq<char>, crate::ingest::SigView>,
    keys: Seq<Seq<char>>,
    used: Map<Seq<char>, usize>,
    d: Seq<char>,
    kind: char,
    k: Seq<char>,
)
    requires
        keys.contains(k),
    ensures
        grow_decls(t, keys, used, d, kind).0.contains_key(k),
    decreases keys.len(),
{
    let q = choose|q: int| 0 <= q < keys.len() && keys[q] == k;
    if q < keys.len() - 1 {
        assert(keys.drop_last()[q] == k);
        lemma_grow_declares(t, keys.drop_last(), used, d, kind, k);
        let pre = grow_decls(t, keys.drop_last(), used, d, kind);
        lemma_grow_keeps(pre.0, Seq::empty(), used, d, kind, k);
    }
}

/// After an accepted batch every predicate and function the claims use
/// has a signature, so the scripts never mention an undeclared symbol.
pub proof fn law_ingest_declares_every_used_symbol(pre: Core, post: Core, ing: Ingest, k: Seq<char>)
    requires
        ingest_effect(pre, post, ing),
    ensures
        used_preds(post.claims@).contains_key(k) ==> sig_table(post.preds).contains_key(k),
        used_funcs(post.claims@).contains_key(k) ==> sig_table(post.funcs).contains_key(k),
{
    let cs = post.claims@;
    lemma_absorb_finite(Map::empty(), crate::symbols::claims_preds(cs));
    lemma_absorb_finite(Map::empty(), crate::symbols::claims_funcs(cs));
    lemma_used_keys(used_preds(cs));
    lemma_used_keys(used_funcs(cs));
    let sorts1 = crate::ingest::merge_sorts(pre.sorts.deep_view(), ing.sorts.deep_view());
    let (pt1, o1) = crate::ingest::merge_sigs(sig_table(pre.preds), pre.decl_order.deep_view(), 'p', ing.preds@);
    let (ft1, o2) = crate::ingest::merge_sigs(sig_table(pre.funcs), o1, 'f', ing.funcs@);
    let dflt = crate::ingest::default_sort(sorts1);
    if used_preds(cs).contains_key(k) {
        assert(sorted_keys(used_preds(cs)).to_set().contains(k));
        lemma_grow_declares(pt1, sorted_keys(used_preds(cs)), used_preds(cs), dflt, 'p', k);
    }
    if used_funcs(cs).contains_key(k) {
        assert(sorted_keys(used_funcs(cs)).to_set().contains(k));
        lemma_grow_declares(ft1, sorted_keys(used_funcs(cs)), used_funcs(cs), dflt, 'f', k);
    }
}

/// Merging signatures keeps the signature of every name already known.
proof fn lemma_merge_keeps(
    t: Map<Seq<char>, crate::ingest::SigView>,
    order: Seq<(char, Seq<char>)>,
    kind: char,
    new: Seq<crate::ir::Sig>,
    k: Seq<char>,
)
    requires
        t.contains_key(k),
    ensures
        crate::ingest::merge_sigs(t, order, kind, new).0.contains_key(k),
        crate::ingest::merge_sigs(t, order, kind, new).0[k] == t[k],
    decreases new.len(),
{
    if new.len() > 0 {
        lemma_merge_keeps(t, order, kind, new.drop_last(), k);
    }
}

/// A batch never changes the signature of a name already declared: the
/// first declaration of a predicate or function stands.
pub proof fn law_ingest_keeps_known_signatures(pre: Core, post: Core, ing: Ingest, k: Seq<char>)
    requires
        ingest_effect(pre, post, ing),
    ensures
        sig_table(pre.preds).contains_key(k) ==> sig_table(post.preds).contains_key(k) && sig_table(post.preds)[k]
            == sig_table(pre.preds)[k],
        sig_table(pre.funcs).contains_key(k) ==> sig_table(post.funcs).contains_key(k) && sig_table(post.funcs)[k]
            == sig_table(pre.funcs)[k],
{
    let cs = post.claims@;
    let sorts1 = crate::ingest::merge_sorts(pre.sorts.deep_view(), ing.sorts.deep_view());
    let (pt1, o1) = crate::ingest::merge_sigs(sig_table(pre.preds), pre.decl_order.deep_view(), 'p', ing.preds@);
    let (ft1, o2) = crate::ingest::merge_sigs(sig_table(pre.funcs), o1, 'f', ing.funcs@);
    let dflt = crate::ingest::default_sort(sorts1);
    if sig_table(pre.preds).contains_key(k) {
        lemma_merge_keeps(sig_table(pre.preds), pre.decl_order.deep_view(), 'p', ing.preds@, k);
        lemma_grow_keeps(pt1, sorted_keys(used_preds(cs)), used_preds(cs), dflt, 'p', k);
    }
    if sig_table(pre.funcs).contains_key(k) {
        lemma_merge_keeps(sig_table(pre.funcs), o1, 'f', ing.funcs@, k);
        lemma_grow_keeps(ft1, sorted_keys(used_funcs(cs)), used_funcs(cs), dflt, 'f', k);
    }
}

/// When the enumeration stops because the budget ran out, it says so,
/// whatever the last map query got back, and keeps what it found; and it
/// says so only then.
pub proof fn law_budget_cut_is_reported(l: LatticeView, out: Seq<char>)
    requires
        l.phase == MPhaseView::MapQuery,
        !l.capped,
        !l.unknown,
        !l.out.unknown,
    ensures
        budget_hit(l) && !starts_with(first_nonblank_line(out), "unsat"@) ==> lattice_step(l, out).out.capped
            && !lattice_step(l, out).out.unknown && lattice_step(l, out).muses == l.muses
            && lattice_step(l, out).mcses == l.mcses && lattice_step(l, out).out == final_out(
            LatticeView { capped: true, ..l },
        ),
        lattice_step(l, out).capped ==> budget_hit(l),
{
    lemma_sat_unsat_exclusive(first_nonblank_line(out));
}

proof fn lemma_rank_order(spec: Seq<(Seq<char>, Seq<char>)>, cs: Seq<Claim>, x: Seq<char>, y: Seq<char>, z: Seq<char>)
    ensures
        !ranks_before(spec, cs, x, x),
        x == y || ranks_before(spec, cs, x, y) || ranks_before(spec, cs, y, x),
        ranks_before(spec, cs, x, y) && ranks_before(spec, cs, y, z) ==> ranks_before(spec, cs, x, z),
{
    lemma_chars_lt_irreflexive(x);
    lemma_chars_lt_total(x, y);
    if chars_lt(x, y) && chars_lt(y, z) {
        lemma_chars_lt_transitive(x, y, z);
    }
}

/// No later entry ranks strictly before an earlier one.
pub open spec fn in_rank_order(spec: Seq<(Seq<char>, Seq<char>)>, cs: Seq<Claim>, s: Seq<Seq<char>>) -> bool {
    forall|i: int, j: int| 0 <= i < j < s.len() ==> !ranks_before(spec, cs, #[trigger] s[j], #[trigger] s[i])
}

proof fn lemma_rank_insert(spec: Seq<(Seq<char>, Seq<char>)>, cs: Seq<Claim>, s: Seq<Seq<char>>, x: Seq<char>)
    requires
        in_rank_order(spec, cs, s),
    ensures
        in_rank_order(spec, cs, rank_insert(spec, cs, s, x)),
        rank_insert(spec, cs, s, x).to_multiset() == s.to_multiset().insert(x),
    decreases s.len(),
{
    broadcast use vstd::seq_lib::group_to_multiset_ensures;

    if s.len() == 0 {
        assert(seq![x] =~= Seq::<Seq<char>>::empty().push(x));
    } else if !ranks_before(spec, cs, x, s.last()) {
        let r = s.push(x);
        let l = s[s.len() - 1];
        assert forall|i: int, j: int| 0 <= i < j < r.len() implies !ranks_before(spec, cs, #[trigger] r[j], #[trigger] r[i]) by {
            if j == s.len() && i < s.len() - 1 {
                lemma_rank_order(spec, cs, s[i], l, x);
                lemma_rank_order(spec, cs, x, s[i], l);
            }
        }
    } else {
        let d = s.drop_last();
        let l = s[s.len() - 1];
        assert forall|i: int, j: int| 0 <= i < j < d.len() implies !ranks_before(spec, cs, #[trigger] d[j], #[trigger] d[i]) by {
            assert(d[i] == s[i] && d[j] == s[j]);
        }
        lemma_rank_insert(spec, cs, d, x);
        let t = rank_insert(spec, cs, d, x);
        let r = t.push(l);
        lemma_rank_order(spec, cs, x, l, x);
        lemma_rank_order(spec, cs, l, x, l);
        assert forall|k: int| 0 <= k < t.len() implies !ranks_before(spec, cs, l, #[trigger] t[k]) by {
            assert(t.to_multiset().count(t[k]) > 0);
            assert(d.to_multiset().insert(x).count(t[k]) > 0);
            if t[k] != x {
                assert(d.to_multiset().count(t[k]) > 0);
                assert(d.contains(t[k]));
                let q = choose|q: int| 0 <= q < d.len() && d[q] == t[k];
                assert(s[q] == t[k]);
            }
        }
        assert forall|i: int, j: int| 0 <= i < j < r.len() implies !ranks_before(spec, cs, #[trigger] r[j], #[trigger] r[i]) by {
            if j == t.len() {
                assert(r[i] == t[i]);
            } else {
                assert(r[i] == t[i] && r[j] == t[j]);
            }
        }
        assert(d.push(l) =~= s);
    }
}

/// The defaults are tried best first: more specific, then more
/// entrenched, then by id; no default ranks before one tried earlier,
/// and every default is tried exactly once.
pub proof fn law_defaults_tried_best_first(spec: Seq<(Seq<char>, Seq<char>)>, cs: Seq<Claim>, defs: Seq<Seq<char>>)
    ensures
        in_rank_order(spec, cs, ranked(spec, cs, defs)),
        ranked(spec, cs, defs).to_multiset() == defs.to_multiset(),
    decreases defs.len(),
{
    broadcast use vstd::seq_lib::group_to_multiset_ensures;

    if defs.len() > 0 {
        law_defaults_tried_best_first(spec, cs, defs.drop_last());
        lemma_rank_insert(spec, cs, ranked(spec, cs, defs.drop_last()), defs.last());
        assert(defs.drop_last().push(defs.last()) =~= defs);
    }
}

/// The weight a repair reports is the total entrenchment of the claims
/// it gives up.
pub proof fn law_repair_weight_is_its_total(d: DriverView, cs: Seq<Claim>, out: Seq<char>)
    requires
        d.phase is Repair,
        crate::analysis::decided(first_nonblank_line(out)),
    ensures
        analysis_step(d, cs, out).phase == PhaseView::Done ==> analysis_step(d, cs, out).repair_weight
            == crate::analysis::total_weight(cs, analysis_step(d, cs, out).repair),
{
}

/// Only the strict claims can make the defeasible reading inconsistent:
/// a default that clashes is overridden, never reported as a conflict.
pub proof fn law_defaults_never_make_inconsistent(d: DefeasibleView, cs: Seq<Claim>, out: Seq<char>)
    requires
        d.phase != DPhaseView::Strict,
        d.status != "inconsistent"@,
    ensures
        defeasible_step(d, cs, out).status != "inconsistent"@,
{
    reveal_strlit("inconsistent");
    reveal_strlit("unknown");
    assert("unknown"@.len() != "inconsistent"@.len());
    reveal_strlit("coherent");
    reveal_strlit("defeasibly-coherent");
    assert("coherent"@.len() != "inconsistent"@.len());
    assert("defeasibly-coherent"@.len() != "inconsistent"@.len());
}

/// The part of an assumption script before its check: the declarations
/// and every active claim behind its assumption literal.
pub open spec fn assumption_body(c: Core) -> Seq<char> {
    "(set-option :produce-unsat-cores true)\n(set-logic ALL)\n"@ + crate::world::decls_text(c)
        + crate::world::active_lines(crate::world::LineKind::Assumption, c.claims@)
}

/// The check under the literals of `ids`, and the request for the core.
pub open spec fn assumption_check(ids: Seq<Seq<char>>) -> Seq<char> {
    "(check-sat-assuming ("@ + crate::text::join(crate::world::assumption_literals(ids), " "@)
        + "))\n(get-unsat-core)\n"@
}

/// Asking whether the claims of `ids` force `probe` is the same script
/// as testing those claims, with the negated probe asserted just before
/// the check.
pub proof fn law_entail_assume_inserts_probe(c: Core, probe: crate::ir::Formula, ids: Seq<Seq<char>>)
    ensures
        crate::world::assume_script(c, ids) == assumption_body(c) + assumption_check(ids),
        crate::world::entail_assume_script(c, probe, ids) == assumption_body(c) + "(assert (not "@
            + crate::smt::form_sexp(probe) + "))\n"@ + assumption_check(ids),
{
    assert(crate::world::assume_script(c, ids) =~= assumption_body(c) + assumption_check(ids));
    assert(crate::world::entail_assume_script(c, probe, ids) =~= assumption_body(c) + "(assert (not "@
        + crate::smt::form_sexp(probe) + "))\n"@ + assumption_check(ids));
}

/// A consistency oracle over sets of claim ids in which every subset of
/// a consistent set is consistent.
pub open spec fn monotone(sat_of: spec_fn(Set<Seq<char>>) -> bool) -> bool {
    forall|a: Set<Seq<char>>, b: Set<Seq<char>>| a.subset_of(b) && #[trigger] sat_of(b) ==> #[trigger] sat_of(a)
}

/// The solver's answer agrees with the oracle on the set it was asked
/// about: `sat` for a consistent set, `unsat` for an inconsistent one.
pub open spec fn answer_agrees(sat_of: spec_fn(Set<Seq<char>>) -> bool, tested: Seq<Seq<char>>, out: Seq<char>) -> bool {
    let h = first_nonblank_line(out);
    ||| starts_with(h, "sat"@) && sat_of(tested.to_set())
    ||| starts_with(h, "unsat"@) && !sat_of(tested.to_set())
}

/// A shrink in progress: the candidate is inconsistent, and dropping any
/// of its first `i` members makes it consistent.
pub open spec fn shrink_inv(sat_of: spec_fn(Set<Seq<char>>) -> bool, cand: Seq<Seq<char>>, i: int) -> bool {
    &&& !sat_of(cand.to_set())
    &&& forall|j: int| 0 <= j < i ==> #[trigger] sat_of(cand.remove(j).to_set())
}

/// `m` is a minimal conflict: inconsistent, and consistent once any one
/// member is dropped.
pub open spec fn minimal_conflict(sat_of: spec_fn(Set<Seq<char>>) -> bool, m: Seq<Seq<char>>) -> bool {
    shrink_inv(sat_of, m, m.len() as int)
}

proof fn lemma_remove_subset(s: Seq<Seq<char>>, k: int)
    requires
        0 <= k < s.len(),
    ensures
        s.remove(k).to_set().subset_of(s.to_set()),
{
    assert forall|x: Seq<char>| s.remove(k).to_set().contains(x) implies s.to_set().contains(x) by {
        let q = choose|q: int| 0 <= q < s.remove(k).len() && s.remove(k)[q] == x;
        if q < k {
            assert(s[q] == x);
        } else {
            assert(s[q + 1] == x);
        }
    }
}

/// One step of a shrink keeps the shrink invariant; and the step that
/// ends it leaves a minimal conflict.
proof fn lemma_shrink_step(sat_of: spec_fn(Set<Seq<char>>) -> bool, cand: Seq<Seq<char>>, i: int, out: Seq<char>)
    requires
        monotone(sat_of),
        0 <= i < cand.len(),
        shrink_inv(sat_of, cand, i),
        answer_agrees(sat_of, cand.remove(i), out),
    ensures
        starts_with(first_nonblank_line(out), "unsat"@) ==> shrink_inv(sat_of, cand.remove(i), i),
        starts_with(first_nonblank_line(out), "sat"@) ==> shrink_inv(sat_of, cand, i + 1),
{
    lemma_sat_unsat_exclusive(first_nonblank_line(out));
    let c2 = cand.remove(i);
    if starts_with(first_nonblank_line(out), "unsat"@) {
        assert forall|j: int| 0 <= j < i implies #[trigger] sat_of(c2.remove(j).to_set()) by {
            let r = cand.remove(j);
            assert(c2.remove(j) =~= r.remove(i - 1));
            lemma_remove_subset(r, i - 1);
            assert(sat_of(r.to_set()));
        }
    }
}

/// Against a solver whose answers agree with a monotone oracle, each
/// shrink step of the analysis keeps its candidate inconsistent with
/// every tested member needed, and the conflict it settles on is
/// minimal.
pub proof fn law_analysis_conflict_is_minimal(
    d: DriverView,
    cs: Seq<Claim>,
    out: Seq<char>,
    sat_of: spec_fn(Set<Seq<char>>) -> bool,
)
    requires
        monotone(sat_of),
        d.phase matches PhaseView::Shrink { cand, i } && 0 <= i < cand.len() && shrink_inv(sat_of, cand, i)
            && answer_agrees(sat_of, cand.remove(i), out),
    ensures
        match analysis_step(d, cs, out).phase {
            PhaseView::Shrink { cand, i } => shrink_inv(sat_of, cand, i),
            PhaseView::Repair { .. } => minimal_conflict(sat_of, analysis_step(d, cs, out).mus),
            _ => false,
        },
{
    if let PhaseView::Shrink { cand, i } = d.phase {
        lemma_shrink_step(sat_of, cand, i, out);
        lemma_sat_unsat_exclusive(first_nonblank_line(out));
    }
}

/// The analysis starts its shrink from an inconsistent candidate when the
/// solver's core (or, failing one, the whole set) is inconsistent; a lone
/// claim is already a minimal conflict when the empty set is consistent.
pub proof fn law_analysis_shrink_starts_right(
    d: DriverView,
    cs: Seq<Claim>,
    out: Seq<char>,
    sat_of: spec_fn(Set<Seq<char>>) -> bool,
)
    requires
        monotone(sat_of),
        sat_of(Set::empty()),
        d.phase == PhaseView::CheckAll,
        starts_with(first_nonblank_line(out), "unsat"@),
        !sat_of(crate::analysis::first_candidate(d, out).to_set()),
    ensures
        match analysis_step(d, cs, out).phase {
            PhaseView::Shrink { cand, i } => shrink_inv(sat_of, cand, i),
            PhaseView::Repair { .. } => analysis_step(d, cs, out).mus.len() == 1 ==> minimal_conflict(
                sat_of,
                analysis_step(d, cs, out).mus,
            ),
            _ => false,
        },
{
    lemma_sat_unsat_exclusive(first_nonblank_line(out));
    let m = crate::analysis::first_candidate(d, out);
    if m.len() == 1 {
        assert(m.remove(0).to_set() =~= Set::<Seq<char>>::empty()) by {
            assert(m.remove(0).len() == 0);
        }
    }
}

/// Against a solver whose answers agree with a monotone oracle (here:
/// whether a set of claims fails to force the probe), each shrink step of
/// the witness search keeps its invariant, and the witness it settles on
/// is minimal: it forces the probe, and no longer does once any one
/// member is dropped.
pub proof fn law_witness_is_minimal(
    w: crate::witness::WitnessView,
    out: Seq<char>,
    sat_of: spec_fn(Set<Seq<char>>) -> bool,
)
    requires
        monotone(sat_of),
        w.phase matches crate::witness::WPhaseView::Shrink { cand, i } && 0 <= i < cand.len() && shrink_inv(
            sat_of,
            cand,
            i,
        ) && answer_agrees(sat_of, cand.remove(i), out),
    ensures
        match crate::witness::witness_step(w, out).phase {
            crate::witness::WPhaseView::Shrink { cand, i } => shrink_inv(sat_of, cand, i),
            crate::witness::WPhaseView::Done => minimal_conflict(sat_of, crate::witness::witness_step(w, out).witness),
            _ => false,
        },
{
    if let crate::witness::WPhaseView::Shrink { cand, i } = w.phase {
        lemma_shrink_step(sat_of, cand, i, out);
        lemma_sat_unsat_exclusive(first_nonblank_line(out));
    }
}

/// The witness search starts its shrink from a candidate that forces the
/// probe when the solver's core (or, failing one, the whole set) does;
/// with no candidate at all, the empty witness is the minimal one.
pub proof fn law_witness_shrink_starts_right(
    w: crate::witness::WitnessView,
    out: Seq<char>,
    sat_of: spec_fn(Set<Seq<char>>) -> bool,
)
    requires
        w.phase == crate::witness::WPhaseView::CheckAll,
        starts_with(first_nonblank_line(out), "unsat"@),
        !sat_of(
            (if crate::answers::core_ids(out).len() == 0 {
                w.active
            } else {
                crate::answers::core_ids(out)
            }).to_set(),
        ),
    ensures
        match crate::witness::witness_step(w, out).phase {
            crate::witness::WPhaseView::Shrink { cand, i } => shrink_inv(sat_of, cand, i),
            crate::witness::WPhaseView::Done => minimal_conflict(sat_of, crate::witness::witness_step(w, out).witness),
            _ => false,
        },
{
}


proof fn lemma_push_contains<T>(t: Seq<T>, a: T, y: T)
    ensures
        t.push(a).contains(y) <==> t.contains(y) || y == a,
{
    if t.contains(y) {
        let q = choose|q: int| 0 <= q < t.len() && t[q] == y;
        assert(t.push(a)[q] == y);
    }
    if y == a {
        assert(t.push(a)[t.len() as int] == y);
    }
    if t.push(a).contains(y) {
        let q = choose|q: int| 0 <= q < t.push(a).len() && t.push(a)[q] == y;
        if q < t.len() {
            assert(t[q] == y);
        }
    }
}

proof fn lemma_insert_sorted_contains(s: Seq<usize>, x: usize, y: usize)
    ensures
        crate::lattice::insert_sorted(s, x).contains(y) <==> s.contains(y) || y == x,
    decreases s.len(),
{
    if s.len() == 0 {
        assert(seq![x][0] == x);
        if seq![x].contains(y) {
            let q = choose|q: int| 0 <= q < 1 && seq![x][q] == y;
        }
    } else if s.last() <= x {
        lemma_push_contains(s, x, y);
    } else {
        lemma_insert_sorted_contains(s.drop_last(), x, y);
        lemma_push_contains(crate::lattice::insert_sorted(s.drop_last(), x), s.last(), y);
        lemma_push_contains(s.drop_last(), s.last(), y);
        assert(s.drop_last().push(s.last()) =~= s);
    }
}

proof fn lemma_sort_positions_contains(s: Seq<usize>, y: usize)
    ensures
        crate::lattice::sort_positions(s).contains(y) <==> s.contains(y),
    decreases s.len(),
{
    if s.len() > 0 {
        lemma_sort_positions_contains(s.drop_last(), y);
        lemma_insert_sorted_contains(crate::lattice::sort_positions(s.drop_last()), s.last(), y);
        lemma_push_contains(s.drop_last(), s.last(), y);
        assert(s.drop_last().push(s.last()) =~= s);
    }
}

proof fn lemma_complement_contains(n: nat, s: Seq<usize>, p: usize)
    ensures
        crate::lattice::complement(n, s).contains(p) <==> p < n && !s.contains(p),
    decreases n,
{
    if n > 0 {
        lemma_complement_contains((n - 1) as nat, s, p);
        lemma_push_contains(crate::lattice::complement((n - 1) as nat, s), (n - 1) as usize, p);
    }
}

/// The positions of the claims whose consistency the current phase puts
/// to the solver.
pub open spec fn lattice_tested(p: MPhaseView) -> Seq<usize> {
    match p {
        MPhaseView::CheckSeed { seed } => seed,
        MPhaseView::Grow { keep, rest, i } => keep.push(rest[i]),
        MPhaseView::Shrink { cand, i } => cand.remove(i),
        _ => Seq::empty(),
    }
}

/// Whether the current phase asks the solver about a set of claims (the
/// whole-set check and the map query are left out: neither records a
/// result).
pub open spec fn tests_claims(p: MPhaseView) -> bool {
    p is CheckSeed || p is Grow || p is Shrink
}

/// The ids of the active claims at positions outside `c`.
pub open spec fn ids_outside(active: Seq<Seq<char>>, c: Seq<usize>) -> Set<Seq<char>> {
    Set::new(|x: Seq<char>| exists|p: usize| p < active.len() && !c.contains(p) && active[p as int] == x)
}

/// The script a claim-testing phase hands the solver asks exactly whether
/// the claims at the tested positions are consistent.
pub proof fn law_lattice_asks_about_tested_claims(l: LatticeView, core: Core)
    requires
        tests_claims(l.phase),
    ensures
        crate::lattice::lattice_script(l, core) == Some(
            crate::world::assume_script(core, ids_at(l.active, lattice_tested(l.phase))),
        ),
{
}

/// An inconsistent set of ids from which dropping any one id leaves a
/// consistent set.
pub open spec fn conflict_minimal(sat_of: spec_fn(Set<Seq<char>>) -> bool, s: Set<Seq<char>>) -> bool {
    &&& !sat_of(s)
    &&& forall|x: Seq<char>| s.contains(x) ==> #[trigger] sat_of(s.remove(x))
}

/// A consistent set of ids to which adding back any one of the dropped
/// ids makes an inconsistent set.
pub open spec fn coherent_maximal(sat_of: spec_fn(Set<Seq<char>>) -> bool, keep: Set<Seq<char>>, dropped: Seq<Seq<char>>) -> bool {
    &&& sat_of(keep)
    &&& forall|q: int| 0 <= q < dropped.len() ==> !sat_of(keep.insert(#[trigger] dropped[q]))
}

/// The map clause that blocks every superset of the positions `m`.
pub open spec fn blocking_supersets(m: Seq<usize>) -> Seq<i32> {
    m.map_values(|i: usize| -(i + 1) as i32)
}

/// The map clause that blocks every subset of the positions outside `c`.
pub open spec fn blocking_subsets(c: Seq<usize>) -> Seq<i32> {
    c.map_values(|i: usize| (i + 1) as i32)
}

/// Whether the set of positions `a` (the bits set) satisfies a map
/// clause: literal `k + 1` asks bit `k` set, `-(k + 1)` asks it unset.
pub open spec fn clause_holds(cl: Seq<i32>, a: Set<int>) -> bool {
    exists|k: int| 0 <= k < cl.len() && if cl[k] > 0 {
        a.contains(cl[k] - 1)
    } else {
        !a.contains(-cl[k] - 1)
    }
}

/// Whether the set of positions `a` satisfies every clause of the map.
pub open spec fn map_holds(map: Seq<Seq<i32>>, a: Set<int>) -> bool {
    forall|k: int| 0 <= k < map.len() ==> #[trigger] clause_holds(map[k], a)
}

/// No choice of bits satisfies the map: the answer a correct solver
/// gives as `unsat` to the map query.
pub open spec fn map_unsatisfiable(map: Seq<Seq<i32>>) -> bool {
    forall|a: Set<int>| !#[trigger] map_holds(map, a)
}

/// A map clause blocks the supersets of a recorded conflict, or the
/// subsets of a consistent set of claims: all of them, or those outside
/// a recorded correction set.
pub open spec fn clause_sound(
    sat_of: spec_fn(Set<Seq<char>>) -> bool,
    active: Seq<Seq<char>>,
    muses: Seq<Seq<usize>>,
    mcses: Seq<Seq<usize>>,
    cl: Seq<i32>,
) -> bool {
    ||| exists|r: int| 0 <= r < muses.len() && cl == blocking_supersets(#[trigger] muses[r])
    ||| exists|c: Seq<usize>| cl == #[trigger] blocking_subsets(c) && crate::lattice::below(c, active.len()) && sat_of(
        ids_outside(active, c),
    ) && (c.len() == 0 || mcses.contains(c))
}

/// Every clause of the map is sound.
pub open spec fn map_sound(sat_of: spec_fn(Set<Seq<char>>) -> bool, l: LatticeView) -> bool {
    forall|k: int| 0 <= k < l.map.len() ==> clause_sound(sat_of, l.active, l.muses, l.mcses, #[trigger] l.map[k])
}

/// What answers that agree with the oracle have taught the enumeration:
/// the map blocks only what the answers justify; every recorded conflict is a minimal inconsistent set; the claims
/// outside every recorded correction set are consistent together and
/// become inconsistent with any one of its claims; a shrink candidate is
/// inconsistent, with every member already tried needed; a growing set
/// is consistent, every position already tried in it or refused by it,
/// and every position either in it or still to be tried.
pub open spec fn lattice_truthful(sat_of: spec_fn(Set<Seq<char>>) -> bool, l: LatticeView) -> bool {
    let n = l.active.len();
    &&& map_sound(sat_of, l)
    &&& forall|k: int| 0 <= k < l.muses.len() ==> conflict_minimal(sat_of, ids_at(l.active, #[trigger] l.muses[k]).to_set())
    &&& forall|k: int| 0 <= k < l.mcses.len() ==> coherent_maximal(
        sat_of,
        ids_outside(l.active, #[trigger] l.mcses[k]),
        ids_at(l.active, l.mcses[k]),
    )
    &&& match l.phase {
        MPhaseView::Shrink { cand, i } => shrink_inv(sat_of, ids_at(l.active, cand), i),
        MPhaseView::Grow { keep, rest, i } => {
            &&& sat_of(ids_at(l.active, keep).to_set())
            &&& forall|j: int| 0 <= j < i ==> keep.contains(#[trigger] rest[j]) || !sat_of(
                ids_at(l.active, keep).to_set().insert(l.active[rest[j] as int]),
            )
            &&& forall|p: usize| p < n ==> #[trigger] keep.contains(p) || rest.contains(p)
        },
        _ => true,
    }
}

proof fn lemma_ids_remove(active: Seq<Seq<char>>, s: Seq<usize>, j: int)
    requires
        0 <= j < s.len(),
    ensures
        ids_at(active, s.remove(j)) == ids_at(active, s).remove(j),
{
    assert(ids_at(active, s.remove(j)) =~= ids_at(active, s).remove(j));
}

proof fn lemma_ids_push_set(active: Seq<Seq<char>>, s: Seq<usize>, p: usize)
    ensures
        ids_at(active, s.push(p)).to_set() == ids_at(active, s).to_set().insert(active[p as int]),
{
    let t = ids_at(active, s);
    assert(ids_at(active, s.push(p)) =~= t.push(active[p as int]));
    assert forall|y: Seq<char>| t.push(active[p as int]).to_set().contains(y) <==> t.to_set().insert(
        active[p as int],
    ).contains(y) by {
        lemma_push_contains(t, active[p as int], y);
    }
    assert(t.push(active[p as int]).to_set() =~= t.to_set().insert(active[p as int]));
}

proof fn lemma_ids_sorted_set(active: Seq<Seq<char>>, m: Seq<usize>)
    ensures
        ids_at(active, crate::lattice::sort_positions(m)).to_set() == ids_at(active, m).to_set(),
{
    let sm = crate::lattice::sort_positions(m);
    let a = ids_at(active, m).to_set();
    let b = ids_at(active, sm).to_set();
    assert forall|x: Seq<char>| a.contains(x) <==> b.contains(x) by {
        if a.contains(x) {
            let q = choose|q: int| 0 <= q < ids_at(active, m).len() && ids_at(active, m)[q] == x;
            assert(m.contains(m[q]));
            lemma_sort_positions_contains(m, m[q]);
            let r = choose|r: int| 0 <= r < sm.len() && sm[r] == m[q];
            assert(ids_at(active, sm)[r] == x);
        }
        if b.contains(x) {
            let q = choose|q: int| 0 <= q < ids_at(active, sm).len() && ids_at(active, sm)[q] == x;
            assert(sm.contains(sm[q]));
            lemma_sort_positions_contains(m, sm[q]);
            let r = choose|r: int| 0 <= r < m.len() && m[r] == sm[q];
            assert(ids_at(active, m)[r] == x);
        }
    }
    assert(a =~= b);
}

proof fn lemma_minimal_from_shrink(sat_of: spec_fn(Set<Seq<char>>) -> bool, ids: Seq<Seq<char>>)
    requires
        monotone(sat_of),
        shrink_inv(sat_of, ids, ids.len() as int),
    ensures
        conflict_minimal(sat_of, ids.to_set()),
{
    assert forall|x: Seq<char>| ids.to_set().contains(x) implies #[trigger] sat_of(ids.to_set().remove(x)) by {
        let j = choose|j: int| 0 <= j < ids.len() && ids[j] == x;
        assert(sat_of(ids.remove(j).to_set()));
        assert(ids.to_set().remove(x).subset_of(ids.remove(j).to_set())) by {
            assert forall|y: Seq<char>| ids.to_set().remove(x).contains(y) implies ids.remove(j).to_set().contains(y) by {
                let q = choose|q: int| 0 <= q < ids.len() && ids[q] == y;
                if q < j {
                    assert(ids.remove(j)[q] == y);
                } else {
                    assert(q != j);
                    assert(ids.remove(j)[q - 1] == y);
                }
            }
        }
    }
}

proof fn lemma_record_mus_truthful(sat_of: spec_fn(Set<Seq<char>>) -> bool, l: LatticeView, m: Seq<usize>)
    requires
        lattice_truthful(sat_of, l),
        conflict_minimal(sat_of, ids_at(l.active, m).to_set()),
    ensures
        forall|k: int| 0 <= k < record_mus(l, m).muses.len()
            ==> conflict_minimal(sat_of, ids_at(l.active, #[trigger] record_mus(l, m).muses[k]).to_set()),
        record_mus(l, m).mcses == l.mcses,
        map_sound(sat_of, record_mus(l, m)),
{
    let sm = crate::lattice::sort_positions(m);
    lemma_ids_sorted_set(l.active, m);
    let l2 = record_mus(l, m);
    assert forall|k: int| 0 <= k < l2.map.len() implies clause_sound(sat_of, l2.active, l2.muses, l2.mcses, #[trigger] l2.map[k]) by {
        if k < l.map.len() {
            assert(l2.map[k] == l.map[k]);
            assert(clause_sound(sat_of, l.active, l.muses, l.mcses, l.map[k]));
            if exists|r: int| 0 <= r < l.muses.len() && l.map[k] == blocking_supersets(#[trigger] l.muses[r]) {
                let r = choose|r: int| 0 <= r < l.muses.len() && l.map[k] == blocking_supersets(#[trigger] l.muses[r]);
                assert(l2.muses[r] == l.muses[r]);
            }
        } else {
            assert(l2.map[k] =~= blocking_supersets(sm));
            if l.muses.contains(sm) {
                let r = choose|r: int| 0 <= r < l.muses.len() && l.muses[r] == sm;
                assert(l2.muses[r] == sm);
            } else {
                assert(l2.muses[l.muses.len() as int] == sm);
            }
        }
    }
    assert forall|k: int| 0 <= k < l2.muses.len() implies conflict_minimal(
        sat_of,
        ids_at(l.active, #[trigger] l2.muses[k]).to_set(),
    ) by {
        if k < l.muses.len() {
            assert(l2.muses[k] == l.muses[k]);
        } else {
            assert(l2.muses[k] == sm);
        }
    }
}

proof fn lemma_record_mss_truthful(sat_of: spec_fn(Set<Seq<char>>) -> bool, l: LatticeView, keep: Seq<usize>)
    requires
        lattice_truthful(sat_of, l),
        crate::lattice::below(keep, l.active.len()),
        sat_of(ids_at(l.active, keep).to_set()),
        forall|p: usize| p < l.active.len() && !keep.contains(p) ==> !sat_of(
            #[trigger] ids_at(l.active, keep).to_set().insert(l.active[p as int]),
        ),
    ensures
        record_mss(l, keep).muses == l.muses,
        map_sound(sat_of, record_mss(l, keep)),
        forall|k: int| 0 <= k < record_mss(l, keep).mcses.len() ==> coherent_maximal(
            sat_of,
            ids_outside(l.active, #[trigger] record_mss(l, keep).mcses[k]),
            ids_at(l.active, record_mss(l, keep).mcses[k]),
        ),
{
    let n = l.active.len();
    let sk = crate::lattice::sort_positions(keep);
    let mcs = crate::lattice::complement(n, sk);
    let outside = ids_outside(l.active, mcs);
    let kept = ids_at(l.active, keep).to_set();
    assert forall|x: Seq<char>| outside.contains(x) <==> kept.contains(x) by {
        if outside.contains(x) {
            let p = choose|p: usize| p < l.active.len() && !mcs.contains(p) && l.active[p as int] == x;
            lemma_complement_contains(n, sk, p);
            lemma_sort_positions_contains(keep, p);
            let q = choose|q: int| 0 <= q < keep.len() && keep[q] == p;
            assert(ids_at(l.active, keep)[q] == x);
        }
        if kept.contains(x) {
            let q = choose|q: int| 0 <= q < ids_at(l.active, keep).len() && ids_at(l.active, keep)[q] == x;
            let p = keep[q];
            assert(keep.contains(p));
            lemma_sort_positions_contains(keep, p);
            lemma_complement_contains(n, sk, p);
            assert(p < n && !mcs.contains(p) && l.active[p as int] == x);
        }
    }
    assert(outside =~= kept);
    assert(coherent_maximal(sat_of, outside, ids_at(l.active, mcs))) by {
        assert forall|q: int| 0 <= q < ids_at(l.active, mcs).len() implies !sat_of(
            outside.insert(#[trigger] ids_at(l.active, mcs)[q]),
        ) by {
            let p = mcs[q];
            assert(mcs.contains(p));
            lemma_complement_contains(n, sk, p);
            lemma_sort_positions_contains(keep, p);
            assert(p < n && !keep.contains(p));
            assert(!sat_of(kept.insert(l.active[p as int])));
        }
    }
    let l2 = record_mss(l, keep);
    assert(crate::lattice::below(mcs, n)) by {
        assert forall|q: int| 0 <= q < mcs.len() implies #[trigger] mcs[q] < n by {
            assert(mcs.contains(mcs[q]));
            lemma_complement_contains(n, sk, mcs[q]);
        }
    }
    assert forall|k: int| 0 <= k < l2.map.len() implies clause_sound(sat_of, l2.active, l2.muses, l2.mcses, #[trigger] l2.map[k]) by {
        if k < l.map.len() {
            assert(l2.map[k] == l.map[k]);
            assert(clause_sound(sat_of, l.active, l.muses, l.mcses, l.map[k]));
            assert(l2.muses == l.muses && l2.active == l.active);
            assert forall|c: Seq<usize>| l.mcses.contains(c) implies l2.mcses.contains(c) by {
                if l2.mcses != l.mcses {
                    lemma_push_contains(l.mcses, mcs, c);
                }
            }
        } else {
            if mcs.len() > 0 {
                if l.mcses.contains(mcs) {
                } else {
                    lemma_push_contains(l.mcses, mcs, mcs);
                }
                assert(l2.mcses.contains(mcs));
            }
            assert(l2.map[k] =~= blocking_subsets(mcs));
            assert(sat_of(ids_outside(l2.active, mcs)));
            assert(crate::lattice::below(mcs, l2.active.len()));
            assert(clause_sound(sat_of, l2.active, l2.muses, l2.mcses, l2.map[k]));
        }
    }
    assert forall|k: int| 0 <= k < l2.mcses.len() implies coherent_maximal(
        sat_of,
        ids_outside(l.active, #[trigger] l2.mcses[k]),
        ids_at(l.active, l2.mcses[k]),
    ) by {
        if k < l.mcses.len() {
            assert(l2.mcses[k] == l.mcses[k]);
        } else {
            assert(l2.mcses[k] == mcs);
        }
    }
}

/// A fresh enumeration, with nothing recorded, has learnt nothing false.
pub proof fn law_lattice_starts_truthful(sat_of: spec_fn(Set<Seq<char>>) -> bool, l: LatticeView)
    requires
        l.phase == MPhaseView::CheckAll,
        l.map.len() == 0,
        l.muses.len() == 0,
        l.mcses.len() == 0,
    ensures
        lattice_truthful(sat_of, l),
{
}

/// Against a solver whose answers agree with a monotone oracle (under
/// which no claims at all are consistent) on every set of claims it is
/// asked about, each step of the enumeration keeps what it has recorded
/// true: conflicts are minimal inconsistent sets, and the claims outside
/// each correction set a maximal consistent set.
pub proof fn law_lattice_step_stays_truthful(sat_of: spec_fn(Set<Seq<char>>) -> bool, l: LatticeView, out: Seq<char>)
    requires
        monotone(sat_of),
        sat_of(Set::empty()),
        crate::lattice::lattice_wf(l),
        lattice_truthful(sat_of, l),
        tests_claims(l.phase) ==> answer_agrees(sat_of, ids_at(l.active, lattice_tested(l.phase)), out),
    ensures
        lattice_truthful(sat_of, lattice_step(l, out)),
{
    let h = first_nonblank_line(out);
    let n = l.active.len();
    lemma_sat_unsat_exclusive(h);
    match l.phase {
        MPhaseView::CheckSeed { seed } => {
            if starts_with(h, "unsat"@) {
                if seed.len() <= 1 {
                    let s = ids_at(l.active, seed).to_set();
                    assert forall|x: Seq<char>| s.contains(x) implies #[trigger] sat_of(s.remove(x)) by {
                        assert(s.remove(x) =~= Set::<Seq<char>>::empty());
                    }
                    lemma_record_mus_truthful(sat_of, l, seed);
                }
            } else {
                let rest = crate::lattice::complement(n, seed);
                assert forall|p: usize| p < n implies #[trigger] seed.contains(p) || rest.contains(p) by {
                    lemma_complement_contains(n, seed, p);
                }
                if rest.len() == 0 {
                    assert forall|p: usize| p < n && !seed.contains(p) implies !sat_of(
                        #[trigger] ids_at(l.active, seed).to_set().insert(l.active[p as int]),
                    ) by {
                        lemma_complement_contains(n, seed, p);
                    }
                    lemma_record_mss_truthful(sat_of, l, seed);
                }
            }
        },
        MPhaseView::Grow { keep, rest, i } => {
            let r = rest[i];
            lemma_ids_push_set(l.active, keep, r);
            let kset = ids_at(l.active, keep).to_set();
            let unsat = starts_with(h, "unsat"@);
            let k2 = if !unsat {
                keep.push(r)
            } else {
                keep
            };
            let k2set = ids_at(l.active, k2).to_set();
            assert(kset.subset_of(k2set));
            assert forall|j: int| 0 <= j < i + 1 implies k2.contains(#[trigger] rest[j]) || !sat_of(
                k2set.insert(l.active[rest[j] as int]),
            ) by {
                let a = l.active[rest[j] as int];
                if j < i {
                    if keep.contains(rest[j]) {
                        let q = choose|q: int| 0 <= q < keep.len() && keep[q] == rest[j];
                        assert(k2[q] == rest[j]);
                    } else {
                        assert(!sat_of(kset.insert(a)));
                        assert(kset.insert(a).subset_of(k2set.insert(a)));
                    }
                } else if !unsat {
                    assert(k2[keep.len() as int] == r);
                }
            }
            assert forall|p: usize| p < n implies #[trigger] k2.contains(p) || rest.contains(p) by {
                if keep.contains(p) {
                    let q = choose|q: int| 0 <= q < keep.len() && keep[q] == p;
                    assert(k2[q] == p);
                }
            }
            if i + 1 >= rest.len() {
                assert forall|p: usize| p < n && !k2.contains(p) implies !sat_of(
                    #[trigger] ids_at(l.active, k2).to_set().insert(l.active[p as int]),
                ) by {
                    assert(rest.contains(p));
                    let j = choose|j: int| 0 <= j < rest.len() && rest[j] == p;
                    assert(!k2.contains(rest[j]));
                }
                assert(crate::lattice::below(k2, n)) by {
                    assert forall|q: int| 0 <= q < k2.len() implies #[trigger] k2[q] < n by {
                        if q < keep.len() {
                            assert(k2[q] == keep[q]);
                        }
                    }
                }
                lemma_record_mss_truthful(sat_of, l, k2);
            }
        },
        MPhaseView::Shrink { cand, i } => {
            let ids = ids_at(l.active, cand);
            lemma_ids_remove(l.active, cand, i);
            lemma_shrink_step(sat_of, ids, i, out);
            if starts_with(h, "unsat"@) {
                let c2 = cand.remove(i);
                if i >= c2.len() {
                    lemma_minimal_from_shrink(sat_of, ids_at(l.active, c2));
                    lemma_record_mus_truthful(sat_of, l, c2);
                }
            } else if i + 1 >= cand.len() {
                lemma_minimal_from_shrink(sat_of, ids);
                lemma_record_mus_truthful(sat_of, l, cand);
            }
        },
        _ => {},
    }
}

proof fn lemma_conflict_meets_correction(
    sat_of: spec_fn(Set<Seq<char>>) -> bool,
    l: LatticeView,
    i: int,
    j: int,
) -> (x: Seq<char>)
    requires
        monotone(sat_of),
        crate::lattice::lattice_wf(l),
        lattice_truthful(sat_of, l),
        0 <= i < l.muses.len(),
        0 <= j < l.mcses.len(),
    ensures
        ids_at(l.active, l.muses[i]).contains(x),
        ids_at(l.active, l.mcses[j]).contains(x),
{
    let m = l.muses[i];
    let c = l.mcses[j];
    assert(crate::lattice::below(m, l.active.len()));
    if forall|q: int| 0 <= q < m.len() ==> !c.contains(#[trigger] m[q]) {
        let ms = ids_at(l.active, m).to_set();
        let outside = ids_outside(l.active, c);
        assert(ms.subset_of(outside)) by {
            assert forall|x: Seq<char>| ms.contains(x) implies outside.contains(x) by {
                let q = choose|q: int| 0 <= q < ids_at(l.active, m).len() && ids_at(l.active, m)[q] == x;
                assert(!c.contains(m[q]) && m[q] < l.active.len() && l.active[m[q] as int] == x);
            }
        }
        assert(!sat_of(ms));
        assert(sat_of(outside));
        assert(false);
    }
    let q = choose|q: int| 0 <= q < m.len() && c.contains(#[trigger] m[q]);
    let r = choose|r: int| 0 <= r < c.len() && c[r] == m[q];
    let x = l.active[m[q] as int];
    assert(ids_at(l.active, m)[q] == x);
    assert(ids_at(l.active, c)[r] == x);
    x
}

/// Two lists of ids share at least one id.
pub open spec fn meet(a: Seq<Seq<char>>, b: Seq<Seq<char>>) -> bool {
    exists|x: Seq<char>| a.contains(x) && b.contains(x)
}

/// Every correction set the result of a state lists meets every conflict
/// it lists, once what the state recorded is true of a monotone oracle: a
/// conflict cannot lie wholly among claims that are consistent together.
proof fn lemma_final_out_meets(sat_of: spec_fn(Set<Seq<char>>) -> bool, l: LatticeView)
    requires
        monotone(sat_of),
        crate::lattice::lattice_wf(l),
        lattice_truthful(sat_of, l),
    ensures
        forall|i: int, j: int|
            0 <= i < final_out(l).mus.len() && 0 <= j < final_out(l).mcs.len() ==> #[trigger] meet(
                final_out(l).mus[i],
                final_out(l).mcs[j],
            ),
{
    assert forall|i: int, j: int|
        0 <= i < final_out(l).mus.len() && 0 <= j < final_out(l).mcs.len() implies #[trigger] meet(
            final_out(l).mus[i],
            final_out(l).mcs[j],
        ) by {
        let x = lemma_conflict_meets_correction(sat_of, l, i, j);
        assert(final_out(l).mus[i] == ids_at(l.active, l.muses[i]));
        assert(final_out(l).mcs[j] == ids_at(l.active, l.mcses[j]));
        assert(final_out(l).mus[i].contains(x) && final_out(l).mcs[j].contains(x));
    }
}

/// Against a solver whose answers agree with a monotone oracle, the step
/// that ends an enumeration publishes correction sets that each meet
/// every published conflict.
pub proof fn law_correction_sets_meet_conflicts(sat_of: spec_fn(Set<Seq<char>>) -> bool, l: LatticeView, out: Seq<char>)
    requires
        monotone(sat_of),
        crate::lattice::lattice_wf(l),
        lattice_truthful(sat_of, l),
        l.phase != MPhaseView::Done,
        tests_claims(l.phase) ==> answer_agrees(sat_of, ids_at(l.active, lattice_tested(l.phase)), out),
    ensures
        lattice_step(l, out).phase == MPhaseView::Done ==> forall|i: int, j: int|
            0 <= i < lattice_step(l, out).out.mus.len() && 0 <= j < lattice_step(l, out).out.mcs.len()
                ==> #[trigger] meet(lattice_step(l, out).out.mus[i], lattice_step(l, out).out.mcs[j]),
{
    let h = first_nonblank_line(out);
    lemma_sat_unsat_exclusive(h);
    let l1 = LatticeView { unknown: true, ..l };
    let l2 = LatticeView { capped: budget_hit(l) && !starts_with(h, "unsat"@), ..l };
    lemma_final_out_meets(sat_of, l);
    lemma_final_out_meets(sat_of, l1);
    lemma_final_out_meets(sat_of, l2);
}

proof fn lemma_complement_ids(active: Seq<Seq<char>>, c: Seq<usize>)
    ensures
        ids_at(active, crate::lattice::complement(active.len(), c)).to_set() == ids_outside(active, c),
{
    let n = active.len();
    let comp = crate::lattice::complement(n, c);
    let a = ids_at(active, comp).to_set();
    let b = ids_outside(active, c);
    assert forall|x: Seq<char>| a.contains(x) <==> b.contains(x) by {
        if a.contains(x) {
            let q = choose|q: int| 0 <= q < ids_at(active, comp).len() && ids_at(active, comp)[q] == x;
            let p = comp[q];
            assert(comp.contains(p));
            lemma_complement_contains(n, c, p);
            assert(p < n && !c.contains(p) && active[p as int] == x);
        }
        if b.contains(x) {
            let p = choose|p: usize| p < n && !c.contains(p) && active[p as int] == x;
            lemma_complement_contains(n, c, p);
            let r = choose|r: int| 0 <= r < comp.len() && comp[r] == p;
            assert(ids_at(active, comp)[r] == x);
        }
    }
    assert(a =~= b);
}

proof fn lemma_final_out_minimal(sat_of: spec_fn(Set<Seq<char>>) -> bool, l: LatticeView)
    requires
        lattice_truthful(sat_of, l),
    ensures
        forall|i: int| 0 <= i < final_out(l).mus.len() ==> conflict_minimal(sat_of, #[trigger] final_out(l).mus[i].to_set()),
        forall|j: int| 0 <= j < final_out(l).mcs.len() ==> coherent_maximal(
            sat_of,
            #[trigger] final_out(l).mss[j].to_set(),
            final_out(l).mcs[j],
        ),
{
    let o = final_out(l);
    if !l.unknown && l.muses.len() > 0 {
        assert forall|i: int| 0 <= i < o.mus.len() implies conflict_minimal(sat_of, #[trigger] o.mus[i].to_set()) by {
            assert(o.mus[i] == ids_at(l.active, l.muses[i]));
        }
        assert forall|j: int| 0 <= j < o.mcs.len() implies coherent_maximal(sat_of, #[trigger] o.mss[j].to_set(), o.mcs[j]) by {
            assert(o.mcs[j] == ids_at(l.active, l.mcses[j]));
            assert(o.mss[j] == ids_at(l.active, crate::lattice::complement(l.active.len(), l.mcses[j])));
            lemma_complement_ids(l.active, l.mcses[j]);
        }
    }
}

/// Against a solver whose answers agree with a monotone oracle, the step
/// that ends an enumeration publishes only minimal conflicts, and beside
/// each correction set a maximal coherent position: consistent, and
/// inconsistent with any one claim of the correction set added back.
pub proof fn law_published_sets_are_minimal(sat_of: spec_fn(Set<Seq<char>>) -> bool, l: LatticeView, out: Seq<char>)
    requires
        monotone(sat_of),
        crate::lattice::lattice_wf(l),
        lattice_truthful(sat_of, l),
        l.phase != MPhaseView::Done,
        tests_claims(l.phase) ==> answer_agrees(sat_of, ids_at(l.active, lattice_tested(l.phase)), out),
    ensures
        lattice_step(l, out).phase == MPhaseView::Done ==> {
            let o = lattice_step(l, out).out;
            &&& forall|i: int| 0 <= i < o.mus.len() ==> conflict_minimal(sat_of, #[trigger] o.mus[i].to_set())
            &&& forall|j: int| 0 <= j < o.mcs.len() ==> coherent_maximal(sat_of, #[trigger] o.mss[j].to_set(), o.mcs[j])
        },
{
    let h = first_nonblank_line(out);
    lemma_sat_unsat_exclusive(h);
    let l1 = LatticeView { unknown: true, ..l };
    let l2 = LatticeView { capped: budget_hit(l) && !starts_with(h, "unsat"@), ..l };
    lemma_final_out_minimal(sat_of, l);
    lemma_final_out_minimal(sat_of, l1);
    lemma_final_out_minimal(sat_of, l2);
}

/// The positions of the active claims whose ids are in `t`: the choice
/// of bits that stands for `t`.
pub open spec fn bits_of(active: Seq<Seq<char>>, t: Set<Seq<char>>) -> Set<int> {
    Set::new(|p: int| 0 <= p < active.len() && t.contains(active[p]))
}

proof fn lemma_subsets_clause_fails(active: Seq<Seq<char>>, t: Set<Seq<char>>, c: Seq<usize>)
    requires
        active.len() < 0x7fff_ffff,
        crate::lattice::below(c, active.len()),
        t.subset_of(active.to_set()),
        !clause_holds(blocking_subsets(c), bits_of(active, t)),
    ensures
        t.subset_of(ids_outside(active, c)),
{
    let n = active.len();
    let a = bits_of(active, t);
    let cl = blocking_subsets(c);
    assert forall|x: Seq<char>| t.contains(x) implies ids_outside(active, c).contains(x) by {
        assert(active.to_set().contains(x));
        let p = choose|p: int| 0 <= p < n && active[p] == x;
        assert(a.contains(p));
        if c.contains(p as usize) {
            let q = choose|q: int| 0 <= q < c.len() && c[q] == p as usize;
            assert(cl[q] == (c[q] + 1) as i32);
            assert(cl[q] > 0 && cl[q] - 1 == p);
            assert(clause_holds(cl, a));
        }
        assert((p as usize) < n && !c.contains(p as usize) && active[(p as usize) as int] == x);
    }
}

proof fn lemma_supersets_clause_fails(active: Seq<Seq<char>>, t: Set<Seq<char>>, m: Seq<usize>)
    requires
        active.len() < 0x7fff_ffff,
        crate::lattice::below(m, active.len()),
        !clause_holds(blocking_supersets(m), bits_of(active, t)),
    ensures
        ids_at(active, m).to_set().subset_of(t),
{
    let a = bits_of(active, t);
    let cl = blocking_supersets(m);
    assert forall|x: Seq<char>| ids_at(active, m).to_set().contains(x) implies t.contains(x) by {
        let q = choose|q: int| 0 <= q < ids_at(active, m).len() && ids_at(active, m)[q] == x;
        assert(cl[q] == -(m[q] + 1) as i32);
        assert(cl[q] < 0 && -cl[q] - 1 == m[q]);
        if !a.contains(m[q] as int) {
            assert(clause_holds(cl, a));
        }
    }
}

proof fn lemma_conflict_found(sat_of: spec_fn(Set<Seq<char>>) -> bool, l: LatticeView, t: Set<Seq<char>>) -> (r: int)
    requires
        monotone(sat_of),
        crate::lattice::lattice_wf(l),
        lattice_truthful(sat_of, l),
        map_unsatisfiable(l.map),
        t.subset_of(l.active.to_set()),
        conflict_minimal(sat_of, t),
    ensures
        0 <= r < l.muses.len(),
        ids_at(l.active, l.muses[r]).to_set() == t,
{
    let n = l.active.len();
    let a = bits_of(l.active, t);
    assert(!map_holds(l.map, a));
    let k = choose|k: int| 0 <= k < l.map.len() && !clause_holds(l.map[k], a);
    let cl = l.map[k];
    assert(clause_sound(sat_of, l.active, l.muses, l.mcses, cl));
    if exists|c: Seq<usize>| cl == #[trigger] blocking_subsets(c) && crate::lattice::below(c, n) && sat_of(
        ids_outside(l.active, c),
    ) && (c.len() == 0 || l.mcses.contains(c)) {
        let c = choose|c: Seq<usize>| cl == #[trigger] blocking_subsets(c) && crate::lattice::below(c, n) && sat_of(
            ids_outside(l.active, c),
        ) && (c.len() == 0 || l.mcses.contains(c));
        lemma_subsets_clause_fails(l.active, t, c);
        assert(false);
    }
    let r = choose|r: int| 0 <= r < l.muses.len() && cl == blocking_supersets(#[trigger] l.muses[r]);
    let m = l.muses[r];
    let ms = ids_at(l.active, m).to_set();
    lemma_supersets_clause_fails(l.active, t, m);
    assert(ms =~= t) by {
        if !(ms =~= t) {
            let x = choose|x: Seq<char>| t.contains(x) && !ms.contains(x);
            assert(ms.subset_of(t.remove(x)));
            assert(sat_of(t.remove(x)));
        }
    }
    r
}

proof fn lemma_position_found(sat_of: spec_fn(Set<Seq<char>>) -> bool, l: LatticeView, t: Set<Seq<char>>) -> (j: int)
    requires
        monotone(sat_of),
        crate::lattice::lattice_wf(l),
        lattice_truthful(sat_of, l),
        l.muses.len() > 0,
        map_unsatisfiable(l.map),
        t.subset_of(l.active.to_set()),
        sat_of(t),
        forall|x: Seq<char>| l.active.contains(x) && !t.contains(x) ==> !sat_of(#[trigger] t.insert(x)),
    ensures
        0 <= j < l.mcses.len(),
        ids_outside(l.active, l.mcses[j]) == t,
{
    let n = l.active.len();
    let a = bits_of(l.active, t);
    assert(!map_holds(l.map, a));
    let k = choose|k: int| 0 <= k < l.map.len() && !clause_holds(l.map[k], a);
    let cl = l.map[k];
    assert(clause_sound(sat_of, l.active, l.muses, l.mcses, cl));
    if exists|r: int| 0 <= r < l.muses.len() && cl == blocking_supersets(#[trigger] l.muses[r]) {
        let r = choose|r: int| 0 <= r < l.muses.len() && cl == blocking_supersets(#[trigger] l.muses[r]);
        lemma_supersets_clause_fails(l.active, t, l.muses[r]);
        assert(!sat_of(ids_at(l.active, l.muses[r]).to_set()));
        assert(false);
    }
    let c = choose|c: Seq<usize>| cl == #[trigger] blocking_subsets(c) && crate::lattice::below(c, n) && sat_of(
        ids_outside(l.active, c),
    ) && (c.len() == 0 || l.mcses.contains(c));
    lemma_subsets_clause_fails(l.active, t, c);
    let outside = ids_outside(l.active, c);
    assert(outside =~= t) by {
        assert forall|x: Seq<char>| outside.contains(x) implies t.contains(x) by {
            let p = choose|p: usize| p < n && !c.contains(p) && l.active[p as int] == x;
            assert(l.active.contains(x));
            if !t.contains(x) {
                assert(t.insert(x).subset_of(outside));
            }
        }
    }
    if c.len() == 0 {
        let m = l.muses[0];
        assert(crate::lattice::below(m, n));
        assert(ids_at(l.active, m).to_set().subset_of(outside)) by {
            assert forall|x: Seq<char>| ids_at(l.active, m).to_set().contains(x) implies outside.contains(x) by {
                let q = choose|q: int| 0 <= q < ids_at(l.active, m).len() && ids_at(l.active, m)[q] == x;
                assert(!c.contains(m[q]));
            }
        }
        assert(!sat_of(ids_at(l.active, m).to_set()));
        assert(false);
    }
    let j = choose|j: int| 0 <= j < l.mcses.len() && l.mcses[j] == c;
    j
}

/// Against a solver whose answers agree with a monotone oracle, an
/// enumeration that ends because no choice of bits satisfies its map (a
/// correct solver's `unsat` to the map query) publishes every minimal
/// inconsistent set of active claims among its conflicts.
pub proof fn law_exhausted_map_publishes_every_conflict(
    sat_of: spec_fn(Set<Seq<char>>) -> bool,
    l: LatticeView,
    out: Seq<char>,
    t: Set<Seq<char>>,
)
    requires
        monotone(sat_of),
        crate::lattice::lattice_wf(l),
        lattice_truthful(sat_of, l),
        l.phase == MPhaseView::MapQuery,
        !l.unknown,
        starts_with(first_nonblank_line(out), "unsat"@),
        map_unsatisfiable(l.map),
        t.subset_of(l.active.to_set()),
        conflict_minimal(sat_of, t),
    ensures
        lattice_step(l, out).phase == MPhaseView::Done,
        !lattice_step(l, out).out.capped,
        exists|i: int| 0 <= i < lattice_step(l, out).out.mus.len() && #[trigger] lattice_step(l, out).out.mus[i].to_set() == t,
{
    lemma_sat_unsat_exclusive(first_nonblank_line(out));
    let r = lemma_conflict_found(sat_of, l, t);
    let o = lattice_step(l, out).out;
    assert(o.mus[r] == ids_at(l.active, l.muses[r]));
}

/// Against a solver whose answers agree with a monotone oracle, an
/// enumeration that found a conflict and ends because no choice of bits
/// satisfies its map publishes every maximal consistent set of active
/// claims among its coherent positions.
pub proof fn law_exhausted_map_publishes_every_position(
    sat_of: spec_fn(Set<Seq<char>>) -> bool,
    l: LatticeView,
    out: Seq<char>,
    t: Set<Seq<char>>,
)
    requires
        monotone(sat_of),
        crate::lattice::lattice_wf(l),
        lattice_truthful(sat_of, l),
        l.phase == MPhaseView::MapQuery,
        !l.unknown,
        l.muses.len() > 0,
        starts_with(first_nonblank_line(out), "unsat"@),
        map_unsatisfiable(l.map),
        t.subset_of(l.active.to_set()),
        sat_of(t),
        forall|x: Seq<char>| l.active.contains(x) && !t.contains(x) ==> !sat_of(#[trigger] t.insert(x)),
    ensures
        lattice_step(l, out).phase == MPhaseView::Done,
        !lattice_step(l, out).out.capped,
        exists|j: int| 0 <= j < lattice_step(l, out).out.mss.len() && #[trigger] lattice_step(l, out).out.mss[j].to_set() == t,
{
    lemma_sat_unsat_exclusive(first_nonblank_line(out));
    let j = lemma_position_found(sat_of, l, t);
    let o = lattice_step(l, out).out;
    assert(o.mss[j] == ids_at(l.active, crate::lattice::complement(l.active.len(), l.mcses[j])));
    lemma_complement_ids(l.active, l.mcses[j]);
}

proof fn lemma_conflict_within(sat_of: spec_fn(Set<Seq<char>>) -> bool, s: Set<Seq<char>>) -> (m: Set<Seq<char>>)
    requires
        monotone(sat_of),
        s.finite(),
        !sat_of(s),
    ensures
        m.subset_of(s),
        conflict_minimal(sat_of, m),
    decreases s.len(),
{
    if forall|x: Seq<char>| s.contains(x) ==> #[trigger] sat_of(s.remove(x)) {
        s
    } else {
        let x = choose|x: Seq<char>| s.contains(x) && !#[trigger] sat_of(s.remove(x));
        let m = lemma_conflict_within(sat_of, s.remove(x));
        m
    }
}

proof fn lemma_position_within(sat_of: spec_fn(Set<Seq<char>>) -> bool, u: Set<Seq<char>>, t: Set<Seq<char>>) -> (t2: Set<Seq<char>>)
    requires
        monotone(sat_of),
        u.finite(),
        t.subset_of(u),
        sat_of(t),
    ensures
        t.subset_of(t2),
        t2.subset_of(u),
        sat_of(t2),
        forall|x: Seq<char>| u.contains(x) && !t2.contains(x) ==> !sat_of(#[trigger] t2.insert(x)),
    decreases u.difference(t).len(),
{
    if exists|x: Seq<char>| u.contains(x) && !t.contains(x) && sat_of(#[trigger] t.insert(x)) {
        let x = choose|x: Seq<char>| u.contains(x) && !t.contains(x) && sat_of(#[trigger] t.insert(x));
        u.lemma_set_insert_diff_decreases(t, x);
        let t2 = lemma_position_within(sat_of, u, t.insert(x));
        t2
    } else {
        t
    }
}

/// A set of ids shares an id with a list of ids.
pub open spec fn hits(h: Set<Seq<char>>, m: Seq<Seq<char>>) -> bool {
    exists|x: Seq<char>| h.contains(x) && m.contains(x)
}

/// A set of ids shares an id with every listed set.
pub open spec fn hits_all(h: Set<Seq<char>>, sets: Seq<Seq<Seq<char>>>) -> bool {
    forall|i: int| 0 <= i < sets.len() ==> hits(h, #[trigger] sets[i])
}

/// A set of ids that shares an id with every listed set, and no longer
/// does once any one of its ids is dropped.
pub open spec fn minimal_hitting(h: Set<Seq<char>>, sets: Seq<Seq<Seq<char>>>) -> bool {
    &&& hits_all(h, sets)
    &&& forall|x: Seq<char>| h.contains(x) ==> !hits_all(#[trigger] h.remove(x), sets)
}

/// With distinct ids, an id outside the positions `c` is not the id at a
/// position of `c`.
proof fn lemma_outside_disjoint(active: Seq<Seq<char>>, c: Seq<usize>, y: Seq<char>)
    requires
        active.no_duplicates(),
        crate::lattice::below(c, active.len()),
        ids_outside(active, c).contains(y),
    ensures
        !ids_at(active, c).contains(y),
{
    let p = choose|p: usize| p < active.len() && !c.contains(p) && active[p as int] == y;
    if ids_at(active, c).contains(y) {
        let q = choose|q: int| 0 <= q < ids_at(active, c).len() && ids_at(active, c)[q] == y;
        assert(active[c[q] as int] == active[p as int]);
        assert(c[q] == p);
        assert(c.contains(p));
    }
}

/// Against a solver whose answers agree with a monotone oracle, over
/// claims with distinct ids, an enumeration that found a conflict and
/// ends because no choice of bits satisfies its map publishes as
/// correction sets exactly the minimal sets of active ids that meet
/// every published conflict.
pub proof fn law_correction_sets_are_the_minimal_hitting_sets(
    sat_of: spec_fn(Set<Seq<char>>) -> bool,
    l: LatticeView,
    out: Seq<char>,
    h: Set<Seq<char>>,
)
    requires
        monotone(sat_of),
        crate::lattice::lattice_wf(l),
        lattice_truthful(sat_of, l),
        l.phase == MPhaseView::MapQuery,
        !l.unknown,
        l.muses.len() > 0,
        l.active.no_duplicates(),
        starts_with(first_nonblank_line(out), "unsat"@),
        map_unsatisfiable(l.map),
        h.subset_of(l.active.to_set()),
    ensures
        minimal_hitting(h, lattice_step(l, out).out.mus) <==> exists|j: int|
            0 <= j < lattice_step(l, out).out.mcs.len() && #[trigger] lattice_step(l, out).out.mcs[j].to_set() == h,
{
    let n = l.active.len();
    let act = l.active.to_set();
    lemma_sat_unsat_exclusive(first_nonblank_line(out));
    let o = lattice_step(l, out).out;
    assert(o.mus.len() == l.muses.len() && o.mcs.len() == l.mcses.len());
    assert forall|i: int| 0 <= i < o.mus.len() implies #[trigger] o.mus[i] == ids_at(l.active, l.muses[i]) by {}
    assert forall|j: int| 0 <= j < o.mcs.len() implies #[trigger] o.mcs[j] == ids_at(l.active, l.mcses[j]) by {}
    l.active.unique_seq_to_set();
    // every published correction set meets every published conflict
    assert forall|j: int| 0 <= j < o.mcs.len() implies hits_all(#[trigger] o.mcs[j].to_set(), o.mus) by {
        assert forall|i: int| 0 <= i < o.mus.len() implies hits(o.mcs[j].to_set(), #[trigger] o.mus[i]) by {
            let x = lemma_conflict_meets_correction(sat_of, l, i, j);
            assert(o.mus[i] == ids_at(l.active, l.muses[i]));
            assert(o.mcs[j] == ids_at(l.active, l.mcses[j]));
            assert(o.mus[i].contains(x));
            assert(o.mcs[j].contains(x));
            assert(o.mcs[j].to_set().contains(x));
        }
    }
    if exists|j: int| 0 <= j < o.mcs.len() && #[trigger] o.mcs[j].to_set() == h {
        let j = choose|j: int| 0 <= j < o.mcs.len() && #[trigger] o.mcs[j].to_set() == h;
        let c = l.mcses[j];
        assert(coherent_maximal(sat_of, ids_outside(l.active, c), ids_at(l.active, c)));
        assert forall|x: Seq<char>| h.contains(x) implies !hits_all(#[trigger] h.remove(x), o.mus) by {
            let q = choose|q: int| 0 <= q < ids_at(l.active, c).len() && ids_at(l.active, c)[q] == x;
            let u = ids_outside(l.active, c).insert(x);
            assert(!sat_of(u));
            assert(u.subset_of(act)) by {
                assert forall|y: Seq<char>| u.contains(y) implies act.contains(y) by {
                    if y != x {
                        let p = choose|p: usize| p < n && !c.contains(p) && l.active[p as int] == y;
                        assert(l.active.contains(y));
                    } else {
                        assert(l.active[c[q] as int] == x);
                        assert(l.active.contains(x));
                    }
                }
            }
            vstd::set_lib::lemma_len_subset(u, act);
            let m = lemma_conflict_within(sat_of, u);
            let r = lemma_conflict_found(sat_of, l, m);
            assert(o.mus[r].to_set() == m);
            if hits_all(h.remove(x), o.mus) {
                assert(hits(h.remove(x), o.mus[r]));
                let y = choose|y: Seq<char>| h.remove(x).contains(y) && o.mus[r].contains(y);
                assert(m.contains(y));
                assert(ids_outside(l.active, c).contains(y));
                lemma_outside_disjoint(l.active, c, y);
                assert(false);
            }
        }
        assert(minimal_hitting(h, o.mus));
    }
    if minimal_hitting(h, o.mus) {
        let t = act.difference(h);
        if !sat_of(t) {
            let m = lemma_conflict_within(sat_of, t);
            let r = lemma_conflict_found(sat_of, l, m);
            assert(o.mus[r].to_set() == m);
            assert(hits(h, o.mus[r]));
            let y = choose|y: Seq<char>| h.contains(y) && o.mus[r].contains(y);
            assert(m.contains(y));
            assert(false);
        }
        let t2 = lemma_position_within(sat_of, act, t);
        let j = lemma_position_found(sat_of, l, t2);
        let c = l.mcses[j];
        let h2 = o.mcs[j].to_set();
        assert(h2.subset_of(h)) by {
            assert forall|y: Seq<char>| h2.contains(y) implies h.contains(y) by {
                let q = choose|q: int| 0 <= q < ids_at(l.active, c).len() && ids_at(l.active, c)[q] == y;
                assert(l.active.contains(y));
                if !h.contains(y) {
                    assert(t.contains(y));
                    assert(ids_outside(l.active, c).contains(y));
                    lemma_outside_disjoint(l.active, c, y);
                }
            }
        }
        assert forall|x: Seq<char>| h.contains(x) implies h2.contains(x) by {
            if !h2.contains(x) {
                assert(!hits_all(h.remove(x), o.mus));
                assert(hits_all(h2, o.mus));
                assert forall|i: int| 0 <= i < o.mus.len() implies hits(h.remove(x), #[trigger] o.mus[i]) by {
                    assert(hits(h2, o.mus[i]));
                    let z = choose|z: Seq<char>| h2.contains(z) && o.mus[i].contains(z);
                    assert(h.remove(x).contains(z));
                }
                assert(hits_all(h.remove(x), o.mus));
            }
        }
        assert(h2 =~= h);
    }
}

/// Every subset of the conflict tried so far, once removed, leaves the
/// remaining claims inconsistent.
pub open spec fn tried_fail(
    sat_of: spec_fn(Set<Seq<char>>) -> bool,
    active: Seq<Seq<char>>,
    subsets: Seq<Seq<Seq<char>>>,
    k: int,
) -> bool {
    forall|j: int| 0 <= j < k ==> !sat_of(crate::analysis::without(active, #[trigger] subsets[j]).to_set())
}

/// Against a solver whose answers agree with the oracle, the repair
/// search keeps that each subset of the conflict it has tried leaves the
/// remaining claims inconsistent once removed; the repair it settles on
/// is the first subset in its cheapest-first order whose removal restores
/// consistency, or, when none does, the conflict itself.
pub proof fn law_repair_is_first_that_restores(
    d: DriverView,
    cs: Seq<Claim>,
    out: Seq<char>,
    sat_of: spec_fn(Set<Seq<char>>) -> bool,
)
    requires
        d.phase matches PhaseView::Repair { subsets, k } && 0 <= k < subsets.len() && tried_fail(sat_of, d.active, subsets, k)
            && answer_agrees(sat_of, crate::analysis::without(d.active, subsets[k]), out),
    ensures
        match (d.phase, analysis_step(d, cs, out).phase) {
            (PhaseView::Repair { subsets, k }, PhaseView::Repair { subsets: s2, k: k2 }) => s2 == subsets && k2 == k + 1
                && tried_fail(sat_of, d.active, subsets, k2),
            (PhaseView::Repair { subsets, k }, PhaseView::Done) => {
                let r = analysis_step(d, cs, out).repair;
                ||| r == subsets[k] && sat_of(crate::analysis::without(d.active, r).to_set()) && tried_fail(sat_of, d.active, subsets, k)
                ||| r == d.mus && tried_fail(sat_of, d.active, subsets, subsets.len() as int)
            },
            _ => false,
        },
{
    lemma_sat_unsat_exclusive(first_nonblank_line(out));
}

/// Repairs are tried in ascending total entrenchment; among subsets of
/// equal total entrenchment the smaller comes first.
pub proof fn law_repairs_by_total_weight(cs: Seq<Claim>, ids: Seq<Seq<char>>)
    ensures
        forall|i: int, j: int|
            #![trigger subsets_by_weight(cs, ids)[i], subsets_by_weight(cs, ids)[j]]
            0 <= i < j < subsets_by_weight(cs, ids).len() ==> {
                let a = subsets_by_weight(cs, ids)[i];
                let b = subsets_by_weight(cs, ids)[j];
                &&& crate::analysis::total_weight(cs, a) <= crate::analysis::total_weight(cs, b)
                &&& crate::analysis::total_weight(cs, a) == crate::analysis::total_weight(cs, b) ==> a.len() <= b.len()
            },
{
    law_repairs_cheapest_first(cs, ids);
    assert forall|i: int, j: int|
        #![trigger subsets_by_weight(cs, ids)[i], subsets_by_weight(cs, ids)[j]]
        0 <= i < j < subsets_by_weight(cs, ids).len() implies {
            let a = subsets_by_weight(cs, ids)[i];
            let b = subsets_by_weight(cs, ids)[j];
            &&& crate::analysis::total_weight(cs, a) <= crate::analysis::total_weight(cs, b)
            &&& crate::analysis::total_weight(cs, a) == crate::analysis::total_weight(cs, b) ==> a.len() <= b.len()
        } by {
        assert(key_le(
            subset_key(cs, subsets_by_weight(cs, ids)[i]),
            subset_key(cs, subsets_by_weight(cs, ids)[j]),
        ));
    }
}

/// Against a solver whose answers agree with the oracle, a repair the
/// analysis settles on by a consistent answer is of least total
/// entrenchment: no subset of the conflict whose removal also restores
/// consistency weighs less.
pub proof fn law_repair_is_cheapest(
    d: DriverView,
    cs: Seq<Claim>,
    out: Seq<char>,
    sat_of: spec_fn(Set<Seq<char>>) -> bool,
)
    requires
        d.phase matches PhaseView::Repair { subsets, k } && subsets == subsets_by_weight(cs, d.mus) && 0 <= k
            < subsets.len() && tried_fail(sat_of, d.active, subsets, k) && answer_agrees(
            sat_of,
            crate::analysis::without(d.active, subsets[k]),
            out,
        ),
        starts_with(first_nonblank_line(out), "sat"@),
    ensures
        analysis_step(d, cs, out).phase == PhaseView::Done,
        sat_of(crate::analysis::without(d.active, analysis_step(d, cs, out).repair).to_set()),
        forall|j: int|
            0 <= j < subsets_by_weight(cs, d.mus).len() && sat_of(
                crate::analysis::without(d.active, #[trigger] subsets_by_weight(cs, d.mus)[j]).to_set(),
            ) ==> crate::analysis::total_weight(cs, analysis_step(d, cs, out).repair)
                <= crate::analysis::total_weight(cs, subsets_by_weight(cs, d.mus)[j]),
{
    lemma_sat_unsat_exclusive(first_nonblank_line(out));
    law_repairs_by_total_weight(cs, d.mus);
    if let PhaseView::Repair { subsets, k } = d.phase {
        let r = analysis_step(d, cs, out).repair;
        assert(r == subsets[k]);
        assert forall|j: int|
            0 <= j < subsets.len() && sat_of(crate::analysis::without(d.active, #[trigger] subsets[j]).to_set())
                implies crate::analysis::total_weight(cs, r) <= crate::analysis::total_weight(cs, subsets[j]) by {
            if j < k {
                assert(!sat_of(crate::analysis::without(d.active, subsets[j]).to_set()));
            } else if j > k {
                assert(crate::analysis::total_weight(cs, subsets[k]) <= crate::analysis::total_weight(cs, subsets[j]));
            }
        }
    }
}

/// The four comparisons read in words: `<` as "is less than", `<=` as
/// "is at most", `>` as "is greater than", `>=` as "is at least",
/// between the readings of the two terms.
pub proof fn law_comparisons_read_in_words(rel: String, a: crate::ir::Term, b: crate::ir::Term)
    ensures
        rel@ == "<"@ ==> crate::english::form_english(crate::ir::Formula::Cmp { rel, a, b })
            == crate::english::term_english(a) + " "@ + "is less than"@ + " "@ + crate::english::term_english(b),
        rel@ == "<="@ ==> crate::english::form_english(crate::ir::Formula::Cmp { rel, a, b })
            == crate::english::term_english(a) + " "@ + "is at most"@ + " "@ + crate::english::term_english(b),
        rel@ == ">"@ ==> crate::english::form_english(crate::ir::Formula::Cmp { rel, a, b })
            == crate::english::term_english(a) + " "@ + "is greater than"@ + " "@ + crate::english::term_english(b),
        rel@ == ">="@ ==> crate::english::form_english(crate::ir::Formula::Cmp { rel, a, b })
            == crate::english::term_english(a) + " "@ + "is at least"@ + " "@ + crate::english::term_english(b),
{
    reveal_strlit("<");
    reveal_strlit("<=");
    reveal_strlit(">");
    reveal_strlit(">=");
    assert("<="@.len() != "<"@.len());
    assert(">"@[0] != "<"@[0]);
    assert(">"@.len() != "<="@.len());
    assert(">="@.len() != "<"@.len());
    assert(">="@[0] != "<="@[0]);
    assert(">="@.len() != ">"@.len());
}

/// The active claims that are not defaults, in trajectory order.
pub open spec fn strict_actives(cs: Seq<Claim>) -> Seq<Claim>
    decreases cs.len(),
{
    if cs.len() == 0 {
        Seq::empty()
    } else if cs.last().active && !cs.last().defeasible {
        strict_actives(cs.drop_last()).push(cs.last())
    } else {
        strict_actives(cs.drop_last())
    }
}

/// `(assert F)` for each claim of `cs`, laid end to end.
pub open spec fn asserts_of(cs: Seq<Claim>) -> Seq<char> {
    crate::world::concat(cs.map_values(|c: Claim| "(assert "@ + crate::smt::form_sexp(c.formula) + ")\n"@))
}

proof fn lemma_asserts_of_push(cs: Seq<Claim>, c: Claim)
    ensures
        asserts_of(cs.push(c)) == asserts_of(cs) + ("(assert "@ + crate::smt::form_sexp(c.formula) + ")\n"@),
{
    let f = |c: Claim| "(assert "@ + crate::smt::form_sexp(c.formula) + ")\n"@;
    assert(cs.push(c).map_values(f) =~= cs.map_values(f).push(f(c)));
    crate::world::lemma_concat_push(cs.map_values(f), f(c));
}

proof fn lemma_lines_push(kind: crate::world::LineKind, cs: Seq<Claim>)
    requires
        cs.len() > 0,
    ensures
        crate::world::active_lines(kind, cs) == if cs.last().active {
            crate::world::active_lines(kind, cs.drop_last()) + crate::world::claim_lines(kind, cs.last())
        } else {
            crate::world::active_lines(kind, cs.drop_last())
        },
{
    let f = |c: Claim| crate::world::claim_lines(kind, c);
    let a = crate::world::actives(cs.drop_last());
    if cs.last().active {
        assert(a.push(cs.last()).map_values(f) =~= a.map_values(f).push(f(cs.last())));
        crate::world::lemma_concat_push(a.map_values(f), f(cs.last()));
    }
}

/// The consistency and entailment scripts assert every active claim,
/// default or not, one `(assert F)` line each in trajectory order.
pub proof fn law_check_asserts_every_active_claim(cs: Seq<Claim>)
    ensures
        crate::world::active_lines(crate::world::LineKind::Assert, cs) == asserts_of(crate::world::actives(cs)),
    decreases cs.len(),
{
    if cs.len() == 0 {
        assert(crate::world::actives(cs).map_values(
            |c: Claim| crate::world::claim_lines(crate::world::LineKind::Assert, c),
        ) =~= Seq::<Seq<char>>::empty());
        assert(crate::world::actives(cs).map_values(
            |c: Claim| "(assert "@ + crate::smt::form_sexp(c.formula) + ")\n"@,
        ) =~= Seq::<Seq<char>>::empty());
    } else {
        law_check_asserts_every_active_claim(cs.drop_last());
        lemma_lines_push(crate::world::LineKind::Assert, cs);
        if cs.last().active {
            lemma_asserts_of_push(crate::world::actives(cs.drop_last()), cs.last());
        }
    }
}

/// The specificity script asserts exactly the active claims that are not
/// defaults, one `(assert F)` line each in trajectory order: no default's
/// formula is among its assumptions.
pub proof fn law_specificity_asserts_only_strict_claims(cs: Seq<Claim>)
    ensures
        crate::world::active_lines(crate::world::LineKind::StrictAssert, cs) == asserts_of(strict_actives(cs)),
    decreases cs.len(),
{
    if cs.len() == 0 {
        assert(crate::world::actives(cs).map_values(
            |c: Claim| crate::world::claim_lines(crate::world::LineKind::StrictAssert, c),
        ) =~= Seq::<Seq<char>>::empty());
        assert(strict_actives(cs).map_values(
            |c: Claim| "(assert "@ + crate::smt::form_sexp(c.formula) + ")\n"@,
        ) =~= Seq::<Seq<char>>::empty());
    } else {
        law_specificity_asserts_only_strict_claims(cs.drop_last());
        lemma_lines_push(crate::world::LineKind::StrictAssert, cs);
        if cs.last().active && !cs.last().defeasible {
            lemma_asserts_of_push(strict_actives(cs.drop_last()), cs.last());
        } else if cs.last().active {
            assert(crate::world::claim_lines(crate::world::LineKind::StrictAssert, cs.last()) =~= Seq::<char>::empty());
            assert(crate::world::active_lines(crate::world::LineKind::StrictAssert, cs.drop_last()) + Seq::<char>::empty()
                =~= crate::world::active_lines(crate::world::LineKind::StrictAssert, cs.drop_last()));
        }
    }
}

/// The scripts built on those lines: the consistency check and the
/// entailment probe carry every active claim, the specificity query only
/// the strict ones.
pub proof fn law_scripts_assert_the_right_claims(c: Core, f: crate::ir::Formula, pa: Seq<char>, pb: Seq<char>, sort: Seq<char>)
    ensures
        crate::world::check_script(c) == "(set-logic ALL)\n"@ + crate::world::decls_text(c) + asserts_of(
            crate::world::actives(c.claims@),
        ) + "(check-sat)\n"@,
        crate::world::entails_script(c, f) == "(set-logic ALL)\n"@ + crate::world::decls_text(c) + asserts_of(
            crate::world::actives(c.claims@),
        ) + "(assert (not "@ + crate::smt::form_sexp(f) + "))\n(check-sat)\n"@,
        crate::world::more_specific_script(c, pa, pb, sort) == "(set-logic ALL)\n"@ + crate::world::decls_text(c)
            + asserts_of(strict_actives(c.claims@)) + "(declare-const __k "@ + sort + ")\n"@ + "(assert ("@ + pa
            + " __k))\n"@ + "(assert (not ("@ + pb + " __k)))\n"@ + "(check-sat)\n"@,
{
    law_check_asserts_every_active_claim(c.claims@);
    law_specificity_asserts_only_strict_claims(c.claims@);
}

/// The function or constant `k` is applied somewhere in the term.
pub open spec fn term_mentions(t: crate::ir::Term, k: Seq<char>) -> bool
    decreases t,
{
    match t {
        crate::ir::Term::App { name, args } => name@ == k || terms_mention(args@, k),
        crate::ir::Term::Arith { op, args } => terms_mention(args@, k),
        _ => false,
    }
}

/// The function or constant `k` is applied somewhere in one of the terms.
pub open spec fn terms_mention(s: Seq<crate::ir::Term>, k: Seq<char>) -> bool
    decreases s,
{
    if s.len() == 0 {
        false
    } else {
        terms_mention(s.subrange(0, s.len() - 1), k) || term_mentions(s[s.len() - 1], k)
    }
}

/// The function or constant `k` is applied somewhere in the formula: in
/// a predicate's arguments, on either side of an equality or a
/// comparison, or under any connective or quantifier.
pub open spec fn form_mentions(f: crate::ir::Formula, k: Seq<char>) -> bool
    decreases f,
{
    match f {
        crate::ir::Formula::Pred { name, args } => terms_mention(args@, k),
        crate::ir::Formula::Eq { a, b } => term_mentions(a, k) || term_mentions(b, k),
        crate::ir::Formula::Cmp { rel, a, b } => term_mentions(a, k) || term_mentions(b, k),
        crate::ir::Formula::Not { x } => form_mentions(*x, k),
        crate::ir::Formula::And { xs } => forms_mention(xs@, k),
        crate::ir::Formula::Or { xs } => forms_mention(xs@, k),
        crate::ir::Formula::Imp { a, b } => form_mentions(*a, k) || form_mentions(*b, k),
        crate::ir::Formula::Iff { a, b } => form_mentions(*a, k) || form_mentions(*b, k),
        crate::ir::Formula::Forall { vars, body } => form_mentions(*body, k),
        crate::ir::Formula::Exists { vars, body } => form_mentions(*body, k),
    }
}

pub open spec fn forms_mention(s: Seq<crate::ir::Formula>, k: Seq<char>) -> bool
    decreases s,
{
    if s.len() == 0 {
        false
    } else {
        forms_mention(s.subrange(0, s.len() - 1), k) || form_mentions(s[s.len() - 1], k)
    }
}

/// The predicate `k` is applied somewhere in the formula.
pub open spec fn form_applies(f: crate::ir::Formula, k: Seq<char>) -> bool
    decreases f,
{
    match f {
        crate::ir::Formula::Pred { name, args } => name@ == k,
        crate::ir::Formula::Eq { a, b } => false,
        crate::ir::Formula::Cmp { rel, a, b } => false,
        crate::ir::Formula::Not { x } => form_applies(*x, k),
        crate::ir::Formula::And { xs } => forms_apply(xs@, k),
        crate::ir::Formula::Or { xs } => forms_apply(xs@, k),
        crate::ir::Formula::Imp { a, b } => form_applies(*a, k) || form_applies(*b, k),
        crate::ir::Formula::Iff { a, b } => form_applies(*a, k) || form_applies(*b, k),
        crate::ir::Formula::Forall { vars, body } => form_applies(*body, k),
        crate::ir::Formula::Exists { vars, body } => form_applies(*body, k),
    }
}

pub open spec fn forms_apply(s: Seq<crate::ir::Formula>, k: Seq<char>) -> bool
    decreases s,
{
    if s.len() == 0 {
        false
    } else {
        forms_apply(s.subrange(0, s.len() - 1), k) || form_applies(s[s.len() - 1], k)
    }
}

/// A name listed with some arity.
pub open spec fn lists(occ: Seq<(Seq<char>, usize)>, k: Seq<char>) -> bool {
    exists|n: usize| #[trigger] occ.contains((k, n))
}

proof fn lemma_lists_append(a: Seq<(Seq<char>, usize)>, b: Seq<(Seq<char>, usize)>, k: Seq<char>)
    ensures
        lists(a, k) || lists(b, k) ==> lists(a + b, k),
{
    if lists(a, k) {
        let n = choose|n: usize| #[trigger] a.contains((k, n));
        let q = choose|q: int| 0 <= q < a.len() && a[q] == (k, n);
        assert((a + b)[q] == (k, n));
        assert((a + b).contains((k, n)));
    } else if lists(b, k) {
        let n = choose|n: usize| #[trigger] b.contains((k, n));
        let q = choose|q: int| 0 <= q < b.len() && b[q] == (k, n);
        assert((a + b)[a.len() + q] == (k, n));
        assert((a + b).contains((k, n)));
    }
}

proof fn lemma_term_mentions(t: crate::ir::Term, k: Seq<char>)
    ensures
        term_mentions(t, k) ==> lists(crate::symbols::term_funcs(t), k),
    decreases t,
{
    match t {
        crate::ir::Term::App { name, args } => {
            lemma_terms_mention(args@, k);
            let head = seq![(name@, args@.len() as usize)];
            if name@ == k {
                assert(head[0] == (k, args@.len() as usize));
                assert(head.contains((k, args@.len() as usize)));
            }
            lemma_lists_append(head, crate::symbols::terms_funcs(args@), k);
        },
        crate::ir::Term::Arith { op, args } => {
            lemma_terms_mention(args@, k);
        },
        _ => {},
    }
}

proof fn lemma_terms_mention(s: Seq<crate::ir::Term>, k: Seq<char>)
    ensures
        terms_mention(s, k) ==> lists(crate::symbols::terms_funcs(s), k),
    decreases s,
{
    if s.len() > 0 {
        lemma_terms_mention(s.subrange(0, s.len() - 1), k);
        lemma_term_mentions(s[s.len() - 1], k);
        lemma_lists_append(
            crate::symbols::terms_funcs(s.subrange(0, s.len() - 1)),
            crate::symbols::term_funcs(s[s.len() - 1]),
            k,
        );
    }
}

proof fn lemma_form_mentions(f: crate::ir::Formula, k: Seq<char>)
    ensures
        form_mentions(f, k) ==> lists(crate::symbols::form_funcs(f), k),
        form_applies(f, k) ==> lists(crate::symbols::form_preds(f), k),
    decreases f,
{
    match f {
        crate::ir::Formula::Pred { name, args } => {
            lemma_terms_mention(args@, k);
            let one = seq![(name@, args@.len() as usize)];
            if name@ == k {
                assert(one[0] == (k, args@.len() as usize));
                assert(one.contains((k, args@.len() as usize)));
            }
        },
        crate::ir::Formula::Eq { a, b } => {
            lemma_term_mentions(a, k);
            lemma_term_mentions(b, k);
            lemma_lists_append(crate::symbols::term_funcs(a), crate::symbols::term_funcs(b), k);
        },
        crate::ir::Formula::Cmp { rel, a, b } => {
            lemma_term_mentions(a, k);
            lemma_term_mentions(b, k);
            lemma_lists_append(crate::symbols::term_funcs(a), crate::symbols::term_funcs(b), k);
        },
        crate::ir::Formula::Not { x } => {
            lemma_form_mentions(*x, k);
        },
        crate::ir::Formula::And { xs } => {
            lemma_forms_mention(xs@, k);
        },
        crate::ir::Formula::Or { xs } => {
            lemma_forms_mention(xs@, k);
        },
        crate::ir::Formula::Imp { a, b } => {
            lemma_form_mentions(*a, k);
            lemma_form_mentions(*b, k);
            lemma_lists_append(crate::symbols::form_funcs(*a), crate::symbols::form_funcs(*b), k);
            lemma_lists_append(crate::symbols::form_preds(*a), crate::symbols::form_preds(*b), k);
        },
        crate::ir::Formula::Iff { a, b } => {
            lemma_form_mentions(*a, k);
            lemma_form_mentions(*b, k);
            lemma_lists_append(crate::symbols::form_funcs(*a), crate::symbols::form_funcs(*b), k);
            lemma_lists_append(crate::symbols::form_preds(*a), crate::symbols::form_preds(*b), k);
        },
        crate::ir::Formula::Forall { vars, body } => {
            lemma_form_mentions(*body, k);
        },
        crate::ir::Formula::Exists { vars, body } => {
            lemma_form_mentions(*body, k);
        },
    }
}

proof fn lemma_forms_mention(s: Seq<crate::ir::Formula>, k: Seq<char>)
    ensures
        forms_mention(s, k) ==> lists(crate::symbols::forms_funcs(s), k),
        forms_apply(s, k) ==> lists(crate::symbols::forms_preds(s), k),
    decreases s,
{
    if s.len() > 0 {
        lemma_forms_mention(s.subrange(0, s.len() - 1), k);
        lemma_form_mentions(s[s.len() - 1], k);
        lemma_lists_append(
            crate::symbols::forms_funcs(s.subrange(0, s.len() - 1)),
            crate::symbols::form_funcs(s[s.len() - 1]),
            k,
        );
        lemma_lists_append(
            crate::symbols::forms_preds(s.subrange(0, s.len() - 1)),
            crate::symbols::form_preds(s[s.len() - 1]),
            k,
        );
    }
}

proof fn lemma_claims_list(cs: Seq<Claim>, i: int, k: Seq<char>)
    requires
        0 <= i < cs.len(),
    ensures
        lists(crate::symbols::form_funcs(cs[i].formula), k) ==> lists(crate::symbols::claims_funcs(cs), k),
        lists(crate::symbols::form_preds(cs[i].formula), k) ==> lists(crate::symbols::claims_preds(cs), k),
    decreases cs.len(),
{
    if i < cs.len() - 1 {
        lemma_claims_list(cs.drop_last(), i, k);
        assert(cs.drop_last()[i] == cs[i]);
    }
    lemma_lists_append(crate::symbols::claims_funcs(cs.drop_last()), crate::symbols::form_funcs(cs.last().formula), k);
    lemma_lists_append(crate::symbols::claims_preds(cs.drop_last()), crate::symbols::form_preds(cs.last().formula), k);
}

proof fn lemma_absorb_lists(m: Map<Seq<char>, usize>, occ: Seq<(Seq<char>, usize)>, k: Seq<char>)
    ensures
        lists(occ, k) ==> absorb(m, occ).contains_key(k),
        m.contains_key(k) ==> absorb(m, occ).contains_key(k),
    decreases occ.len(),
{
    if occ.len() > 0 {
        lemma_absorb_lists(m, occ.drop_last(), k);
        if lists(occ, k) {
            let n = choose|n: usize| #[trigger] occ.contains((k, n));
            let q = choose|q: int| 0 <= q < occ.len() && occ[q] == (k, n);
            if q < occ.len() - 1 {
                assert(occ.drop_last()[q] == (k, n));
                assert(occ.drop_last().contains((k, n)));
            }
        }
    }
}

/// After an accepted batch, every function or constant applied anywhere
/// in a claim's formula (in a predicate's arguments, on either side of
/// an equality or a comparison, under any connective or quantifier), and
/// every predicate applied in it, has a signature.
pub proof fn law_ingest_declares_every_mentioned_symbol(pre: Core, post: Core, ing: Ingest, i: int, k: Seq<char>)
    requires
        ingest_effect(pre, post, ing),
        0 <= i < post.claims@.len(),
    ensures
        form_mentions(post.claims@[i].formula, k) ==> sig_table(post.funcs).contains_key(k),
        form_applies(post.claims@[i].formula, k) ==> sig_table(post.preds).contains_key(k),
{
    let cs = post.claims@;
    lemma_form_mentions(cs[i].formula, k);
    lemma_claims_list(cs, i, k);
    lemma_absorb_lists(Map::empty(), crate::symbols::claims_funcs(cs), k);
    lemma_absorb_lists(Map::empty(), crate::symbols::claims_preds(cs), k);
    law_ingest_declares_every_used_symbol(pre, post, ing, k);
}

/// `(assert (! F :named id))` for each claim of `cs`, laid end to end.
pub open spec fn named_asserts_of(cs: Seq<Claim>) -> Seq<char> {
    crate::world::concat(
        cs.map_values(|c: Claim| "(assert (! "@ + crate::smt::form_sexp(c.formula) + " :named "@ + c.id@ + "))\n"@),
    )
}

/// The assumption literal and guarded assertion for each claim of `cs`.
pub open spec fn guarded_asserts_of(cs: Seq<Claim>) -> Seq<char> {
    crate::world::concat(
        cs.map_values(
            |c: Claim|
                "(declare-const a_"@ + c.id@ + " Bool)\n"@ + "(assert (=> a_"@ + c.id@ + " "@ + crate::smt::form_sexp(
                    c.formula,
                ) + "))\n"@,
        ),
    )
}

/// The unsat-core script names every active claim by its id, and the
/// assumption scripts guard every active claim by its literal `a_<id>`,
/// default or not, in trajectory order.
pub proof fn law_core_and_assumption_lines_cover_every_active_claim(cs: Seq<Claim>)
    ensures
        crate::world::active_lines(crate::world::LineKind::Named, cs) == named_asserts_of(crate::world::actives(cs)),
        crate::world::active_lines(crate::world::LineKind::Assumption, cs) == guarded_asserts_of(
            crate::world::actives(cs),
        ),
    decreases cs.len(),
{
    let fa = |c: Claim| "(assert (! "@ + crate::smt::form_sexp(c.formula) + " :named "@ + c.id@ + "))\n"@;
    let fb = |c: Claim|
        "(declare-const a_"@ + c.id@ + " Bool)\n"@ + "(assert (=> a_"@ + c.id@ + " "@ + crate::smt::form_sexp(c.formula)
            + "))\n"@;
    let a = crate::world::actives(cs);
    if cs.len() == 0 {
        assert(a.map_values(|c: Claim| crate::world::claim_lines(crate::world::LineKind::Named, c)) =~= Seq::<
            Seq<char>,
        >::empty());
        assert(a.map_values(|c: Claim| crate::world::claim_lines(crate::world::LineKind::Assumption, c)) =~= Seq::<
            Seq<char>,
        >::empty());
        assert(a.map_values(fa) =~= Seq::<Seq<char>>::empty());
        assert(a.map_values(fb) =~= Seq::<Seq<char>>::empty());
    } else {
        law_core_and_assumption_lines_cover_every_active_claim(cs.drop_last());
        lemma_lines_push(crate::world::LineKind::Named, cs);
        lemma_lines_push(crate::world::LineKind::Assumption, cs);
        if cs.last().active {
            let a0 = crate::world::actives(cs.drop_last());
            assert(a0.push(cs.last()).map_values(fa) =~= a0.map_values(fa).push(fa(cs.last())));
            crate::world::lemma_concat_push(a0.map_values(fa), fa(cs.last()));
            assert(a0.push(cs.last()).map_values(fb) =~= a0.map_values(fb).push(fb(cs.last())));
            crate::world::lemma_concat_push(a0.map_values(fb), fb(cs.last()));
        }
    }
}

/// Formulas read in words: negation as "it is not the case that (..)",
/// conjunction joined by ", and ", disjunction by ", or ", implication
/// as "if .. then ..", equivalence as ".. exactly when ..", equality as
/// ".. is ..", and quantifiers as "for every .." and "there is some ..
/// such that ..".
pub proof fn law_connectives_read_in_words(f: crate::ir::Formula)
    ensures
        f matches crate::ir::Formula::Not { x } ==> crate::english::form_english(f) == "it is not the case that ("@
            + crate::english::form_english(*x) + ")"@,
        f matches crate::ir::Formula::And { xs } ==> crate::english::form_english(f) == crate::text::join(
            crate::english::forms_english(xs@),
            ", and "@,
        ),
        f matches crate::ir::Formula::Or { xs } ==> crate::english::form_english(f) == crate::text::join(
            crate::english::forms_english(xs@),
            ", or "@,
        ),
        f matches crate::ir::Formula::Imp { a, b } ==> crate::english::form_english(f) == "if "@
            + crate::english::form_english(*a) + " then "@ + crate::english::form_english(*b),
        f matches crate::ir::Formula::Iff { a, b } ==> crate::english::form_english(f) == crate::english::form_english(
            *a,
        ) + " exactly when "@ + crate::english::form_english(*b),
        f matches crate::ir::Formula::Eq { a, b } ==> crate::english::form_english(f) == crate::english::term_english(a)
            + " is "@ + crate::english::term_english(b),
        f matches crate::ir::Formula::Forall { vars, body } ==> crate::english::form_english(f) == "for every "@
            + crate::text::join(crate::english::qvars_english(vars@), " and "@) + ", "@ + crate::english::form_english(
            *body,
        ),
        f matches crate::ir::Formula::Exists { vars, body } ==> crate::english::form_english(f) == "there is some "@
            + crate::text::join(crate::english::qvars_english(vars@), " and "@) + " such that "@
            + crate::english::form_english(*body),
{
}

/// Formulas compile to the SMT-LIB2 operators that mean them: `not`,
/// `and`, `or`, `=>` for implication, `=` for equivalence and equality,
/// the comparison symbol itself, `forall` and `exists` over sorted
/// bindings.
pub proof fn law_connectives_compile_to_their_operators(f: crate::ir::Formula)
    ensures
        f matches crate::ir::Formula::Not { x } ==> crate::smt::form_sexp(f) == "(not "@ + crate::smt::form_sexp(*x)
            + ")"@,
        f matches crate::ir::Formula::And { xs } ==> crate::smt::form_sexp(f) == "(and "@ + crate::text::join(
            crate::smt::forms_sexp(xs@),
            " "@,
        ) + ")"@,
        f matches crate::ir::Formula::Or { xs } ==> crate::smt::form_sexp(f) == "(or "@ + crate::text::join(
            crate::smt::forms_sexp(xs@),
            " "@,
        ) + ")"@,
        f matches crate::ir::Formula::Imp { a, b } ==> crate::smt::form_sexp(f) == "(=> "@ + crate::smt::form_sexp(*a)
            + " "@ + crate::smt::form_sexp(*b) + ")"@,
        f matches crate::ir::Formula::Iff { a, b } ==> crate::smt::form_sexp(f) == "(= "@ + crate::smt::form_sexp(*a)
            + " "@ + crate::smt::form_sexp(*b) + ")"@,
        f matches crate::ir::Formula::Eq { a, b } ==> crate::smt::form_sexp(f) == "(= "@ + crate::smt::term_sexp(a)
            + " "@ + crate::smt::term_sexp(b) + ")"@,
        f matches crate::ir::Formula::Cmp { rel, a, b } ==> crate::smt::form_sexp(f) == "("@ + rel@ + " "@
            + crate::smt::term_sexp(a) + " "@ + crate::smt::term_sexp(b) + ")"@,
        f matches crate::ir::Formula::Forall { vars, body } ==> crate::smt::form_sexp(f) == "(forall ("@
            + crate::text::join(crate::smt::qvars_sexp(vars@), " "@) + ") "@ + crate::smt::form_sexp(*body) + ")"@,
        f matches crate::ir::Formula::Exists { vars, body } ==> crate::smt::form_sexp(f) == "(exists ("@
            + crate::text::join(crate::smt::qvars_sexp(vars@), " "@) + ") "@ + crate::smt::form_sexp(*body) + ")"@,
{
}

/// Defaults are tried most specific first; among defaults equally
/// specific, the more entrenched first.
pub proof fn law_defaults_by_specificity_then_weight(spec: Seq<(Seq<char>, Seq<char>)>, cs: Seq<Claim>, defs: Seq<Seq<char>>)
    ensures
        forall|i: int, j: int|
            #![trigger ranked(spec, cs, defs)[i], ranked(spec, cs, defs)[j]]
            0 <= i < j < ranked(spec, cs, defs).len() ==> {
                let x = ranked(spec, cs, defs)[i];
                let y = ranked(spec, cs, defs)[j];
                &&& crate::defeasible::depth(spec, x) >= crate::defeasible::depth(spec, y)
                &&& crate::defeasible::depth(spec, x) == crate::defeasible::depth(spec, y) ==> crate::analysis::weight_of(
                    cs,
                    x,
                ) >= crate::analysis::weight_of(cs, y)
            },
{
    law_defaults_tried_best_first(spec, cs, defs);
    let r = ranked(spec, cs, defs);
    assert forall|i: int, j: int|
        #![trigger r[i], r[j]]
        0 <= i < j < r.len() implies {
            &&& crate::defeasible::depth(spec, r[i]) >= crate::defeasible::depth(spec, r[j])
            &&& crate::defeasible::depth(spec, r[i]) == crate::defeasible::depth(spec, r[j])
                ==> crate::analysis::weight_of(cs, r[i]) >= crate::analysis::weight_of(cs, r[j])
        } by {
        assert(!ranks_before(spec, cs, r[j], r[i]));
    }
}

/// Some id of `a` is not in `b`.
pub open spec fn not_within(a: Seq<Seq<char>>, b: Seq<Seq<char>>) -> bool {
    exists|x: Seq<char>| a.contains(x) && !b.contains(x)
}

proof fn lemma_mhs_from(sets: Seq<Seq<Seq<char>>>, universe: Seq<Seq<char>>, cs: Seq<Seq<usize>>)
    ensures
        forall|k: int, i: int|
            0 <= k < crate::hitting::mhs_from(sets, universe, cs).len() && 0 <= i < sets.len() ==> meet(
                #[trigger] sets[i],
                #[trigger] crate::hitting::mhs_from(sets, universe, cs)[k],
            ),
        forall|j: int, k: int|
            0 <= j < k < crate::hitting::mhs_from(sets, universe, cs).len() ==> not_within(
                #[trigger] crate::hitting::mhs_from(sets, universe, cs)[j],
                #[trigger] crate::hitting::mhs_from(sets, universe, cs)[k],
            ),
    decreases cs.len(),
{
    if cs.len() > 0 {
        lemma_mhs_from(sets, universe, cs.drop_last());
        let found = crate::hitting::mhs_from(sets, universe, cs.drop_last());
        let cand = crate::hitting::pick(universe, cs.last());
        let res = crate::hitting::mhs_from(sets, universe, cs);
        if crate::hitting::hits_all(sets, cand) && !(exists|j: int|
            0 <= j < found.len() && crate::hitting::covers(#[trigger] found[j], cand)) {
            assert(res == found.push(cand));
            assert forall|k: int, i: int| 0 <= k < res.len() && 0 <= i < sets.len() implies meet(
                #[trigger] sets[i],
                #[trigger] res[k],
            ) by {
                if k < found.len() {
                    assert(res[k] == found[k]);
                } else {
                    assert(crate::hitting::hits(sets[i], cand));
                    let e = choose|e: int| 0 <= e < sets[i].len() && cand.contains(#[trigger] sets[i][e]);
                    assert(sets[i].contains(sets[i][e]));
                    assert(res[k] == cand);
                }
            }
            assert forall|j: int, k: int| 0 <= j < k < res.len() implies not_within(
                #[trigger] res[j],
                #[trigger] res[k],
            ) by {
                if k < found.len() {
                    assert(res[j] == found[j] && res[k] == found[k]);
                } else {
                    assert(res[j] == found[j]);
                    assert(res[k] == cand);
                    assert(!crate::hitting::covers(found[j], cand));
                    let e = choose|e: int| 0 <= e < found[j].len() && !cand.contains(#[trigger] found[j][e]);
                    assert(found[j].contains(found[j][e]));
                }
            }
        }
    }
}

/// Every hitting set found shares an id with every set of the family,
/// and none found later contains all of one found earlier.
pub proof fn law_hitting_sets_hit_every_set(sets: Seq<Seq<Seq<char>>>, universe: Seq<Seq<char>>)
    ensures
        forall|k: int, i: int|
            0 <= k < crate::hitting::hitting_sets(sets, universe).len() && 0 <= i < sets.len() ==> meet(
                #[trigger] sets[i],
                #[trigger] crate::hitting::hitting_sets(sets, universe)[k],
            ),
        forall|j: int, k: int|
            0 <= j < k < crate::hitting::hitting_sets(sets, universe).len() ==> not_within(
                #[trigger] crate::hitting::hitting_sets(sets, universe)[j],
                #[trigger] crate::hitting::hitting_sets(sets, universe)[k],
            ),
{
    if sets.len() > 0 {
        lemma_mhs_from(sets, universe, crate::hitting::cands_upto(universe.len(), universe.len()));
    }
}

/// The claim an id names is the first claim with that id: none before it
/// has the id, and when no claim has it the lookup says so.
pub proof fn law_id_names_its_first_claim(cs: Seq<Claim>, id: Seq<char>)
    ensures
        find_id(cs, id) >= 0 ==> find_id(cs, id) < cs.len() && cs[find_id(cs, id)].id@ == id && forall|j: int|
            0 <= j < find_id(cs, id) ==> (#[trigger] cs[j]).id@ != id,
        find_id(cs, id) < 0 ==> find_id(cs, id) == -1 && forall|j: int| 0 <= j < cs.len() ==> (#[trigger] cs[j]).id@ != id,
    decreases cs.len(),
{
    lemma_find_id_range(cs, id);
    if cs.len() > 0 {
        law_id_names_its_first_claim(cs.drop_last(), id);
        assert forall|j: int| 0 <= j < cs.len() - 1 implies cs.drop_last()[j] == #[trigger] cs[j] by {}
    }
}

/// The ids read from an unsat core are exactly the words of the form
/// `a_<id>`, with the prefix taken off.
pub proof fn law_core_names_are_assumption_literals(ws: Seq<Seq<char>>, r: Seq<char>)
    ensures
        crate::answers::assumption_names(ws).contains(r) <==> ws.contains("a_"@ + r),
    decreases ws.len(),
{
    reveal_strlit("a_");
    if ws.len() > 0 {
        law_core_names_are_assumption_literals(ws.drop_first(), r);
        let w = ws[0];
        let rest = crate::answers::assumption_names(ws.drop_first());
        let lit = "a_"@ + r;
        assert(lit.len() == r.len() + 2 && lit[0] == 'a' && lit[1] == '_');
        assert(lit.skip(2) =~= r);
        assert(ws =~= seq![w] + ws.drop_first());
        if ws.contains(lit) {
            let q = choose|q: int| 0 <= q < ws.len() && ws[q] == lit;
            if q > 0 {
                assert(ws.drop_first()[q - 1] == lit);
            }
        }
        if ws.drop_first().contains(lit) {
            let q = choose|q: int| 0 <= q < ws.drop_first().len() && ws.drop_first()[q] == lit;
            assert(ws[q + 1] == lit);
        }
        if w.len() >= 2 && w[0] == 'a' && w[1] == '_' {
            let out = seq![w.skip(2)] + rest;
            if w.skip(2) == r {
                assert(w =~= lit);
                assert(out[0] == r);
            }
            if w == lit {
                assert(out[0] == r);
            }
            if out.contains(r) {
                let q = choose|q: int| 0 <= q < out.len() && out[q] == r;
                if q > 0 {
                    assert(rest[q - 1] == r);
                } else {
                    assert(w =~= lit);
                }
            }
            if rest.contains(r) {
                let q = choose|q: int| 0 <= q < rest.len() && rest[q] == r;
                assert(out[q + 1] == r);
            }
        } else {
            assert(w != lit);
        }
    }
}

/// Retracting, reactivating, marking a default and reweighting touch only
/// the first claim with the id, and only the one field: every other
/// claim, and every other field of that claim, stays as it was.
pub proof fn law_flag_changes_touch_one_field(cs: Seq<Claim>, id: Seq<char>, a: bool, w: i64)
    ensures
        crate::engine::set_active(cs, id, a).len() == cs.len(),
        crate::engine::set_defeasible(cs, id, a).len() == cs.len(),
        set_weight(cs, id, w).len() == cs.len(),
        forall|i: int| 0 <= i < cs.len() ==> {
            let x = #[trigger] crate::engine::set_active(cs, id, a)[i];
            &&& x.active == if i == find_id(cs, id) { a } else { cs[i].active }
            &&& x.id == cs[i].id && x.formula == cs[i].formula && x.weight == cs[i].weight
            &&& x.defeasible == cs[i].defeasible && x.source == cs[i].source && x.gloss == cs[i].gloss
            &&& x.back == cs[i].back
        },
        forall|i: int| 0 <= i < cs.len() ==> {
            let x = #[trigger] crate::engine::set_defeasible(cs, id, a)[i];
            &&& x.defeasible == if i == find_id(cs, id) { a } else { cs[i].defeasible }
            &&& x.id == cs[i].id && x.formula == cs[i].formula && x.weight == cs[i].weight
            &&& x.active == cs[i].active && x.source == cs[i].source && x.gloss == cs[i].gloss
            &&& x.back == cs[i].back
        },
        forall|i: int| 0 <= i < cs.len() ==> {
            let x = #[trigger] set_weight(cs, id, w)[i];
            &&& x.weight == if i != find_id(cs, id) { cs[i].weight } else if w < 1 { 1 } else { w }
            &&& x.id == cs[i].id && x.formula == cs[i].formula && x.active == cs[i].active
            &&& x.defeasible == cs[i].defeasible && x.source == cs[i].source && x.gloss == cs[i].gloss
            &&& x.back == cs[i].back
        },
{
    lemma_find_id_range(cs, id);
}

/// Removing an id drops every claim with that id and keeps every other
/// claim.
pub proof fn law_remove_drops_exactly_the_id(cs: Seq<Claim>, id: Seq<char>, c: Claim)
    ensures
        crate::engine::without_id(cs, id).contains(c) <==> cs.contains(c) && c.id@ != id,
        crate::engine::without_id(cs, id).len() <= cs.len(),
    decreases cs.len(),
{
    if cs.len() > 0 {
        law_remove_drops_exactly_the_id(cs.drop_last(), id, c);
        let r0 = crate::engine::without_id(cs.drop_last(), id);
        lemma_push_contains(cs.drop_last(), cs.last(), c);
        assert(cs.drop_last().push(cs.last()) =~= cs);
        if cs.last().id@ != id {
            lemma_push_contains(r0, cs.last(), c);
        }
    }
}

/// `x` names a declared constant of sort `so`: a function of no argument
/// whose result sort is `so`.
pub open spec fn is_constant_of(vals: Seq<crate::ir::Sig>, x: Seq<char>, so: Seq<char>) -> bool {
    exists|i: int|
        0 <= i < vals.len() && (#[trigger] vals[i]).name@ == x && vals[i].args@.len() == 0 && vals[i].ret is Some
            && vals[i].ret->Some_0@ == so
}

/// `a` is a declared predicate applied, argument by argument, to declared
/// constants of its argument sorts.
pub open spec fn atom_well_typed(c: Core, a: crate::meta::AtomView) -> bool {
    exists|name: Seq<char>|
        #![trigger c.preds.lookup(name)]
        c.preds.lookup(name) is Some && c.preds.lookup(name)->Some_0.name@ == a.pred && c.preds.lookup(
            name,
        )->Some_0.args@.len() == a.args.len() && forall|k: int|
            0 <= k < a.args.len() ==> is_constant_of(
                c.funcs.values(),
                #[trigger] a.args[k],
                c.preds.lookup(name)->Some_0.args@[k]@,
            )
}

proof fn lemma_consts_are_constants(vals: Seq<crate::ir::Sig>, so: Seq<char>, x: Seq<char>)
    ensures
        crate::meta::consts_of(vals, so).contains(x) ==> is_constant_of(vals, x, so),
    decreases vals.len(),
{
    if vals.len() > 0 {
        lemma_consts_are_constants(vals.drop_last(), so, x);
        let r = crate::meta::consts_of(vals.drop_last(), so);
        let f = vals.last();
        if crate::meta::consts_of(vals, so).contains(x) {
            if r.contains(x) {
                let i = choose|i: int|
                    0 <= i < vals.drop_last().len() && (#[trigger] vals.drop_last()[i]).name@ == x
                        && vals.drop_last()[i].args@.len() == 0 && vals.drop_last()[i].ret is Some
                        && vals.drop_last()[i].ret->Some_0@ == so;
                assert(vals[i] == vals.drop_last()[i]);
            } else {
                lemma_push_contains(r, f.name@, x);
                let i = vals.len() - 1;
                assert(vals[i] == f);
            }
        }
    }
}

proof fn lemma_cart_tuples(ts: Seq<Seq<Seq<char>>>, cs: Seq<Seq<char>>, t: Seq<Seq<char>>)
    ensures
        crate::meta::cart(ts, cs).contains(t) ==> t.len() >= 1 && ts.contains(t.drop_last()) && cs.contains(t.last()),
    decreases ts.len(),
{
    if ts.len() > 0 {
        lemma_cart_tuples(ts.drop_last(), cs, t);
        let a = crate::meta::cart(ts.drop_last(), cs);
        let b = cs.map_values(|c: Seq<char>| ts.last().push(c));
        if (a + b).contains(t) {
            let q = choose|q: int| 0 <= q < (a + b).len() && (a + b)[q] == t;
            if q < a.len() {
                assert(a[q] == t);
                let u = t.drop_last();
                let j = choose|j: int| 0 <= j < ts.drop_last().len() && ts.drop_last()[j] == u;
                assert(ts[j] == u);
            } else {
                let m = q - a.len();
                assert(b[m] == ts.last().push(cs[m]));
                assert(t.drop_last() =~= ts.last());
                assert(ts[ts.len() - 1] == ts.last());
                assert(cs.contains(cs[m]));
            }
        }
    }
}

proof fn lemma_tuples_typed(args: Seq<Seq<char>>, vals: Seq<crate::ir::Sig>, t: Seq<Seq<char>>)
    requires
        crate::meta::tuples_for(args, vals) is Some,
        crate::meta::tuples_for(args, vals)->Some_0.contains(t),
    ensures
        t.len() == args.len(),
        forall|k: int| 0 <= k < t.len() ==> crate::meta::consts_of(vals, args[k]).contains(#[trigger] t[k]),
    decreases args.len(),
{
    if args.len() == 0 {
        let q = choose|q: int| 0 <= q < 1 && seq![Seq::<Seq<char>>::empty()][q] == t;
        assert(t == Seq::<Seq<char>>::empty());
    } else {
        let ts0 = crate::meta::tuples_for(args.drop_last(), vals)->Some_0;
        let cs = crate::meta::consts_of(vals, args.last());
        lemma_cart_tuples(ts0, cs, t);
        lemma_tuples_typed(args.drop_last(), vals, t.drop_last());
        assert forall|k: int| 0 <= k < t.len() implies crate::meta::consts_of(vals, args[k]).contains(#[trigger] t[k]) by {
            if k < t.len() - 1 {
                assert(t.drop_last()[k] == t[k]);
                assert(args.drop_last()[k] == args[k]);
            }
        }
    }
}

proof fn lemma_emit_atoms(out: Seq<crate::meta::AtomView>, p: Seq<char>, ts: Seq<Seq<Seq<char>>>, k: int, a: crate::meta::AtomView)
    requires
        k <= ts.len(),
    ensures
        crate::meta::emit_upto(out, p, ts, k).0.contains(a) ==> out.contains(a) || exists|j: int|
            0 <= j < k && a == crate::meta::atom(p, #[trigger] ts[j]),
    decreases k,
{
    if k > 0 {
        lemma_emit_atoms(out, p, ts, k - 1, a);
        let (o, full) = crate::meta::emit_upto(out, p, ts, k - 1);
        if !full {
            lemma_push_contains(o, crate::meta::atom(p, ts[k - 1]), a);
        }
    }
}

proof fn lemma_atoms_typed(c: Core, k: int)
    requires
        0 <= k <= c.decl_order@.len(),
    ensures
        forall|i: int|
            0 <= i < crate::meta::atoms_upto(c, k).0.len() ==> atom_well_typed(
                c,
                #[trigger] crate::meta::atoms_upto(c, k).0[i],
            ),
    decreases k,
{
    if k > 0 {
        lemma_atoms_typed(c, k - 1);
        let st = crate::meta::atoms_upto(c, k - 1);
        let name = c.decl_order@[k - 1].1@;
        let r = crate::meta::atoms_upto(c, k).0;
        assert forall|i: int| 0 <= i < r.len() implies atom_well_typed(c, #[trigger] r[i]) by {
            let a = r[i];
            assert(r.contains(a));
            if st.0.contains(a) {
                let q = choose|q: int| 0 <= q < st.0.len() && st.0[q] == a;
                assert(atom_well_typed(c, st.0[q]));
            } else {
                let p = c.preds.lookup(name)->Some_0;
                if p.args@.len() == 0 {
                    lemma_push_contains(st.0, crate::meta::AtomView { label: p.name@, pred: p.name@, args: Seq::empty() }, a);
                    assert(c.preds.lookup(name) is Some);
                } else {
                    let ts = crate::meta::tuples_for(p.args.deep_view(), c.funcs.values())->Some_0;
                    lemma_emit_atoms(st.0, p.name@, ts, ts.len() as int, a);
                    let j = choose|j: int| 0 <= j < ts.len() && a == crate::meta::atom(p.name@, #[trigger] ts[j]);
                    assert(ts.contains(ts[j]));
                    lemma_tuples_typed(p.args.deep_view(), c.funcs.values(), ts[j]);
                    assert forall|m: int| 0 <= m < a.args.len() implies is_constant_of(
                        c.funcs.values(),
                        #[trigger] a.args[m],
                        p.args@[m]@,
                    ) by {
                        assert(p.args.deep_view()[m] == p.args@[m]@);
                        lemma_consts_are_constants(c.funcs.values(), p.args@[m]@, a.args[m]);
                    }
                    assert(c.preds.lookup(name) is Some);
                }
            }
        }
    }
}

/// Every candidate ground atom is a declared predicate applied, argument
/// by argument, to declared constants of the argument's sort.
pub proof fn law_ground_atoms_are_well_typed(c: Core)
    ensures
        forall|i: int|
            0 <= i < crate::meta::ground_atoms_of(c).len() ==> atom_well_typed(
                c,
                #[trigger] crate::meta::ground_atoms_of(c)[i],
            ),
{
    lemma_atoms_typed(c, c.decl_order@.len() as int);
}

} // verus!
