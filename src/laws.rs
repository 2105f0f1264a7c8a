//! Laws relating the engine's operations to one another.
use vstd::prelude::*;
use crate::value::Val;
use crate::plan::{antijoin_set, keys_match};
use crate::graph::{recompute, lemma_consistent_is_recompute, lemma_recompute_base};
use crate::engine::{Engine, edit_step, start_step, rollback_step, delta_spec, set_base};

verus! {

/// `b` follows `a` by one base edit.
pub open spec fn edited(a: Engine, b: Engine) -> bool {
    exists|r: int, t: Seq<Val>, ins: bool| #[trigger] edit_step(a, b, r, t, ins)
}

/// A run of states, each one base edit after the previous.
pub open spec fn edit_run(s: Seq<Engine>) -> bool {
    forall|i: int| 0 <= i < s.len() - 1 ==> #[trigger] edited(s[i], s[i + 1])
}

proof fn lemma_run_keeps(s: Seq<Engine>, i: int)
    requires
        edit_run(s),
        0 <= i < s.len(),
    ensures
        s[i].realized == s[0].realized,
        s[i].graph == s[0].graph,
        s[i].open == s[0].open,
    decreases i,
{
    if i > 0 {
        lemma_run_keeps(s, i - 1);
        let j = i - 1;
        assert(edited(s[j], s[j + 1]));
        assert(s[j + 1] == s[i]);
        let (r, t, ins) = choose|r: int, t: Seq<Val>, ins: bool| #[trigger] edit_step(s[j], s[j + 1], r, t, ins);
    }
}

/// Every state the engine reaches holds, in each derived relation, exactly
/// what a from-scratch recomputation over its base relations gives.
pub proof fn lemma_incremental_matches_recompute(e: Engine)
    requires
        e.wf(),
    ensures
        e.db() == recompute(e.defs(), e.db().take(e.nb())),
{
    lemma_consistent_is_recompute(e.nb(), e.defs(), e.db());
}

/// The delta pending at the end of a transaction is the difference, on the
/// synchronized relations, between the content when the transaction started
/// and the content now; it is what `commit` returns.
pub proof fn lemma_transaction_net_effect(e0: Engine, run: Seq<Engine>)
    requires
        run.len() >= 1,
        start_step(e0, run[0]),
        edit_run(run),
    ensures
        run.last().open,
        run.last().rz() == e0.db(),
        delta_spec(run.last().graph.synced@, run.last().db(), run.last().rz())
            == delta_spec(e0.graph.synced@, run.last().db(), e0.db()),
{
    lemma_run_keeps(run, run.len() - 1);
}

/// Inserting an absent base tuple and deleting it again leaves every
/// relation as it was, so the pair contributes nothing to the delta.
pub proof fn lemma_insert_delete_cancels(a: Engine, b: Engine, c: Engine, r: int, t: Seq<Val>)
    requires
        a.wf(),
        !a.db()[r].contains(t),
        edit_step(a, b, r, t, true),
        edit_step(b, c, r, t, false),
    ensures
        c.db() == a.db(),
        c.realized == a.realized,
        delta_spec(c.graph.synced@, c.db(), c.rz()) == delta_spec(a.graph.synced@, a.db(), a.rz()),
{
    let nb = a.nb();
    let sb = set_base(a.db(), r, t, true);
    lemma_recompute_base(a.defs(), sb.take(nb));
    let sc = set_base(b.db(), r, t, false);
    assert(a.db()[r].insert(t).remove(t) =~= a.db()[r]);
    assert(sc.take(nb) =~= a.db().take(nb)) by {
        assert forall|i: int| 0 <= i < nb implies sc.take(nb)[i] == a.db().take(nb)[i] by {
            assert(b.db()[i] == sb.take(nb)[i]);
        }
    }
    lemma_consistent_is_recompute(nb, a.defs(), a.db());
}

/// `start`, any base edits, then `rollback` leaves every relation as it was
/// before `start`.
pub proof fn lemma_rollback_restores(e0: Engine, run: Seq<Engine>, e1: Engine)
    requires
        run.len() >= 1,
        start_step(e0, run[0]),
        edit_run(run),
        rollback_step(run.last(), e1),
    ensures
        e1.db() == e0.db(),
{
    lemma_run_keeps(run, run.len() - 1);
}

/// Re-inserting a present base tuple changes no relation and no pending
/// delta.
pub proof fn lemma_noop_insert(a: Engine, b: Engine, r: int, t: Seq<Val>)
    requires
        a.wf(),
        a.db()[r].contains(t),
        edit_step(a, b, r, t, true),
    ensures
        b.db() == a.db(),
        b.realized == a.realized,
        delta_spec(b.graph.synced@, b.db(), b.rz()) == delta_spec(a.graph.synced@, a.db(), a.rz()),
{
    assert(a.db()[r].insert(t) =~= a.db()[r]);
    assert(set_base(a.db(), r, t, true) =~= a.db());
    lemma_consistent_is_recompute(a.nb(), a.defs(), a.db());
}

/// Re-deleting an absent base tuple changes no relation and no pending
/// delta.
pub proof fn lemma_noop_delete(a: Engine, b: Engine, r: int, t: Seq<Val>)
    requires
        a.wf(),
        !a.db()[r].contains(t),
        edit_step(a, b, r, t, false),
    ensures
        b.db() == a.db(),
        b.realized == a.realized,
        delta_spec(b.graph.synced@, b.db(), b.rz()) == delta_spec(a.graph.synced@, a.db(), a.rz()),
{
    assert(a.db()[r].remove(t) =~= a.db()[r]);
    assert(set_base(a.db(), r, t, false) =~= a.db());
    lemma_consistent_is_recompute(a.nb(), a.defs(), a.db());
}

/// Removing the only right tuple that matches `x` makes `x` appear in the
/// antijoin.
pub proof fn lemma_antijoin_reappears(
    l: Set<Seq<Val>>,
    rs: Set<Seq<Val>>,
    ks: Seq<(usize, usize)>,
    x: Seq<Val>,
    b: Seq<Val>,
)
    requires
        l.contains(x),
        rs.contains(b),
        keys_match(x, b, ks),
        forall|b2: Seq<Val>| rs.contains(b2) && keys_match(x, b2, ks) ==> b2 == b,
    ensures
        !antijoin_set(l, rs, ks).contains(x),
        antijoin_set(l, rs.remove(b), ks).contains(x),
{
}

/// Adding a right tuple that matches `x` makes `x` leave the antijoin.
pub proof fn lemma_antijoin_disappears(
    l: Set<Seq<Val>>,
    rs: Set<Seq<Val>>,
    ks: Seq<(usize, usize)>,
    x: Seq<Val>,
    b: Seq<Val>,
)
    requires
        keys_match(x, b, ks),
    ensures
        !antijoin_set(l, rs.insert(b), ks).contains(x),
{
    assert(rs.insert(b).contains(b));
}

} // verus!
