//! The fact store with its incremental evaluator, delta tracker and
//! transaction state.
use vstd::prelude::*;
use crate::value::{Tuple, Val, tv, rows, copy_tuple};
use crate::store::TupleSet;
use crate::plan::{Db, db_view, reads, lemma_rows_push};
use crate::graph::{Variable, RuleGraph, def_eval, recompute, consistent, rules_below,
    lemma_consistent_is_recompute, lemma_fix_agree, lemma_def_empty};
use crate::delta::Accum;

verus! {

/// A transaction-state error.
#[derive(Debug, Clone, Copy, PartialEq, Eq)]
pub enum TxnError {
    /// `start` while a transaction is open.
    AlreadyInTransaction,
    /// `commit` or `rollback` while no transaction is open.
    NoTransaction,
}

/// One emitted change: `sign` is +1 for a tuple now present that was not
/// realized, -1 for a realized tuple now absent.
#[derive(Debug, Clone, PartialEq, Eq, Hash)]
pub struct Change {
    pub rel: usize,
    pub tuple: Tuple,
    pub sign: i8,
}

/// The database with one base tuple inserted or removed.
pub open spec fn set_base(db: Db, r: int, t: Seq<Val>, insert: bool) -> Db {
    db.update(r, if insert { db[r].insert(t) } else { db[r].remove(t) })
}

/// The database after one base edit: its new base part, recomputed from
/// scratch.
pub open spec fn after_edit(n_base: int, defs: Seq<Variable>, db: Db, r: int, t: Seq<Val>, insert: bool) -> Db {
    recompute(defs, set_base(db, r, t, insert).take(n_base))
}

/// The signed difference between a database and a realized snapshot, on the
/// synchronized relations: (relation, tuple, sign).
pub open spec fn delta_spec(synced: Seq<bool>, db: Db, realized: Db) -> Set<(int, Seq<Val>, int)> {
    Set::new(|e: (int, Seq<Val>, int)|
        0 <= e.0 < db.len() && synced[e.0] && (
            (e.2 == 1 && db[e.0].contains(e.1) && !realized[e.0].contains(e.1))
            || (e.2 == -1 && realized[e.0].contains(e.1) && !db[e.0].contains(e.1))))
}

/// The record of one change: relation, tuple, sign.
pub open spec fn record(c: Change) -> (int, Seq<Val>, int) {
    (c.rel as int, tv(c.tuple), c.sign as int)
}

/// No record appears twice in a list of changes.
pub open spec fn distinct_records(ch: Seq<Change>) -> bool {
    forall|i: int, j: int| 0 <= i < ch.len() && 0 <= j < ch.len() && i != j ==> record(#[trigger] ch[i]) != record(#[trigger] ch[j])
}

/// The records of a list of changes.
pub open spec fn change_set(ch: Seq<Change>) -> Set<(int, Seq<Val>, int)> {
    Set::new(|e: (int, Seq<Val>, int)|
        exists|i: int| 0 <= i < ch.len() && e == (#[trigger] ch[i].rel as int, tv(ch[i].tuple), ch[i].sign as int))
}

/// `b` is `a` after one base edit of tuple `t` in relation `r`.
pub open spec fn edit_step(a: Engine, b: Engine, r: int, t: Seq<Val>, insert: bool) -> bool {
    &&& 0 <= r < a.nb()
    &&& b.wf()
    &&& b.db() == after_edit(a.nb(), a.defs(), a.db(), r, t, insert)
    &&& b.graph == a.graph
    &&& b.realized == a.realized
    &&& b.open == a.open
}

/// `b` is `a` after a successful `start`.
pub open spec fn start_step(a: Engine, b: Engine) -> bool {
    &&& b.wf()
    &&& b.open
    &&& b.rz() == a.db()
    &&& b.db() == a.db()
    &&& b.graph == a.graph
}

/// `b` is `a` after a successful `commit`.
pub open spec fn commit_step(a: Engine, b: Engine) -> bool {
    &&& b.wf()
    &&& !b.open
    &&& b.rz() == a.db()
    &&& b.db() == a.db()
    &&& b.graph == a.graph
}

/// `b` is `a` after a successful `rollback`.
pub open spec fn rollback_step(a: Engine, b: Engine) -> bool {
    &&& b.wf()
    &&& !b.open
    &&& b.db() == a.rz()
    &&& b.realized == a.realized
    &&& b.graph == a.graph
}

/// The evaluation context: every relation's content, one accumulator per
/// relation, the realized snapshot of every relation, and whether a
/// transaction is open.
pub struct Engine {
    pub graph: RuleGraph,
    pub store: Vec<TupleSet>,
    pub acc: Vec<Accum>,
    pub realized: Vec<TupleSet>,
    pub open: bool,
}

impl Engine {
    pub open spec fn nb(&self) -> int {
        self.graph.n_base as int
    }

    pub open spec fn defs(&self) -> Seq<Variable> {
        self.graph.defs@
    }

    /// The content of every relation.
    pub open spec fn db(&self) -> Db {
        db_view(self.store@)
    }

    /// The realized snapshot of every relation.
    pub open spec fn rz(&self) -> Db {
        db_view(self.realized@)
    }

    pub open spec fn n_rels(&self) -> int {
        self.graph.n_rels()
    }

    /// The accumulator of relation `i` holds the difference between its
    /// content and its realized snapshot.
    pub open spec fn acc_ok(&self, i: int) -> bool {
        &&& self.acc@[i].wf()
        &&& self.acc@[i].plus.view() == self.db()[i].difference(self.rz()[i])
        &&& self.acc@[i].minus.view() == self.rz()[i].difference(self.db()[i])
    }

    pub open spec fn shape_ok(&self) -> bool {
        &&& self.graph.wf()
        &&& self.store@.len() == self.n_rels()
        &&& self.acc@.len() == self.n_rels()
        &&& self.realized@.len() == self.n_rels()
        &&& forall|i: int| 0 <= i < self.n_rels() ==> (#[trigger] self.store@[i]).wf()
        &&& forall|i: int| 0 <= i < self.n_rels() ==> (#[trigger] self.realized@[i]).wf()
        &&& consistent(self.nb(), self.defs(), self.rz())
    }

    pub open spec fn struct_ok(&self) -> bool {
        &&& self.shape_ok()
        &&& forall|i: int| 0 <= i < self.n_rels() ==> #[trigger] self.acc_ok(i)
    }

    /// The engine's invariant: every derived relation agrees with its rules.
    pub open spec fn wf(&self) -> bool {
        &&& self.struct_ok()
        &&& consistent(self.nb(), self.defs(), self.db())
    }

    /// Applies one tuple change to relation `n` and records it in the
    /// relation's accumulator.
    fn change(&mut self, n: usize, t: Tuple, insert: bool) -> (changed: bool)
        requires
            old(self).struct_ok(),
            n < old(self).n_rels(),
        ensures
            final(self).struct_ok(),
            final(self).db() == set_base(old(self).db(), n as int, tv(t), insert),
            changed == (if insert { !old(self).db()[n as int].contains(tv(t)) } else { old(self).db()[n as int].contains(tv(t)) }),
            final(self).graph == old(self).graph,
            final(self).realized == old(self).realized,
            final(self).open == old(self).open,
    {
        let ghost x = tv(t);
        let ghost d = self.db()[n as int];
        let ghost rz = self.rz()[n as int];
        assert(old(self).acc_ok(n as int));
        assert(self.store@[n as int].wf());
        let changed = if insert {
            self.store[n].insert(copy_tuple(&t))
        } else {
            self.store[n].remove(&t)
        };
        assert(self.db() =~= set_base(old(self).db(), n as int, x, insert));
        if changed {
            self.acc[n].bump(t, insert);
        }
        proof {
            assert forall|i: int| 0 <= i < self.n_rels() implies #[trigger] self.acc_ok(i) by {
                if i == n {
                    let p = self.acc@[i].plus.view();
                    let m = self.acc@[i].minus.view();
                    assert(p =~= self.db()[i].difference(rz));
                    assert(m =~= rz.difference(self.db()[i]));
                } else {
                    assert(old(self).acc_ok(i));
                }
            }
            assert forall|i: int| 0 <= i < self.n_rels() implies (#[trigger] self.store@[i]).wf() by {
                if i != n {
                    assert(old(self).store@[i] == self.store@[i]);
                }
            }
        }
        changed
    }

    /// Makes relation `n` hold exactly the tuples of `target`, recording each
    /// change; returns whether anything changed.
    fn sync_rel(&mut self, n: usize, target: Vec<Tuple>) -> (changed: bool)
        requires
            old(self).struct_ok(),
            n < old(self).n_rels(),
        ensures
            final(self).struct_ok(),
            final(self).db() == old(self).db().update(n as int, rows(target@)),
            !changed ==> final(self).db() == old(self).db(),
            final(self).graph == old(self).graph,
            final(self).realized == old(self).realized,
            final(self).open == old(self).open,
    {
        let current = self.store[n].enumerate();
        let ghost d0 = self.db()[n as int];
        let ghost goal = rows(target@);
        let ghost db0 = self.db();
        let mut changed = false;
        let mut i: usize = 0;
        assert(current@.take(0) =~= Seq::<Tuple>::empty());
        assert(rows(current@.take(0)) =~= Set::<Seq<Val>>::empty());
        assert(d0.difference(rows(current@.take(0)).difference(goal)) =~= d0);
        assert(db0.update(n as int, d0.difference(rows(current@.take(0)).difference(goal))) =~= db0);
        while i < current.len()
            invariant
                self.struct_ok(),
                n < self.n_rels(),
                i <= current@.len(),
                rows(current@) == d0,
                goal == rows(target@),
                db0 == old(self).db(),
                db0.len() == self.n_rels(),
                d0 == db0[n as int],
                self.db() == db0.update(n as int, d0.difference(rows(current@.take(i as int)).difference(goal))),
                !changed ==> self.db() == db0,
                self.graph == old(self).graph,
                self.realized == old(self).realized,
                self.open == old(self).open,
            decreases current@.len() - i,
        {
            let ghost a = rows(current@.take(i as int));
            let ghost ti = tv(current@[i as int]);
            assert(current@.take(i + 1) =~= current@.take(i as int).push(current@[i as int]));
            proof { lemma_rows_push(current@.take(i as int), current@[i as int]); }
            if !contains_row(&target, &current[i]) {
                assert(!goal.contains(ti));
                let c = self.change(n, copy_tuple(&current[i]), false);
                assert(d0.difference(a.insert(ti).difference(goal)) =~= d0.difference(a.difference(goal)).remove(ti));
                if c {
                    changed = true;
                } else {
                    assert(self.db() =~= db0.update(n as int, d0.difference(rows(current@.take(i + 1)).difference(goal))));
                }
            } else {
                assert(d0.difference(a.insert(ti).difference(goal)) =~= d0.difference(a.difference(goal)));
            }
            assert(self.db() =~= db0.update(n as int, d0.difference(rows(current@.take(i + 1)).difference(goal))));
            i += 1;
        }
        assert(current@.take(current@.len() as int) =~= current@);
        let ghost mid = d0.intersect(goal);
        assert(d0.difference(d0.difference(goal)) =~= mid);
        let mut j: usize = 0;
        assert(target@.take(0) =~= Seq::<Tuple>::empty());
        assert(rows(target@.take(0)) =~= Set::<Seq<Val>>::empty());
        assert(mid.union(rows(target@.take(0))) =~= mid);
        while j < target.len()
            invariant
                self.struct_ok(),
                n < self.n_rels(),
                j <= target@.len(),
                goal == rows(target@),
                db0 == old(self).db(),
                db0.len() == self.n_rels(),
                mid == db0[n as int].intersect(goal),
                self.db() == db0.update(n as int, mid.union(rows(target@.take(j as int)))),
                !changed ==> self.db() == db0,
                self.graph == old(self).graph,
                self.realized == old(self).realized,
                self.open == old(self).open,
            decreases target@.len() - j,
        {
            let ghost a = rows(target@.take(j as int));
            assert(target@.take(j + 1) =~= target@.take(j as int).push(target@[j as int]));
            proof { lemma_rows_push(target@.take(j as int), target@[j as int]); }
            let ghost before = self.db();
            let c = self.change(n, copy_tuple(&target[j]), true);
            if c {
                changed = true;
            } else {
                assert(before[n as int].insert(tv(target@[j as int])) =~= before[n as int]);
                assert(self.db() =~= before);
            }
            assert(mid.union(a).insert(tv(target@[j as int])) =~= mid.union(a.insert(tv(target@[j as int]))));
            assert(self.db() =~= db0.update(n as int, mid.union(rows(target@.take(j + 1)))));
            j += 1;
        }
        assert(target@.take(target@.len() as int) =~= target@);
        assert(mid.union(goal) =~= goal);
        changed
    }
}

impl Engine {
    /// Brings every derived relation up to date after base relation `src`
    /// changed from `old_db`. A derived relation is re-evaluated only when
    /// one of the relations its rules read has changed in this batch; its
    /// content is then replaced by the new result, change by change.
    fn propagate(&mut self, src: usize, Ghost(old_db): Ghost<Db>)
        requires
            old(self).struct_ok(),
            src < old(self).nb(),
            consistent(old(self).nb(), old(self).defs(), old_db),
            forall|i: int| 0 <= i < old(self).n_rels() && i != src ==> old(self).db()[i] == old_db[i],
        ensures
            final(self).wf(),
            final(self).db().take(final(self).nb()) == old(self).db().take(old(self).nb()),
            final(self).graph == old(self).graph,
            final(self).realized == old(self).realized,
            final(self).open == old(self).open,
    {
        let nb = self.graph.n_base;
        let nd = self.graph.defs.len();
        let total = self.store.len();
        let mut dirty: Vec<bool> = Vec::new();
        let mut i: usize = 0;
        while i < total
            invariant
                total == nb + nd,
                nb == self.graph.n_base,
                nd == self.graph.defs@.len(),
                nb + nd == self.n_rels(),
                self.graph.wf(),
                i <= total,
                dirty@.len() == i,
                forall|j: int| 0 <= j < i ==> dirty@[j] == (j == src),
            decreases total - i,
        {
            dirty.push(i == src);
            i += 1;
        }
        let ghost defs = self.defs();
        let ghost base0 = self.db().take(nb as int);
        let mut k: usize = 0;
        while k < nd
            invariant
                self.struct_ok(),
                self.graph == old(self).graph,
                self.realized == old(self).realized,
                self.open == old(self).open,
                total == nb + nd,
                nb == self.graph.n_base,
                nd == self.graph.defs@.len(),
                defs == self.defs(),
                src < nb,
                k <= nd,
                dirty@.len() == self.n_rels(),
                old_db.len() == self.n_rels(),
                consistent(nb as int, defs, old_db),
                base0 == old(self).db().take(nb as int),
                self.db().take(nb as int) == base0,
                forall|j: int| 0 <= j < k ==> self.db()[nb + j] == def_eval(#[trigger] defs[j], self.db(), nb + j),
                forall|j: int| k <= j < nd ==> self.db()[nb + j] == #[trigger] old_db[nb + j],
                forall|id: int| 0 <= id < self.n_rels() && !dirty@[id] ==> self.db()[id] == old_db[id],
            decreases nd - k,
        {
            let ghost before = self.db();
            let n = nb + k;
            assert(rules_below(defs[k as int].rules@, n + 1));
            if self.graph.defs[k].reads_marked(&dirty) {
                let target = self.graph.defs[k].eval_at(&self.store, n);
                let changed = self.sync_rel(n, target);
                if changed {
                    dirty[n] = true;
                }
                proof {
                    assert forall|j: int| 0 <= j <= k implies self.db()[nb + j] == def_eval(#[trigger] defs[j], self.db(), nb + j) by {
                        assert(self.db().take(nb + j) =~= before.take(nb + j));
                    }
                    assert(self.db().take(nb as int) =~= before.take(nb as int));
                }
            } else {
                proof {
                    let rs = defs[k as int].rules@;
                    let b1 = self.db().take(n as int);
                    let b2 = old_db.take(n as int);
                    assert forall|r: int, id: int| 0 <= r < rs.len() && #[trigger] reads(rs[r], id) && id < b1.len()
                        implies b1[id] == b2[id] by {
                        assert(crate::plan::reads_below(rs[r], n + 1));
                    }
                    lemma_fix_agree(rs, b1, b2, defs[k as int].rounds as nat, Set::empty());
                }
            }
            k += 1;
        }
        proof {
            assert(self.db().take(nb as int) == old(self).db().take(nb as int));
        }
    }
}

/// Appending a change adds its record to the list's records.
proof fn lemma_change_set_push(ch: Seq<Change>, c: Change)
    ensures
        change_set(ch.push(c)) == change_set(ch).insert((c.rel as int, tv(c.tuple), c.sign as int)),
{
    let ch2 = ch.push(c);
    let e0 = (c.rel as int, tv(c.tuple), c.sign as int);
    assert forall|e: (int, Seq<Val>, int)| change_set(ch2).contains(e) implies change_set(ch).insert(e0).contains(e) by {
        let i = choose|i: int| 0 <= i < ch2.len() && e == (#[trigger] ch2[i].rel as int, tv(ch2[i].tuple), ch2[i].sign as int);
        if i < ch.len() {
            assert(ch2[i] == ch[i]);
        }
    }
    assert forall|e: (int, Seq<Val>, int)| change_set(ch).insert(e0).contains(e) implies change_set(ch2).contains(e) by {
        if e == e0 {
            assert(ch2[ch.len() as int] == c);
        } else {
            let i = choose|i: int| 0 <= i < ch.len() && e == (#[trigger] ch[i].rel as int, tv(ch[i].tuple), ch[i].sign as int);
            assert(ch2[i] == ch[i]);
        }
    }
    assert(change_set(ch2) =~= change_set(ch).insert(e0));
}

/// The delta records of the relations below `n`.
pub open spec fn delta_below(synced: Seq<bool>, db: Db, realized: Db, n: int) -> Set<(int, Seq<Val>, int)> {
    Set::new(|e: (int, Seq<Val>, int)| e.0 < n && delta_spec(synced, db, realized).contains(e))
}

/// Records of relation `n` with sign `sign` for each tuple of `s`.
pub open spec fn signed(n: int, s: Set<Seq<Val>>, sign: int) -> Set<(int, Seq<Val>, int)> {
    Set::new(|e: (int, Seq<Val>, int)| e.0 == n && e.2 == sign && s.contains(e.1))
}

/// Appends one record of relation `n` with sign `sign` per tuple of `src`.
fn emit(out: &mut Vec<Change>, n: usize, src: &Vec<Tuple>, sign: i8)
    requires
        distinct_records(old(out)@),
        forall|a: int, b: int| 0 <= a < src@.len() && 0 <= b < src@.len() && a != b ==> tv(#[trigger] src@[a]) != tv(#[trigger] src@[b]),
        forall|k: int| 0 <= k < old(out)@.len() ==> !((#[trigger] old(out)@[k]).rel == n && old(out)@[k].sign == sign),
    ensures
        change_set(final(out)@) == change_set(old(out)@).union(signed(n as int, rows(src@), sign as int)),
        distinct_records(final(out)@),
        final(out)@.len() >= old(out)@.len(),
        forall|k: int| 0 <= k < old(out)@.len() ==> #[trigger] final(out)@[k] == old(out)@[k],
        forall|k: int| old(out)@.len() <= k < final(out)@.len() ==> (#[trigger] final(out)@[k]).rel == n && final(out)@[k].sign == sign,
{
    let ghost base = change_set(out@);
    let ghost first = out@;
    let mut j: usize = 0;
    assert(src@.take(0) =~= Seq::<Tuple>::empty());
    assert(change_set(out@) =~= base.union(signed(n as int, rows(src@.take(0)), sign as int)));
    while j < src.len()
        invariant
            j <= src@.len(),
            change_set(out@) == base.union(signed(n as int, rows(src@.take(j as int)), sign as int)),
            out@.len() == first.len() + j,
            distinct_records(first),
            forall|a: int, b: int| 0 <= a < src@.len() && 0 <= b < src@.len() && a != b ==> tv(#[trigger] src@[a]) != tv(#[trigger] src@[b]),
            forall|k: int| 0 <= k < first.len() ==> !((#[trigger] first[k]).rel == n && first[k].sign == sign),
            forall|k: int| 0 <= k < first.len() ==> #[trigger] out@[k] == first[k],
            forall|k: int| 0 <= k < j ==> record(#[trigger] out@[first.len() + k]) == (n as int, tv(src@[k]), sign as int),
            distinct_records(out@),
        decreases src@.len() - j,
    {
        assert(src@.take(j + 1) =~= src@.take(j as int).push(src@[j as int]));
        proof { lemma_rows_push(src@.take(j as int), src@[j as int]); }
        let c = Change { rel: n, tuple: copy_tuple(&src[j]), sign };
        proof { lemma_change_set_push(out@, c); }
        let ghost prev = out@;
        out.push(c);
        assert(out@[first.len() + j] == c);
        assert forall|k: int| 0 <= k < j + 1 implies record(#[trigger] out@[first.len() + k]) == (n as int, tv(src@[k]), sign as int) by {
            if k < j {
                assert(out@[first.len() + k] == prev[first.len() + k]);
            }
        }
        assert forall|a: int, b: int| 0 <= a < out@.len() && 0 <= b < out@.len() && a != b
            implies record(#[trigger] out@[a]) != record(#[trigger] out@[b]) by {
            if a < prev.len() && b < prev.len() {
                assert(out@[a] == prev[a] && out@[b] == prev[b]);
            } else if a == prev.len() && b < first.len() {
                assert(out@[b] == first[b]);
            } else if b == prev.len() && a < first.len() {
                assert(out@[a] == first[a]);
            } else if a == prev.len() {
                let kb = b - first.len();
                assert(record(out@[first.len() + kb]) == (n as int, tv(src@[kb]), sign as int));
            } else if b == prev.len() {
                let ka = a - first.len();
                assert(record(out@[first.len() + ka]) == (n as int, tv(src@[ka]), sign as int));
            }
        }
        assert(change_set(out@) =~= base.union(signed(n as int, rows(src@.take(j + 1)), sign as int)));
        j += 1;
    }
    assert(src@.take(src@.len() as int) =~= src@);
    assert forall|k: int| first.len() <= k < out@.len() implies (#[trigger] out@[k]).rel == n && out@[k].sign == sign by {
        let kk = k - first.len();
        assert(record(out@[first.len() + kk]) == (n as int, tv(src@[kk]), sign as int));
    }
}

impl Engine {
    /// An engine whose relations are all empty, with no open transaction.
    pub fn new(graph: RuleGraph) -> (r: Engine)
        requires
            graph.wf(),
        ensures
            r.wf(),
            r.graph == graph,
            !r.open,
            r.rz() == r.db(),
            forall|i: int| 0 <= i < r.n_rels() ==> #[trigger] r.db()[i] == Set::<Seq<Val>>::empty(),
    {
        let total = graph.synced.len();
        let mut store: Vec<TupleSet> = Vec::new();
        let mut realized: Vec<TupleSet> = Vec::new();
        let mut acc: Vec<Accum> = Vec::new();
        let mut i: usize = 0;
        while i < total
            invariant
                i <= total,
                store@.len() == i,
                realized@.len() == i,
                acc@.len() == i,
                forall|j: int| 0 <= j < i ==> (#[trigger] store@[j]).wf() && store@[j].view() == Set::<Seq<Val>>::empty(),
                forall|j: int| 0 <= j < i ==> (#[trigger] realized@[j]).wf() && realized@[j].view() == Set::<Seq<Val>>::empty(),
                forall|j: int| 0 <= j < i ==> (#[trigger] acc@[j]).wf() && acc@[j].plus.view() == Set::<Seq<Val>>::empty()
                    && acc@[j].minus.view() == Set::<Seq<Val>>::empty(),
            decreases total - i,
        {
            store.push(TupleSet::new());
            realized.push(TupleSet::new());
            acc.push(Accum::new());
            i += 1;
        }
        let r = Engine { graph, store, acc, realized, open: false };
        proof {
            assert(r.rz() =~= r.db());
            assert forall|k: int| 0 <= k < r.defs().len() implies r.db()[r.nb() + k] == def_eval(#[trigger] r.defs()[k], r.db(), r.nb() + k) by {
                lemma_def_empty(r.defs()[k], r.db(), r.nb() + k);
            }
            assert forall|i: int| 0 <= i < r.n_rels() implies #[trigger] r.acc_ok(i) by {
                assert(r.db()[i].difference(r.rz()[i]) =~= Set::<Seq<Val>>::empty());
            }
        }
        r
    }

    /// One base edit, propagated through every derived relation.
    fn edit(&mut self, r: usize, t: Tuple, insert: bool) -> (changed: bool)
        requires
            old(self).wf(),
            r < old(self).nb(),
        ensures
            final(self).wf(),
            final(self).db() == after_edit(old(self).nb(), old(self).defs(), old(self).db(), r as int, tv(t), insert),
            forall|i: int| 0 <= i < old(self).nb() ==> #[trigger] final(self).db()[i]
                == set_base(old(self).db(), r as int, tv(t), insert)[i],
            changed == (if insert { !old(self).db()[r as int].contains(tv(t)) } else { old(self).db()[r as int].contains(tv(t)) }),
            final(self).graph == old(self).graph,
            final(self).realized == old(self).realized,
            final(self).open == old(self).open,
    {
        let ghost old_db = self.db();
        let ghost x = tv(t);
        let ghost nb = self.nb();
        let changed = self.change(r, t, insert);
        if changed {
            self.propagate(r, Ghost(old_db));
        } else {
            if insert {
                assert(old_db[r as int].insert(x) =~= old_db[r as int]);
            } else {
                assert(old_db[r as int].remove(x) =~= old_db[r as int]);
            }
            assert(set_base(old_db, r as int, x, insert) =~= old_db);
        }
        proof {
            lemma_consistent_is_recompute(nb, self.defs(), self.db());
            let sb = set_base(old_db, r as int, x, insert);
            assert(self.db().take(nb) =~= sb.take(nb));
            assert forall|i: int| 0 <= i < nb implies #[trigger] self.db()[i] == sb[i] by {
                assert(self.db().take(nb)[i] == sb.take(nb)[i]);
            }
        }
        changed
    }

    /// Inserts a tuple into base relation `r`; returns whether it was absent.
    /// Re-inserting a present tuple changes nothing and does no evaluation.
    pub fn insert(&mut self, r: usize, t: Tuple) -> (changed: bool)
        requires
            old(self).wf(),
            r < old(self).nb(),
        ensures
            edit_step(*old(self), *final(self), r as int, tv(t), true),
            changed == !old(self).db()[r as int].contains(tv(t)),
    {
        self.edit(r, t, true)
    }

    /// Deletes a tuple from base relation `r`; returns whether it was
    /// present. Deleting an absent tuple changes nothing and does no
    /// evaluation.
    pub fn delete(&mut self, r: usize, t: Tuple) -> (changed: bool)
        requires
            old(self).wf(),
            r < old(self).nb(),
        ensures
            edit_step(*old(self), *final(self), r as int, tv(t), false),
            changed == old(self).db()[r as int].contains(tv(t)),
    {
        self.edit(r, t, false)
    }

    /// Whether relation `r` holds any tuple.
    pub fn contains(&self, r: usize) -> (b: bool)
        requires
            self.wf(),
            r < self.n_rels(),
        ensures
            b == (self.db()[r as int] != Set::<Seq<Val>>::empty()),
    {
        !self.store[r].is_empty()
    }

    /// A snapshot of relation `r`.
    pub fn enumerate(&self, r: usize) -> (v: Vec<Tuple>)
        requires
            self.wf(),
            r < self.n_rels(),
        ensures
            rows(v@) == self.db()[r as int],
    {
        self.store[r].enumerate()
    }

    /// A snapshot of the realized content of relation `r`.
    pub fn enumerate_realized(&self, r: usize) -> (v: Vec<Tuple>)
        requires
            self.wf(),
            r < self.n_rels(),
        ensures
            rows(v@) == self.rz()[r as int],
    {
        self.realized[r].enumerate()
    }

    /// Empties every accumulator; the realized snapshot must already equal
    /// the content.
    fn reset_acc(&mut self)
        requires
            old(self).shape_ok(),
            old(self).rz() == old(self).db(),
        ensures
            final(self).struct_ok(),
            final(self).store == old(self).store,
            final(self).graph == old(self).graph,
            final(self).realized == old(self).realized,
            final(self).open == old(self).open,
    {
        let total = self.acc.len();
        let mut i: usize = 0;
        while i < total
            invariant
                self.shape_ok(),
                self.rz() == self.db(),
                total == self.acc@.len(),
                i <= total,
                self.store == old(self).store,
                self.graph == old(self).graph,
                self.realized == old(self).realized,
                self.open == old(self).open,
                forall|j: int| 0 <= j < i ==> #[trigger] self.acc_ok(j),
            decreases total - i,
        {
            let ghost prev = *self;
            self.acc[i].clear();
            proof {
                assert(self.db()[i as int].difference(self.rz()[i as int]) =~= Set::<Seq<Val>>::empty());
                assert(self.rz()[i as int].difference(self.db()[i as int]) =~= Set::<Seq<Val>>::empty());
                assert forall|j: int| 0 <= j <= i implies #[trigger] self.acc_ok(j) by {
                    if j < i {
                        assert(prev.acc_ok(j));
                        assert(self.acc@[j] == prev.acc@[j]);
                    }
                }
            }
            i += 1;
        }
    }
}

impl Engine {
    /// Applies every accumulator to the realized snapshot (adding its +1
    /// tuples, removing its -1 tuples), which then equals the content, and
    /// empties the accumulators.
    fn settle(&mut self)
        requires
            old(self).wf(),
        ensures
            final(self).wf(),
            final(self).rz() == old(self).db(),
            final(self).store == old(self).store,
            final(self).graph == old(self).graph,
            final(self).open == old(self).open,
    {
        let total = self.acc.len();
        let mut i: usize = 0;
        while i < total
            invariant
                self.graph == old(self).graph,
                self.store == old(self).store,
                self.open == old(self).open,
                self.graph.wf(),
                consistent(self.nb(), self.defs(), self.db()),
                total == self.n_rels(),
                self.store@.len() == total,
                self.acc@.len() == total,
                self.realized@.len() == total,
                i <= total,
                forall|j: int| 0 <= j < total ==> (#[trigger] self.store@[j]).wf(),
                forall|j: int| 0 <= j < total ==> (#[trigger] self.realized@[j]).wf(),
                forall|j: int| 0 <= j < i ==> #[trigger] self.rz()[j] == self.db()[j]
                    && self.acc@[j].wf() && self.acc@[j].plus.view() == Set::<Seq<Val>>::empty()
                    && self.acc@[j].minus.view() == Set::<Seq<Val>>::empty(),
                forall|j: int| i <= j < total ==> #[trigger] self.acc_ok(j),
            decreases total - i,
        {
            assert(self.acc_ok(i as int));
            let ghost outer = *self;
            let ghost r0 = self.rz()[i as int];
            let ghost d = self.db()[i as int];
            let ps = self.acc[i].plus.enumerate();
            let mut j: usize = 0;
            assert(ps@.take(0) =~= Seq::<Tuple>::empty());
            assert(r0.union(rows(ps@.take(0))) =~= r0);
            while j < ps.len()
                invariant
                    i < total,
                    self.realized@.len() == total,
                    self.acc == outer.acc,
                    self.store == outer.store,
                    self.graph == outer.graph,
                    self.open == outer.open,
                    j <= ps@.len(),
                    rows(ps@) == d.difference(r0),
                    forall|k: int| 0 <= k < total ==> (#[trigger] self.realized@[k]).wf(),
                    forall|k: int| 0 <= k < total && k != i ==> #[trigger] self.realized@[k] == outer.realized@[k],
                    self.rz()[i as int] == r0.union(rows(ps@.take(j as int))),
                decreases ps@.len() - j,
            {
                assert(ps@.take(j + 1) =~= ps@.take(j as int).push(ps@[j as int]));
                proof { lemma_rows_push(ps@.take(j as int), ps@[j as int]); }
                let ghost prev = self.realized@;
                self.realized[i].insert(copy_tuple(&ps[j]));
                assert forall|k: int| 0 <= k < total implies (#[trigger] self.realized@[k]).wf() by {
                    if k != i {
                        assert(self.realized@[k] == prev[k]);
                    }
                }
                assert(self.rz()[i as int] =~= r0.union(rows(ps@.take(j + 1))));
                j += 1;
            }
            assert(ps@.take(ps@.len() as int) =~= ps@);
            let ghost r1 = r0.union(d.difference(r0));
            let ms = self.acc[i].minus.enumerate();
            let mut j: usize = 0;
            assert(ms@.take(0) =~= Seq::<Tuple>::empty());
            assert(r1.difference(rows(ms@.take(0))) =~= r1);
            while j < ms.len()
                invariant
                    i < total,
                    self.realized@.len() == total,
                    self.acc == outer.acc,
                    self.store == outer.store,
                    self.graph == outer.graph,
                    self.open == outer.open,
                    j <= ms@.len(),
                    rows(ms@) == r0.difference(d),
                    forall|k: int| 0 <= k < total ==> (#[trigger] self.realized@[k]).wf(),
                    forall|k: int| 0 <= k < total && k != i ==> #[trigger] self.realized@[k] == outer.realized@[k],
                    self.rz()[i as int] == r1.difference(rows(ms@.take(j as int))),
                decreases ms@.len() - j,
            {
                assert(ms@.take(j + 1) =~= ms@.take(j as int).push(ms@[j as int]));
                proof { lemma_rows_push(ms@.take(j as int), ms@[j as int]); }
                let ghost prev = self.realized@;
                self.realized[i].remove(&ms[j]);
                assert forall|k: int| 0 <= k < total implies (#[trigger] self.realized@[k]).wf() by {
                    if k != i {
                        assert(self.realized@[k] == prev[k]);
                    }
                }
                assert(self.rz()[i as int] =~= r1.difference(rows(ms@.take(j + 1))));
                j += 1;
            }
            assert(ms@.take(ms@.len() as int) =~= ms@);
            assert(self.rz()[i as int] =~= d);
            let ghost mid = *self;
            self.acc[i].clear();
            proof {
                assert forall|k: int| 0 <= k <= i implies #[trigger] self.rz()[k] == self.db()[k]
                    && self.acc@[k].wf() && self.acc@[k].plus.view() == Set::<Seq<Val>>::empty()
                    && self.acc@[k].minus.view() == Set::<Seq<Val>>::empty() by {
                    if k < i {
                        assert(outer.rz()[k] == outer.db()[k]);
                        assert(self.realized@[k] == outer.realized@[k]);
                        assert(self.acc@[k] == outer.acc@[k]);
                    }
                }
                assert forall|k: int| i < k < total implies #[trigger] self.acc_ok(k) by {
                    assert(outer.acc_ok(k));
                    assert(self.realized@[k] == outer.realized@[k]);
                    assert(self.acc@[k] == outer.acc@[k]);
                }
            }
            i += 1;
        }
        proof {
            assert(self.rz() =~= self.db());
            assert forall|k: int| 0 <= k < total implies #[trigger] self.acc_ok(k) by {
                assert(self.rz()[k] == self.db()[k]);
                assert(self.db()[k].difference(self.rz()[k]) =~= Set::<Seq<Val>>::empty());
                assert(self.rz()[k].difference(self.db()[k]) =~= Set::<Seq<Val>>::empty());
            }
        }
    }

    /// Opens a transaction: stale pending changes are applied to the
    /// realized snapshot, which then equals the current content, and every
    /// accumulator is emptied.
    pub fn start(&mut self) -> (r: Result<(), TxnError>)
        requires
            old(self).wf(),
        ensures
            final(self).wf(),
            old(self).open ==> r == Err::<(), TxnError>(TxnError::AlreadyInTransaction) && *final(self) == *old(self),
            !old(self).open ==> r == Ok::<(), TxnError>(()) && start_step(*old(self), *final(self)),
    {
        if self.open {
            return Err(TxnError::AlreadyInTransaction);
        }
        self.settle();
        let ghost prev = *self;
        self.open = true;
        assert forall|j: int| 0 <= j < self.n_rels() implies #[trigger] self.acc_ok(j) by {
            assert(prev.acc_ok(j));
        }
        Ok(())
    }

    /// Closes the transaction and returns its net delta on the synchronized
    /// relations: +1 for each tuple present now and not realized, -1 for each
    /// realized tuple absent now. The content becomes the realized snapshot.
    pub fn commit(&mut self) -> (r: Result<Vec<Change>, TxnError>)
        requires
            old(self).wf(),
        ensures
            final(self).wf(),
            !old(self).open ==> (r matches Err(TxnError::NoTransaction)) && *final(self) == *old(self),
            old(self).open ==> r is Ok && commit_step(*old(self), *final(self)),
            r matches Ok(ch) ==> change_set(ch@) == delta_spec(old(self).graph.synced@, old(self).db(), old(self).rz())
                && distinct_records(ch@),
    {
        if !self.open {
            return Err(TxnError::NoTransaction);
        }
        let ghost synced = self.graph.synced@;
        let ghost db = self.db();
        let ghost rz = self.rz();
        let total = self.store.len();
        let mut out: Vec<Change> = Vec::new();
        let mut i: usize = 0;
        assert(change_set(out@) =~= delta_below(synced, db, rz, 0));
        while i < total
            invariant
                self.wf(),
                *self == *old(self),
                synced == self.graph.synced@,
                db == self.db(),
                rz == self.rz(),
                total == self.n_rels(),
                i <= total,
                change_set(out@) == delta_below(synced, db, rz, i as int),
                distinct_records(out@),
                forall|k: int| 0 <= k < out@.len() ==> (#[trigger] out@[k]).rel < i,
            decreases total - i,
        {
            assert(self.acc_ok(i as int));
            if self.graph.synced[i] {
                let ps = self.acc[i].plus.enumerate();
                assert forall|a: int, b: int| 0 <= a < ps@.len() && 0 <= b < ps@.len() && a != b
                    implies tv(#[trigger] ps@[a]) != tv(#[trigger] ps@[b]) by {
                    assert(tv(ps@[a]) == tv(self.acc@[i as int].plus.items@[a]));
                    assert(tv(ps@[b]) == tv(self.acc@[i as int].plus.items@[b]));
                }
                let ghost o1 = out@;
                emit(&mut out, i, &ps, 1);
                let ms = self.acc[i].minus.enumerate();
                assert forall|a: int, b: int| 0 <= a < ms@.len() && 0 <= b < ms@.len() && a != b
                    implies tv(#[trigger] ms@[a]) != tv(#[trigger] ms@[b]) by {
                    assert(tv(ms@[a]) == tv(self.acc@[i as int].minus.items@[a]));
                    assert(tv(ms@[b]) == tv(self.acc@[i as int].minus.items@[b]));
                }
                assert forall|k: int| 0 <= k < out@.len() implies !((#[trigger] out@[k]).rel == i && out@[k].sign == -1) by {
                    if k < o1.len() {
                        assert(out@[k] == o1[k]);
                    }
                }
                let ghost o2 = out@;
                emit(&mut out, i, &ms, -1);
                assert forall|k: int| 0 <= k < out@.len() implies (#[trigger] out@[k]).rel < i + 1 by {
                    if k < o1.len() {
                        assert(out@[k] == o2[k]);
                        assert(o2[k] == o1[k]);
                    } else if k < o2.len() {
                        assert(out@[k] == o2[k]);
                    }
                }
                assert(change_set(out@) =~= delta_below(synced, db, rz, i + 1));
            } else {
                assert(change_set(out@) =~= delta_below(synced, db, rz, i + 1));
            }
            i += 1;
        }
        assert(delta_below(synced, db, rz, total as int) =~= delta_spec(synced, db, rz));
        self.settle();
        let ghost prev = *self;
        self.open = false;
        assert forall|j: int| 0 <= j < self.n_rels() implies #[trigger] self.acc_ok(j) by {
            assert(prev.acc_ok(j));
        }
        Ok(out)
    }

    /// Abandons the transaction: every pending base change is undone by the
    /// inverse edit (a +1 by a deletion, a -1 by a re-insertion), driven
    /// through the evaluator, so that every relation returns to the
    /// realized baseline.
    pub fn rollback(&mut self) -> (r: Result<(), TxnError>)
        requires
            old(self).wf(),
        ensures
            final(self).wf(),
            !old(self).open ==> r == Err::<(), TxnError>(TxnError::NoTransaction) && *final(self) == *old(self),
            old(self).open ==> r == Ok::<(), TxnError>(()) && rollback_step(*old(self), *final(self)),
    {
        if !self.open {
            return Err(TxnError::NoTransaction);
        }
        let nb = self.graph.n_base;
        let ghost rz = self.rz();
        let ghost db0 = self.db();
        let mut r: usize = 0;
        while r < nb
            invariant
                self.wf(),
                self.open,
                self.graph == old(self).graph,
                self.realized == old(self).realized,
                rz == self.rz(),
                db0 == old(self).db(),
                nb == self.nb(),
                r <= nb,
                forall|i: int| 0 <= i < r ==> #[trigger] self.db()[i] == rz[i],
                forall|i: int| r <= i < nb ==> #[trigger] self.db()[i] == db0[i],
                db0.len() == self.n_rels(),
            decreases nb - r,
        {
            assert(self.acc_ok(r as int));
            let ps = self.acc[r].plus.enumerate();
            let ghost d0 = self.db()[r as int];
            let ghost outer = self.db();
            let mut j: usize = 0;
            assert(ps@.take(0) =~= Seq::<Tuple>::empty());
            assert(d0.difference(rows(ps@.take(0))) =~= d0);
            while j < ps.len()
                invariant
                    self.wf(),
                    self.open,
                    self.graph == old(self).graph,
                    self.realized == old(self).realized,
                    rz == self.rz(),
                    nb == self.nb(),
                    r < nb,
                    j <= ps@.len(),
                    rows(ps@) == d0.difference(rz[r as int]),
                    self.db()[r as int] == d0.difference(rows(ps@.take(j as int))),
                    forall|i: int| 0 <= i < nb && i != r ==> #[trigger] self.db()[i] == outer[i],
                decreases ps@.len() - j,
            {
                assert(ps@.take(j + 1) =~= ps@.take(j as int).push(ps@[j as int]));
                proof { lemma_rows_push(ps@.take(j as int), ps@[j as int]); }
                let ghost before = self.db();
                self.edit(r, copy_tuple(&ps[j]), false);
                assert(self.db()[r as int] == set_base(before, r as int, tv(ps@[j as int]), false)[r as int]);
                assert(self.db()[r as int] =~= d0.difference(rows(ps@.take(j + 1))));
                assert forall|i: int| 0 <= i < nb && i != r implies #[trigger] self.db()[i] == outer[i] by {
                    assert(self.db()[i] == set_base(before, r as int, tv(ps@[j as int]), false)[i]);
                }
                j += 1;
            }
            assert(ps@.take(ps@.len() as int) =~= ps@);
            let ghost d1 = d0.intersect(rz[r as int]);
            assert(self.db()[r as int] =~= d1);
            assert(self.acc_ok(r as int));
            let ms = self.acc[r].minus.enumerate();
            let mut j: usize = 0;
            assert(ms@.take(0) =~= Seq::<Tuple>::empty());
            assert(d1.union(rows(ms@.take(0))) =~= d1);
            while j < ms.len()
                invariant
                    self.wf(),
                    self.open,
                    self.graph == old(self).graph,
                    self.realized == old(self).realized,
                    rz == self.rz(),
                    nb == self.nb(),
                    r < nb,
                    j <= ms@.len(),
                    rows(ms@) == rz[r as int].difference(d1),
                    self.db()[r as int] == d1.union(rows(ms@.take(j as int))),
                    forall|i: int| 0 <= i < nb && i != r ==> #[trigger] self.db()[i] == outer[i],
                decreases ms@.len() - j,
            {
                assert(ms@.take(j + 1) =~= ms@.take(j as int).push(ms@[j as int]));
                proof { lemma_rows_push(ms@.take(j as int), ms@[j as int]); }
                let ghost before = self.db();
                self.edit(r, copy_tuple(&ms[j]), true);
                assert(self.db()[r as int] == set_base(before, r as int, tv(ms@[j as int]), true)[r as int]);
                assert(self.db()[r as int] =~= d1.union(rows(ms@.take(j + 1))));
                assert forall|i: int| 0 <= i < nb && i != r implies #[trigger] self.db()[i] == outer[i] by {
                    assert(self.db()[i] == set_base(before, r as int, tv(ms@[j as int]), true)[i]);
                }
                j += 1;
            }
            assert(ms@.take(ms@.len() as int) =~= ms@);
            assert(self.db()[r as int] =~= rz[r as int]);
            r += 1;
        }
        proof {
            lemma_consistent_is_recompute(nb as int, self.defs(), self.db());
            lemma_consistent_is_recompute(nb as int, self.defs(), rz);
            assert(self.db().take(nb as int) =~= rz.take(nb as int));
        }
        self.open = false;
        self.reset_acc();
        Ok(())
    }
}

/// Whether some tuple of `v` equals `t`.
fn contains_row(v: &Vec<Tuple>, t: &Tuple) -> (r: bool)
    ensures
        r == rows(v@).contains(tv(*t)),
{
    let mut i: usize = 0;
    while i < v.len()
        invariant
            i <= v@.len(),
            forall|j: int| 0 <= j < i ==> tv(#[trigger] v@[j]) != tv(*t),
        decreases v@.len() - i,
    {
        if crate::value::tuple_eq(&v[i], t) {
            return true;
        }
        i += 1;
    }
    false
}

} // verus!
