//! Derived-relation definitions and the rule graph that orders them.
use vstd::prelude::*;
use crate::value::{Tuple, Val, rows};
use crate::store::TupleSet;
use crate::plan::{Plan, Db, db_view, eval, reads, rel_of, reads_below, reads_negated, lemma_eval_local,
    lemma_rows_push};

verus! {

/// The definition of a derived relation: the deduplicated union of the
/// outputs of its contributing rules. Rules may read the relation itself;
/// its content is then reached by iterating from empty until nothing
/// changes, for at most `rounds` rounds.
pub struct Variable {
    pub rules: Vec<Plan>,
    pub rounds: usize,
}

/// The content a list of rules defines on a database.
pub open spec fn var_eval(rules: Seq<Plan>, db: Db) -> Set<Seq<Val>> {
    Set::new(|x: Seq<Val>| exists|i: int| 0 <= i < rules.len() && eval(#[trigger] rules[i], db).contains(x))
}

/// Every rule reads only relations below `n`.
pub open spec fn rules_below(rules: Seq<Plan>, n: int) -> bool {
    forall|i: int| 0 <= i < rules.len() ==> reads_below(#[trigger] rules[i], n)
}

/// Databases that agree on every relation some rule reads give the same
/// content.
pub proof fn lemma_var_agree(rules: Seq<Plan>, d1: Db, d2: Db)
    requires
        forall|i: int, id: int| 0 <= i < rules.len() && #[trigger] reads(rules[i], id) ==> rel_of(d1, id) == rel_of(d2, id),
    ensures
        var_eval(rules, d1) == var_eval(rules, d2),
{
    assert forall|i: int| 0 <= i < rules.len() implies eval(#[trigger] rules[i], d1) == eval(rules[i], d2) by {
        lemma_eval_local(rules[i], d1, d2);
    }
    assert(var_eval(rules, d1) =~= var_eval(rules, d2));
}

impl Variable {
    /// Whether some rule reads a relation whose mark is set.
    pub fn reads_marked(&self, marks: &Vec<bool>) -> (r: bool)
        ensures
            r == exists|i: int, id: int| 0 <= i < self.rules@.len() && 0 <= id < marks@.len() && marks@[id]
                && #[trigger] reads(self.rules@[i], id),
    {
        let mut i: usize = 0;
        while i < self.rules.len()
            invariant
                i <= self.rules@.len(),
                forall|j: int, id: int| 0 <= j < i && 0 <= id < marks@.len() && marks@[id]
                    ==> !#[trigger] reads(self.rules@[j], id),
            decreases self.rules@.len() - i,
        {
            if self.rules[i].reads_marked(marks) {
                return true;
            }
            i += 1;
        }
        false
    }

    /// A definition with a single rule, iterated without bound.
    pub fn from(source: Plan) -> (r: Variable)
        ensures
            r.rules@ == seq![source],
            r.rounds == usize::MAX,
    {
        let mut rules: Vec<Plan> = Vec::new();
        rules.push(source);
        Variable { rules, rounds: usize::MAX }
    }

    /// Adds one more contributing rule.
    pub fn add(&mut self, source: Plan)
        ensures
            final(self).rules@ == old(self).rules@.push(source),
            final(self).rounds == old(self).rounds,
    {
        self.rules.push(source);
    }

    /// The content the definition gives relation `n` of `db`: the rules are
    /// evaluated once when they do not read the relation itself, and
    /// iterated from empty to a fixpoint, for at most `rounds` rounds, when
    /// they do.
    pub fn eval_at(&self, db: &Vec<TupleSet>, n: usize) -> (r: Vec<Tuple>)
        requires
            n < db@.len(),
            forall|i: int| 0 <= i < db@.len() ==> (#[trigger] db@[i]).wf(),
            rules_below(self.rules@, n + 1),
        ensures
            rows(r@) == def_eval(*self, db_view(db@), n as int),
    {
        let ghost below = db_view(db@).take(n as int);
        let ghost rules = self.rules@;
        let mut work: Vec<TupleSet> = Vec::new();
        let mut marks: Vec<bool> = Vec::new();
        let mut i: usize = 0;
        while i < n
            invariant
                i <= n < db@.len(),
                forall|j: int| 0 <= j < db@.len() ==> (#[trigger] db@[j]).wf(),
                below == db_view(db@).take(n as int),
                work@.len() == i,
                marks@.len() == i,
                forall|j: int| 0 <= j < i ==> !(#[trigger] marks@[j]),
                forall|j: int| 0 <= j < i ==> (#[trigger] work@[j]).wf() && work@[j].view() == below[j],
            decreases n - i,
        {
            work.push(db[i].copy());
            marks.push(false);
            i += 1;
        }
        work.push(TupleSet::new());
        marks.push(true);
        let ghost e = Set::<Seq<Val>>::empty();
        assert(db_view(work@) =~= below.push(e));
        let self_read = self.reads_marked(&marks);
        if !self_read && self.rounds >= 1 {
            assert(rules_below(rules, n as int)) by {
                assert forall|k: int| 0 <= k < rules.len() implies reads_below(#[trigger] rules[k], n as int) by {
                    assert(reads_below(rules[k], n + 1));
                    assert forall|id: int| reads(rules[k], id) implies 0 <= id < n by {
                        if id == n {
                            assert(marks@[id]);
                        }
                    }
                }
            }
            proof { lemma_fix_once(rules, below, self.rounds as nat); }
            return self.run(&work);
        }
        let ghost res = fix_iter(rules, below, self.rounds as nat, e);
        let mut fuel: usize = self.rounds;
        let mut done = false;
        while fuel > 0 && !done
            invariant
                work@.len() == n + 1,
                forall|j: int| 0 <= j <= n ==> (#[trigger] work@[j]).wf(),
                db_view(work@).take(n as int) == below,
                below.len() == n,
                rules == self.rules@,
                res == fix_iter(rules, below, fuel as nat, work@[n as int].view()),
                done ==> res == work@[n as int].view(),
            decreases 2 * fuel + (if done { 0int } else { 1int }),
        {
            let ghost cur = work@[n as int].view();
            assert(db_view(work@) =~= below.push(cur));
            let next = self.run(&work);
            let next_set = TupleSet::from_rows(&next);
            if next_set.same(&work[n]) {
                done = true;
            } else {
                let ghost prev = work@;
                work[n] = next_set;
                assert forall|j: int| 0 <= j <= n implies (#[trigger] work@[j]).wf() by {
                    if j < n {
                        assert(work@[j] == prev[j]);
                    }
                }
                assert(db_view(work@).take(n as int) =~= db_view(prev).take(n as int));
                fuel -= 1;
            }
        }
        work[n].enumerate()
    }

    /// Evaluates every rule and gathers the outputs.
    pub fn run(&self, db: &Vec<TupleSet>) -> (r: Vec<Tuple>)
        ensures
            rows(r@) == var_eval(self.rules@, db_view(db@)),
    {
        let ghost d = db_view(db@);
        let mut out: Vec<Tuple> = Vec::new();
        let mut i: usize = 0;
        while i < self.rules.len()
            invariant
                i <= self.rules@.len(),
                d == db_view(db@),
                rows(out@) == var_eval(self.rules@.take(i as int), d),
            decreases self.rules@.len() - i,
        {
            let part = self.rules[i].run(db);
            let ghost acc = rows(out@);
            let mut j: usize = 0;
            while j < part.len()
                invariant
                    j <= part@.len(),
                    rows(out@) == acc.union(rows(part@.take(j as int))),
                decreases part@.len() - j,
            {
                assert(part@.take(j + 1) =~= part@.take(j as int).push(part@[j as int]));
                proof {
                    lemma_rows_push(part@.take(j as int), part@[j as int]);
                }
                let t = crate::value::copy_tuple(&part[j]);
                proof {
                    lemma_rows_push(out@, t);
                }
                out.push(t);
                assert(rows(out@) =~= acc.union(rows(part@.take(j + 1))));
                j += 1;
            }
            assert(part@.take(part@.len() as int) =~= part@);
            assert(rows(out@) =~= var_eval(self.rules@.take(i + 1), d)) by {
                let rs = self.rules@.take(i + 1);
                assert forall|x: Seq<Val>| rows(out@).contains(x) implies var_eval(rs, d).contains(x) by {
                    if acc.contains(x) {
                        let k = choose|k: int| 0 <= k < i && eval(#[trigger] self.rules@.take(i as int)[k], d).contains(x);
                        assert(rs[k] == self.rules@.take(i as int)[k]);
                    } else {
                        assert(rs[i as int] == self.rules@[i as int]);
                    }
                }
                assert forall|x: Seq<Val>| var_eval(rs, d).contains(x) implies rows(out@).contains(x) by {
                    let k = choose|k: int| 0 <= k < rs.len() && eval(#[trigger] rs[k], d).contains(x);
                    if k < i {
                        assert(rs[k] == self.rules@.take(i as int)[k]);
                        assert(var_eval(self.rules@.take(i as int), d).contains(x));
                    }
                }
            }
            i += 1;
        }
        assert(self.rules@.take(self.rules@.len() as int) =~= self.rules@);
        out
    }
}

/// Iterates the rules from `cur`, the relation's own content being the
/// current iterate and the relations below it being `below`, until an
/// iterate repeats or the fuel runs out.
pub open spec fn fix_iter(rules: Seq<Plan>, below: Db, fuel: nat, cur: Set<Seq<Val>>) -> Set<Seq<Val>>
    decreases fuel,
{
    if fuel == 0 {
        cur
    } else {
        let next = var_eval(rules, below.push(cur));
        if next == cur {
            cur
        } else {
            fix_iter(rules, below, (fuel - 1) as nat, next)
        }
    }
}

/// The content a definition gives relation `n` of a database: its bounded
/// fixpoint over the relations below `n`.
pub open spec fn def_eval(v: Variable, db: Db, n: int) -> Set<Seq<Val>> {
    fix_iter(v.rules@, db.take(n), v.rounds as nat, Set::empty())
}

/// No rule reads relation `n` on the right of an antijoin.
pub open spec fn rules_monotone(rules: Seq<Plan>, n: int) -> bool {
    forall|i: int| 0 <= i < rules.len() ==> !reads_negated(#[trigger] rules[i], n)
}

/// Rules that do not read relation `n` are monotone in it.
pub proof fn lemma_below_monotone(rules: Seq<Plan>, n: int)
    requires
        rules_below(rules, n),
    ensures
        rules_monotone(rules, n),
{
    assert forall|i: int| 0 <= i < rules.len() implies !reads_negated(#[trigger] rules[i], n) by {
        crate::plan::lemma_negated_reads(rules[i], n);
        assert(reads_below(rules[i], n));
    }
}

/// One round of a definition: its rules over `below`, with `s` as the
/// relation's own content.
pub open spec fn step(rules: Seq<Plan>, below: Db, s: Set<Seq<Val>>) -> Set<Seq<Val>> {
    var_eval(rules, below.push(s))
}

/// A plan that does not read relation `n` on the right of an antijoin
/// yields more when relation `n` holds more.
pub proof fn lemma_eval_monotone(p: Plan, below: Db, s1: Set<Seq<Val>>, s2: Set<Seq<Val>>)
    requires
        s1.subset_of(s2),
        !reads_negated(p, below.len() as int),
    ensures
        eval(p, below.push(s1)).subset_of(eval(p, below.push(s2))),
    decreases p,
{
    let d1 = below.push(s1);
    let d2 = below.push(s2);
    let n = below.len() as int;
    match p {
        Plan::Scan(r) => {
            if r as int != n {
                assert(rel_of(d1, r as int) == rel_of(d2, r as int));
            }
        },
        Plan::Filter(q, _, _) => lemma_eval_monotone(*q, below, s1, s2),
        Plan::Project(q, ts) => {
            lemma_eval_monotone(*q, below, s1, s2);
            assert forall|y: Seq<Val>| eval(p, d1).contains(y) implies eval(p, d2).contains(y) by {
                let x = choose|x: Seq<Val>| eval(*q, d1).contains(x) && crate::plan::project(x, ts@) == y;
                assert(eval(*q, d2).contains(x));
            }
        },
        Plan::Join(l, r, ks) => {
            lemma_eval_monotone(*l, below, s1, s2);
            lemma_eval_monotone(*r, below, s1, s2);
            assert forall|y: Seq<Val>| eval(p, d1).contains(y) implies eval(p, d2).contains(y) by {
                let (a, b) = choose|a: Seq<Val>, b: Seq<Val>| eval(*l, d1).contains(a) && eval(*r, d1).contains(b)
                    && crate::plan::keys_match(a, b, ks@) && y == a + b;
                assert(eval(*l, d2).contains(a) && eval(*r, d2).contains(b));
            }
        },
        Plan::AntiJoin(l, r, ks) => {
            lemma_eval_monotone(*l, below, s1, s2);
            assert forall|id: int| reads(*r, id) implies rel_of(d1, id) == rel_of(d2, id) by {
                assert(id != n);
            }
            lemma_eval_local(*r, d1, d2);
        },
    }
}

/// One round is monotone in the relation's own content.
pub proof fn lemma_step_monotone(rules: Seq<Plan>, below: Db, s1: Set<Seq<Val>>, s2: Set<Seq<Val>>)
    requires
        s1.subset_of(s2),
        rules_monotone(rules, below.len() as int),
    ensures
        step(rules, below, s1).subset_of(step(rules, below, s2)),
{
    assert forall|x: Seq<Val>| step(rules, below, s1).contains(x) implies step(rules, below, s2).contains(x) by {
        let i = choose|i: int| 0 <= i < rules.len() && eval(#[trigger] rules[i], below.push(s1)).contains(x);
        lemma_eval_monotone(rules[i], below, s1, s2);
    }
}

/// For rules monotone in their own relation, the bounded iteration from
/// empty only ever adds tuples (its result is contained in one more round)
/// and never leaves any set closed under a round, so it lies within the
/// least fixpoint; when it settles it is that least fixpoint.
pub proof fn lemma_fix_least(rules: Seq<Plan>, below: Db, fuel: nat, cur: Set<Seq<Val>>, y: Set<Seq<Val>>)
    requires
        rules_monotone(rules, below.len() as int),
        cur.subset_of(step(rules, below, cur)),
        step(rules, below, y).subset_of(y),
        cur.subset_of(y),
    ensures
        fix_iter(rules, below, fuel, cur).subset_of(step(rules, below, fix_iter(rules, below, fuel, cur))),
        fix_iter(rules, below, fuel, cur).subset_of(y),
    decreases fuel,
{
    if fuel > 0 {
        let next = step(rules, below, cur);
        lemma_step_monotone(rules, below, cur, y);
        if next != cur {
            lemma_step_monotone(rules, below, cur, next);
            lemma_fix_least(rules, below, (fuel - 1) as nat, next, y);
        }
    }
}

/// A definition's content lies within every set its rules cannot grow,
/// and one more round only adds to it.
pub proof fn lemma_def_least(v: Variable, db: Db, n: int, y: Set<Seq<Val>>)
    requires
        0 <= n <= db.len(),
        rules_monotone(v.rules@, n),
        step(v.rules@, db.take(n), y).subset_of(y),
    ensures
        def_eval(v, db, n).subset_of(y),
        def_eval(v, db, n).subset_of(step(v.rules@, db.take(n), def_eval(v, db, n))),
{
    lemma_fix_least(v.rules@, db.take(n), v.rounds as nat, Set::empty(), y);
}

/// A definition fit for relation `n`: its rules read only relations below
/// `n` and `n` itself, never `n` on the right of an antijoin, and it is
/// given at least one round.
pub open spec fn def_wf(v: Variable, n: int) -> bool {
    &&& rules_below(v.rules@, n + 1)
    &&& rules_monotone(v.rules@, n)
    &&& v.rounds >= 1
}

/// A rule graph whose derived relation `k` is fit for its place.
pub open spec fn graph_wf(n_base: int, defs: Seq<Variable>) -> bool {
    forall|k: int| 0 <= k < defs.len() ==> def_wf(#[trigger] defs[k], n_base + k)
}

/// The full database computed from scratch: the base relations, then each
/// derived relation evaluated in order.
pub open spec fn recompute(defs: Seq<Variable>, base: Db) -> Db
    decreases defs.len(),
{
    if defs.len() == 0 {
        base
    } else {
        let d = recompute(defs.drop_last(), base);
        d.push(def_eval(defs.last(), d, d.len() as int))
    }
}

/// Every derived relation of `db` holds what its definition gives it.
pub open spec fn consistent(n_base: int, defs: Seq<Variable>, db: Db) -> bool {
    &&& db.len() == n_base + defs.len()
    &&& forall|k: int| 0 <= k < defs.len() ==> db[n_base + k] == def_eval(#[trigger] defs[k], db, n_base + k)
}

/// The iteration gives the same result over relations that agree wherever
/// the rules read them.
pub proof fn lemma_fix_agree(rules: Seq<Plan>, b1: Db, b2: Db, fuel: nat, cur: Set<Seq<Val>>)
    requires
        b1.len() == b2.len(),
        rules_below(rules, b1.len() as int + 1),
        forall|i: int, id: int| 0 <= i < rules.len() && #[trigger] reads(rules[i], id) && id < b1.len()
            ==> b1[id] == b2[id],
    ensures
        fix_iter(rules, b1, fuel, cur) == fix_iter(rules, b2, fuel, cur),
    decreases fuel,
{
    if fuel > 0 {
        let n = b1.len() as int;
        assert forall|i: int, id: int| 0 <= i < rules.len() && #[trigger] reads(rules[i], id)
            implies rel_of(b1.push(cur), id) == rel_of(b2.push(cur), id) by {
            assert(reads_below(rules[i], n + 1));
            if id < n {
                assert(b1.push(cur)[id] == b1[id]);
                assert(b2.push(cur)[id] == b2[id]);
            }
        }
        lemma_var_agree(rules, b1.push(cur), b2.push(cur));
        let next = var_eval(rules, b1.push(cur));
        if next != cur {
            lemma_fix_agree(rules, b1, b2, (fuel - 1) as nat, next);
        }
    }
}

/// Rules that do not read their own relation are evaluated once.
pub proof fn lemma_fix_once(rules: Seq<Plan>, below: Db, fuel: nat)
    requires
        fuel >= 1,
        rules_below(rules, below.len() as int),
    ensures
        fix_iter(rules, below, fuel, Set::empty()) == var_eval(rules, below.push(Set::empty())),
{
    let n = below.len() as int;
    let e = Set::<Seq<Val>>::empty();
    let s = var_eval(rules, below.push(e));
    if s != e {
        assert forall|i: int, id: int| 0 <= i < rules.len() && #[trigger] reads(rules[i], id)
            implies rel_of(below.push(s), id) == rel_of(below.push(e), id) by {
            assert(reads_below(rules[i], n));
            assert(below.push(s)[id] == below[id]);
            assert(below.push(e)[id] == below[id]);
        }
        lemma_var_agree(rules, below.push(s), below.push(e));
        assert(fix_iter(rules, below, fuel, e) == fix_iter(rules, below, (fuel - 1) as nat, s));
        if fuel > 1 {
            assert(fix_iter(rules, below, (fuel - 1) as nat, s) == s);
        }
    }
}

/// On a database of empty relations every definition is empty.
pub proof fn lemma_def_empty(v: Variable, db: Db, n: int)
    requires
        0 <= n <= db.len(),
        forall|i: int| 0 <= i < db.len() ==> #[trigger] db[i] == Set::<Seq<Val>>::empty(),
    ensures
        def_eval(v, db, n) == Set::<Seq<Val>>::empty(),
{
    let e = Set::<Seq<Val>>::empty();
    let d = db.take(n).push(e);
    assert forall|i: int| 0 <= i < d.len() implies #[trigger] d[i] == e by {
        if i < n {
            assert(d[i] == db[i]);
        }
    }
    assert forall|j: int| 0 <= j < v.rules@.len() implies eval(#[trigger] v.rules@[j], d) == e by {
        lemma_eval_empty(v.rules@[j], d);
    }
    assert(var_eval(v.rules@, d) =~= e);
}

pub proof fn lemma_recompute_len(defs: Seq<Variable>, base: Db)
    ensures
        recompute(defs, base).len() == base.len() + defs.len(),
    decreases defs.len(),
{
    if defs.len() > 0 {
        lemma_recompute_len(defs.drop_last(), base);
    }
}

/// Recomputation keeps the base relations as given.
pub proof fn lemma_recompute_base(defs: Seq<Variable>, base: Db)
    ensures
        recompute(defs, base).len() == base.len() + defs.len(),
        forall|i: int| 0 <= i < base.len() ==> #[trigger] recompute(defs, base)[i] == base[i],
    decreases defs.len(),
{
    lemma_recompute_len(defs, base);
    if defs.len() > 0 {
        lemma_recompute_base(defs.drop_last(), base);
    }
}

/// Every plan yields nothing on a database whose relations are all empty.
pub proof fn lemma_eval_empty(p: Plan, db: Db)
    requires
        forall|i: int| 0 <= i < db.len() ==> #[trigger] db[i] == Set::<Seq<Val>>::empty(),
    ensures
        eval(p, db) == Set::<Seq<Val>>::empty(),
    decreases p,
{
    match p {
        Plan::Scan(r) => {},
        Plan::Filter(q, c, v) => {
            lemma_eval_empty(*q, db);
            assert(eval(p, db) =~= Set::<Seq<Val>>::empty());
        },
        Plan::Project(q, ts) => {
            lemma_eval_empty(*q, db);
            assert(eval(p, db) =~= Set::<Seq<Val>>::empty());
        },
        Plan::Join(l, r, ks) => {
            lemma_eval_empty(*l, db);
            assert(eval(p, db) =~= Set::<Seq<Val>>::empty());
        },
        Plan::AntiJoin(l, r, ks) => {
            lemma_eval_empty(*l, db);
            assert(eval(p, db) =~= Set::<Seq<Val>>::empty());
        },
    }
}

/// A consistent database is the from-scratch recomputation of its base part.
pub proof fn lemma_consistent_is_recompute(n_base: int, defs: Seq<Variable>, db: Db)
    requires
        0 <= n_base,
        consistent(n_base, defs, db),
    ensures
        db == recompute(defs, db.take(n_base)),
{
    lemma_prefix_is_recompute(n_base, defs, db, defs.len() as int);
    assert(db.take(n_base + defs.len()) =~= db);
    assert(defs.take(defs.len() as int) =~= defs);
}

proof fn lemma_prefix_is_recompute(n_base: int, defs: Seq<Variable>, db: Db, k: int)
    requires
        0 <= n_base,
        0 <= k <= defs.len(),
        consistent(n_base, defs, db),
    ensures
        db.take(n_base + k) == recompute(defs.take(k), db.take(n_base)),
    decreases k,
{
    if k > 0 {
        lemma_prefix_is_recompute(n_base, defs, db, k - 1);
        let prev = db.take(n_base + k - 1);
        assert(defs.take(k).drop_last() =~= defs.take(k - 1));
        assert(defs.take(k).last() == defs[k - 1]);
        assert(prev.take(n_base + k - 1) =~= db.take(n_base + k - 1));
        assert(db.take(n_base + k) =~= prev.push(db[n_base + k - 1]));
    } else {
        assert(defs.take(0) =~= Seq::<Variable>::empty());
    }
}

/// Fixed wiring of relations: how many are base relations, the definition of
/// each derived relation, and which relations are externally synchronized.
pub struct RuleGraph {
    pub n_base: usize,
    pub defs: Vec<Variable>,
    pub synced: Vec<bool>,
}

/// Why a rule graph was refused.
#[derive(Debug, Clone, Copy, PartialEq, Eq)]
pub enum GraphError {
    /// A rule of derived relation `0` reads a relation that is defined
    /// after it.
    BadReference(usize),
    /// A rule of derived relation `0` reads that relation on the right of an
    /// antijoin, so its iteration need not settle.
    NegatedSelf(usize),
    /// Derived relation `0` is given no round of evaluation.
    NoRounds(usize),
    /// The synchronization flags do not cover every relation exactly.
    BadSyncFlags,
}

impl RuleGraph {
    pub open spec fn n_rels(&self) -> int {
        self.n_base + self.defs@.len()
    }

    pub open spec fn wf(&self) -> bool {
        &&& graph_wf(self.n_base as int, self.defs@)
        &&& self.synced@.len() == self.n_rels()
    }

    /// Checks the wiring and builds the graph.
    pub fn new(n_base: usize, defs: Vec<Variable>, synced: Vec<bool>) -> (r: Result<RuleGraph, GraphError>)
        ensures
            r matches Ok(g) ==> g.wf() && g.n_base == n_base && g.defs@ == defs@ && g.synced@ == synced@,
            r matches Err(GraphError::BadSyncFlags) ==> synced@.len() != n_base + defs@.len(),
            r matches Err(GraphError::BadReference(k)) ==> synced@.len() == n_base + defs@.len()
                && k < defs@.len() && !rules_below(defs@[k as int].rules@, n_base + k + 1),
            r matches Err(GraphError::NegatedSelf(k)) ==> synced@.len() == n_base + defs@.len()
                && k < defs@.len() && !rules_monotone(defs@[k as int].rules@, n_base + k),
            r matches Err(GraphError::NoRounds(k)) ==> synced@.len() == n_base + defs@.len()
                && k < defs@.len() && defs@[k as int].rounds == 0,
            r is Ok <==> (graph_wf(n_base as int, defs@) && synced@.len() == n_base + defs@.len()),
    {
        let nd = defs.len();
        let ns = synced.len();
        if n_base > usize::MAX - nd || ns != n_base + nd {
            return Err(GraphError::BadSyncFlags);
        }
        let mut k: usize = 0;
        while k < defs.len()
            invariant
                k <= defs@.len(),
                n_base + defs@.len() <= usize::MAX,
                synced@.len() == n_base + defs@.len(),
                forall|j: int| 0 <= j < k ==> def_wf(#[trigger] defs@[j], n_base + j),
            decreases defs@.len() - k,
        {
            if !rules_read_below(&defs[k], n_base + k + 1) {
                return Err(GraphError::BadReference(k));
            }
            if !rules_monotone_in(&defs[k], n_base + k) {
                return Err(GraphError::NegatedSelf(k));
            }
            if defs[k].rounds == 0 {
                return Err(GraphError::NoRounds(k));
            }
            k += 1;
        }
        Ok(RuleGraph { n_base, defs, synced })
    }
}

/// Whether no rule of a definition reads relation `n` on the right of an
/// antijoin.
fn rules_monotone_in(v: &Variable, n: usize) -> (r: bool)
    ensures
        r == rules_monotone(v.rules@, n as int),
{
    let mut i: usize = 0;
    while i < v.rules.len()
        invariant
            i <= v.rules@.len(),
            forall|j: int| 0 <= j < i ==> !reads_negated(#[trigger] v.rules@[j], n as int),
        decreases v.rules@.len() - i,
    {
        if v.rules[i].check_negated(n) {
            return false;
        }
        i += 1;
    }
    true
}

/// Whether every rule of a definition reads only relations below `n`.
fn rules_read_below(v: &Variable, n: usize) -> (r: bool)
    ensures
        r == rules_below(v.rules@, n as int),
{
    let mut i: usize = 0;
    while i < v.rules.len()
        invariant
            i <= v.rules@.len(),
            forall|j: int| 0 <= j < i ==> reads_below(#[trigger] v.rules@[j], n as int),
        decreases v.rules@.len() - i,
    {
        if !v.rules[i].check_reads_below(n) {
            return false;
        }
        i += 1;
    }
    true
}

} // verus!
