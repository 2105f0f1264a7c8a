//! Relational operator plans and their meaning over a database.
use vstd::prelude::*;
use crate::value::{Value, Tuple, Val, tv, rows, field, copy_value, copy_tuple, value_eq, get_field};
use crate::store::TupleSet;

verus! {

/// One output field of a projection: a column of the input, or a constant.
pub enum Term {
    Col(usize),
    Lit(Value),
}

/// A relational operator tree. Relations are named by their index in the
/// database.
pub enum Plan {
    /// Every tuple of a relation.
    Scan(usize),
    /// Tuples whose given column holds the given value.
    Filter(Box<Plan>, usize, Value),
    /// Each tuple rewritten field by field.
    Project(Box<Plan>, Vec<Term>),
    /// Each matching pair of tuples, concatenated; a pair matches when the
    /// columns named by each key pair hold equal values.
    Join(Box<Plan>, Box<Plan>, Vec<(usize, usize)>),
    /// Left tuples that match no right tuple.
    AntiJoin(Box<Plan>, Box<Plan>, Vec<(usize, usize)>),
}

/// The abstract content of every relation of a database.
pub type Db = Seq<Set<Seq<Val>>>;

/// The abstract database held by a sequence of relations.
pub open spec fn db_view(s: Seq<TupleSet>) -> Db {
    s.map_values(|r: TupleSet| r.view())
}

/// Relation `r` of a database; empty when there is no such relation.
pub open spec fn rel_of(db: Db, r: int) -> Set<Seq<Val>> {
    if 0 <= r < db.len() {
        db[r]
    } else {
        Set::empty()
    }
}

pub open spec fn term_val(t: Seq<Val>, x: Term) -> Val {
    match x {
        Term::Col(c) => field(t, c as int),
        Term::Lit(v) => v@,
    }
}

pub open spec fn project(t: Seq<Val>, ts: Seq<Term>) -> Seq<Val> {
    ts.map_values(|x: Term| term_val(t, x))
}

pub open spec fn keys_match(a: Seq<Val>, b: Seq<Val>, ks: Seq<(usize, usize)>) -> bool {
    forall|i: int| 0 <= i < ks.len() ==> field(a, ks[i].0 as int) == field(b, ks[i].1 as int)
}

pub open spec fn filter_set(s: Set<Seq<Val>>, c: int, v: Val) -> Set<Seq<Val>> {
    Set::new(|x: Seq<Val>| s.contains(x) && field(x, c) == v)
}

pub open spec fn project_set(s: Set<Seq<Val>>, ts: Seq<Term>) -> Set<Seq<Val>> {
    Set::new(|y: Seq<Val>| exists|x: Seq<Val>| s.contains(x) && project(x, ts) == y)
}

pub open spec fn join_set(l: Set<Seq<Val>>, r: Set<Seq<Val>>, ks: Seq<(usize, usize)>) -> Set<Seq<Val>> {
    Set::new(|y: Seq<Val>| exists|a: Seq<Val>, b: Seq<Val>|
        l.contains(a) && r.contains(b) && keys_match(a, b, ks) && y == a + b)
}

pub open spec fn antijoin_set(l: Set<Seq<Val>>, r: Set<Seq<Val>>, ks: Seq<(usize, usize)>) -> Set<Seq<Val>> {
    Set::new(|a: Seq<Val>| l.contains(a) && !exists|b: Seq<Val>| r.contains(b) && keys_match(a, b, ks))
}

/// The set of tuples a plan yields on a database.
pub open spec fn eval(p: Plan, db: Db) -> Set<Seq<Val>>
    decreases p,
{
    match p {
        Plan::Scan(r) => rel_of(db, r as int),
        Plan::Filter(q, c, v) => filter_set(eval(*q, db), c as int, v@),
        Plan::Project(q, ts) => project_set(eval(*q, db), ts@),
        Plan::Join(l, r, ks) => join_set(eval(*l, db), eval(*r, db), ks@),
        Plan::AntiJoin(l, r, ks) => antijoin_set(eval(*l, db), eval(*r, db), ks@),
    }
}

/// Whether a plan reads relation `id`.
pub open spec fn reads(p: Plan, id: int) -> bool
    decreases p,
{
    match p {
        Plan::Scan(r) => r == id,
        Plan::Filter(q, _, _) => reads(*q, id),
        Plan::Project(q, _) => reads(*q, id),
        Plan::Join(l, r, _) => reads(*l, id) || reads(*r, id),
        Plan::AntiJoin(l, r, _) => reads(*l, id) || reads(*r, id),
    }
}

/// Whether a plan reads relation `id` on the right of an antijoin, where
/// more tuples there mean fewer results.
pub open spec fn reads_negated(p: Plan, id: int) -> bool
    decreases p,
{
    match p {
        Plan::Scan(_) => false,
        Plan::Filter(q, _, _) => reads_negated(*q, id),
        Plan::Project(q, _) => reads_negated(*q, id),
        Plan::Join(l, r, _) => reads_negated(*l, id) || reads_negated(*r, id),
        Plan::AntiJoin(l, r, _) => reads_negated(*l, id) || reads(*r, id),
    }
}

/// A relation read on the right of an antijoin is read.
pub proof fn lemma_negated_reads(p: Plan, id: int)
    ensures
        reads_negated(p, id) ==> reads(p, id),
    decreases p,
{
    match p {
        Plan::Scan(_) => {},
        Plan::Filter(q, _, _) => lemma_negated_reads(*q, id),
        Plan::Project(q, _) => lemma_negated_reads(*q, id),
        Plan::Join(l, r, _) => {
            lemma_negated_reads(*l, id);
            lemma_negated_reads(*r, id);
        },
        Plan::AntiJoin(l, r, _) => {
            lemma_negated_reads(*l, id);
        },
    }
}

/// A plan reads only relations below `n`.
pub open spec fn reads_below(p: Plan, n: int) -> bool {
    forall|id: int| reads(p, id) ==> 0 <= id < n
}

proof fn lemma_reads_below_unfold(p: Plan, n: int)
    ensures
        match p {
            Plan::Scan(r) => reads_below(p, n) == (0 <= r < n),
            Plan::Filter(q, _, _) => reads_below(p, n) == reads_below(*q, n),
            Plan::Project(q, _) => reads_below(p, n) == reads_below(*q, n),
            Plan::Join(l, r, _) => reads_below(p, n) == (reads_below(*l, n) && reads_below(*r, n)),
            Plan::AntiJoin(l, r, _) => reads_below(p, n) == (reads_below(*l, n) && reads_below(*r, n)),
        },
{
    match p {
        Plan::Scan(r) => {
            assert(reads(p, r as int));
        },
        Plan::Filter(q, _, _) => {
            assert(forall|id: int| reads(p, id) == reads(*q, id));
        },
        Plan::Project(q, _) => {
            assert(forall|id: int| reads(p, id) == reads(*q, id));
        },
        Plan::Join(l, r, _) => {
            assert(forall|id: int| reads(p, id) == (reads(*l, id) || reads(*r, id)));
        },
        Plan::AntiJoin(l, r, _) => {
            assert(forall|id: int| reads(p, id) == (reads(*l, id) || reads(*r, id)));
        },
    }
}

/// One past the highest relation a plan reads (zero for none).
pub open spec fn top_read(p: Plan) -> int
    decreases p,
{
    match p {
        Plan::Scan(r) => r + 1,
        Plan::Filter(q, _, _) => top_read(*q),
        Plan::Project(q, _) => top_read(*q),
        Plan::Join(l, r, _) => if top_read(*l) >= top_read(*r) { top_read(*l) } else { top_read(*r) },
        Plan::AntiJoin(l, r, _) => if top_read(*l) >= top_read(*r) { top_read(*l) } else { top_read(*r) },
    }
}

/// A plan reads only relations below its `top_read`.
pub proof fn lemma_top_read(p: Plan, n: int)
    requires
        top_read(p) <= n,
    ensures
        reads_below(p, n),
    decreases p,
{
    lemma_reads_below_unfold(p, n);
    match p {
        Plan::Scan(r) => {},
        Plan::Filter(q, _, _) => lemma_top_read(*q, n),
        Plan::Project(q, _) => lemma_top_read(*q, n),
        Plan::Join(l, r, _) => {
            lemma_top_read(*l, n);
            lemma_top_read(*r, n);
        },
        Plan::AntiJoin(l, r, _) => {
            lemma_top_read(*l, n);
            lemma_top_read(*r, n);
        },
    }
}

/// Two databases that agree on every relation a plan reads give it the same
/// result.
pub proof fn lemma_eval_local(p: Plan, d1: Db, d2: Db)
    requires
        forall|id: int| reads(p, id) ==> rel_of(d1, id) == rel_of(d2, id),
    ensures
        eval(p, d1) == eval(p, d2),
    decreases p,
{
    match p {
        Plan::Scan(r) => {},
        Plan::Filter(q, _, _) => lemma_eval_local(*q, d1, d2),
        Plan::Project(q, _) => lemma_eval_local(*q, d1, d2),
        Plan::Join(l, r, _) => {
            lemma_eval_local(*l, d1, d2);
            lemma_eval_local(*r, d1, d2);
        },
        Plan::AntiJoin(l, r, _) => {
            lemma_eval_local(*l, d1, d2);
            lemma_eval_local(*r, d1, d2);
        },
    }
}

pub proof fn lemma_rows_push(s: Seq<Tuple>, t: Tuple)
    ensures
        rows(s.push(t)) == rows(s).insert(tv(t)),
{
    let s2 = s.push(t);
    assert forall|y: Seq<Val>| rows(s2).contains(y) implies rows(s).insert(tv(t)).contains(y) by {
        let i = choose|i: int| 0 <= i < s2.len() && tv(s2[i]) == y;
        if i < s.len() {
            assert(s2[i] == s[i]);
        }
    }
    assert forall|y: Seq<Val>| rows(s).insert(tv(t)).contains(y) implies rows(s2).contains(y) by {
        if y == tv(t) {
            assert(s2[s.len() as int] == t);
        } else {
            let i = choose|i: int| 0 <= i < s.len() && tv(s[i]) == y;
            assert(s2[i] == s[i]);
        }
    }
    assert(rows(s2) =~= rows(s).insert(tv(t)));
}

pub proof fn lemma_rows_take(s: Seq<Tuple>, i: int)
    requires
        0 <= i < s.len(),
    ensures
        rows(s.take(i + 1)) == rows(s.take(i)).insert(tv(s[i])),
{
    assert(s.take(i + 1) =~= s.take(i).push(s[i]));
    lemma_rows_push(s.take(i), s[i]);
}

pub proof fn lemma_rows_empty(s: Seq<Tuple>)
    ensures
        rows(s.take(0)) == Set::<Seq<Val>>::empty(),
{
    assert(rows(s.take(0)) =~= Set::<Seq<Val>>::empty());
}

pub proof fn lemma_rows_full(s: Seq<Tuple>)
    ensures
        rows(s.take(s.len() as int)) == rows(s),
{
    assert(s.take(s.len() as int) =~= s);
}

/// Whether two tuples match on every key pair.
pub fn keys_eq(a: &Tuple, b: &Tuple, ks: &Vec<(usize, usize)>) -> (r: bool)
    ensures
        r == keys_match(tv(*a), tv(*b), ks@),
{
    let mut i: usize = 0;
    while i < ks.len()
        invariant
            i <= ks@.len(),
            forall|j: int| 0 <= j < i ==> field(tv(*a), (#[trigger] ks@[j]).0 as int) == field(tv(*b), ks@[j].1 as int),
        decreases ks@.len() - i,
    {
        let (x, y) = ks[i];
        let va = get_field(a, x);
        let vb = get_field(b, y);
        if !value_eq(&va, &vb) {
            return false;
        }
        i += 1;
    }
    true
}

/// Rewrites a tuple by a list of terms.
pub fn project_tuple(t: &Tuple, ts: &Vec<Term>) -> (r: Tuple)
    ensures
        tv(r) == project(tv(*t), ts@),
{
    let mut r: Vec<Value> = Vec::new();
    let mut i: usize = 0;
    while i < ts.len()
        invariant
            i <= ts@.len(),
            r@.len() == i,
            forall|j: int| 0 <= j < i ==> (#[trigger] r@[j])@ == term_val(tv(*t), ts@[j]),
        decreases ts@.len() - i,
    {
        let v = match &ts[i] {
            Term::Col(c) => get_field(t, *c),
            Term::Lit(v) => copy_value(v),
        };
        r.push(v);
        i += 1;
    }
    assert(tv(r) =~= project(tv(*t), ts@));
    r
}

/// Concatenates two tuples.
pub fn concat_tuples(a: &Tuple, b: &Tuple) -> (r: Tuple)
    ensures
        tv(r) == tv(*a) + tv(*b),
{
    let mut r = copy_tuple(a);
    let mut i: usize = 0;
    assert(r@.len() == tv(r).len() && a@.len() == tv(*a).len());
    assert forall|k: int| 0 <= k < a@.len() implies (#[trigger] r@[k])@ == a@[k]@ by {
        assert(tv(r)[k] == tv(*a)[k]);
    }
    while i < b.len()
        invariant
            i <= b@.len(),
            r@.len() == a@.len() + i,
            forall|k: int| 0 <= k < a@.len() ==> (#[trigger] r@[k])@ == a@[k]@,
            forall|k: int| 0 <= k < i ==> (#[trigger] r@[a@.len() + k])@ == b@[k]@,
        decreases b@.len() - i,
    {
        r.push(copy_value(&b[i]));
        assert(r@[a@.len() + i]@ == b@[i as int]@);
        i += 1;
    }
    assert(tv(r) =~= tv(*a) + tv(*b)) by {
        assert forall|k: int| 0 <= k < r@.len() implies tv(r)[k] == (tv(*a) + tv(*b))[k] by {
            if k >= a@.len() {
                assert(r@[a@.len() + (k - a@.len())] == r@[k]);
            }
        }
    }
    r
}

/// The tuples of `src` whose column `c` holds `v`.
fn run_filter(src: Vec<Tuple>, c: usize, v: &Value) -> (r: Vec<Tuple>)
    ensures
        rows(r@) == filter_set(rows(src@), c as int, v@),
{
    let mut out: Vec<Tuple> = Vec::new();
    let mut i: usize = 0;
    proof { lemma_rows_empty(src@); }
    while i < src.len()
        invariant
            i <= src@.len(),
            rows(out@) == filter_set(rows(src@.take(i as int)), c as int, v@),
        decreases src@.len() - i,
    {
        proof { lemma_rows_take(src@, i as int); }
        let f = get_field(&src[i], c);
        if value_eq(&f, v) {
            let t = copy_tuple(&src[i]);
            proof { lemma_rows_push(out@, t); }
            out.push(t);
        }
        assert(rows(out@) =~= filter_set(rows(src@.take(i + 1)), c as int, v@));
        i += 1;
    }
    proof { lemma_rows_full(src@); }
    out
}

/// Each tuple of `src` rewritten by `ts`.
fn run_project(src: Vec<Tuple>, ts: &Vec<Term>) -> (r: Vec<Tuple>)
    ensures
        rows(r@) == project_set(rows(src@), ts@),
{
    let mut out: Vec<Tuple> = Vec::new();
    let mut i: usize = 0;
    proof { lemma_rows_empty(src@); }
    while i < src.len()
        invariant
            i <= src@.len(),
            rows(out@) == project_set(rows(src@.take(i as int)), ts@),
        decreases src@.len() - i,
    {
        proof { lemma_rows_take(src@, i as int); }
        let t = project_tuple(&src[i], ts);
        proof { lemma_rows_push(out@, t); }
        out.push(t);
        let ghost x0 = tv(src@[i as int]);
        assert(rows(out@) =~= project_set(rows(src@.take(i + 1)), ts@)) by {
            let a = rows(src@.take(i as int));
            assert forall|y: Seq<Val>| project_set(a.insert(x0), ts@).contains(y)
                implies project_set(a, ts@).insert(project(x0, ts@)).contains(y) by {
                let x = choose|x: Seq<Val>| a.insert(x0).contains(x) && project(x, ts@) == y;
                if x != x0 {
                    assert(a.contains(x));
                }
            }
            assert(project_set(a.insert(x0), ts@).contains(project(x0, ts@)));
        }
        i += 1;
    }
    proof { lemma_rows_full(src@); }
    out
}

/// Every matching pair of `ls` and `rs`, concatenated.
fn run_join(ls: Vec<Tuple>, rs: Vec<Tuple>, ks: &Vec<(usize, usize)>) -> (r: Vec<Tuple>)
    ensures
        rows(r@) == join_set(rows(ls@), rows(rs@), ks@),
{
    let mut out: Vec<Tuple> = Vec::new();
    let mut i: usize = 0;
    proof { lemma_rows_empty(ls@); }
    while i < ls.len()
        invariant
            i <= ls@.len(),
            rows(out@) == join_set(rows(ls@.take(i as int)), rows(rs@), ks@),
        decreases ls@.len() - i,
    {
        proof { lemma_rows_take(ls@, i as int); }
        let ghost a0 = tv(ls@[i as int]);
        let ghost base = rows(out@);
        let mut j: usize = 0;
        proof { lemma_rows_empty(rs@); }
        assert(rows(out@) =~= base.union(join_set(set![a0], rows(rs@.take(0)), ks@)));
        while j < rs.len()
            invariant
                i < ls@.len(),
                j <= rs@.len(),
                a0 == tv(ls@[i as int]),
                rows(out@) == base.union(join_set(set![a0], rows(rs@.take(j as int)), ks@)),
            decreases rs@.len() - j,
        {
            proof { lemma_rows_take(rs@, j as int); }
            let ghost b0 = tv(rs@[j as int]);
            let ghost bs = rows(rs@.take(j as int));
            if keys_eq(&ls[i], &rs[j], ks) {
                let t = concat_tuples(&ls[i], &rs[j]);
                proof { lemma_rows_push(out@, t); }
                out.push(t);
                assert(join_set(set![a0], bs.insert(b0), ks@) =~= join_set(set![a0], bs, ks@).insert(a0 + b0)) by {
                    assert forall|y: Seq<Val>| join_set(set![a0], bs.insert(b0), ks@).contains(y)
                        implies join_set(set![a0], bs, ks@).insert(a0 + b0).contains(y) by {
                        let (a, b) = choose|a: Seq<Val>, b: Seq<Val>|
                            set![a0].contains(a) && bs.insert(b0).contains(b) && keys_match(a, b, ks@) && y == a + b;
                        if b != b0 {
                            assert(set![a0].contains(a) && bs.contains(b) && keys_match(a, b, ks@) && y == a + b);
                        }
                    }
                    assert(set![a0].contains(a0) && bs.insert(b0).contains(b0) && keys_match(a0, b0, ks@));
                }
            } else {
                assert(join_set(set![a0], bs.insert(b0), ks@) =~= join_set(set![a0], bs, ks@)) by {
                    assert forall|y: Seq<Val>| join_set(set![a0], bs.insert(b0), ks@).contains(y)
                        implies join_set(set![a0], bs, ks@).contains(y) by {
                        let (a, b) = choose|a: Seq<Val>, b: Seq<Val>|
                            set![a0].contains(a) && bs.insert(b0).contains(b) && keys_match(a, b, ks@) && y == a + b;
                        assert(a == a0);
                        if b != b0 {
                            assert(set![a0].contains(a) && bs.contains(b) && keys_match(a, b, ks@) && y == a + b);
                        }
                    }
                }
            }
            assert(rows(out@) =~= base.union(join_set(set![a0], rows(rs@.take(j + 1)), ks@)));
            j += 1;
        }
        proof { lemma_rows_full(rs@); }
        let ghost la = rows(ls@.take(i as int));
        assert(join_set(la.insert(a0), rows(rs@), ks@) =~= join_set(la, rows(rs@), ks@).union(join_set(set![a0], rows(rs@), ks@))) by {
            assert forall|y: Seq<Val>| join_set(la.insert(a0), rows(rs@), ks@).contains(y)
                implies join_set(la, rows(rs@), ks@).union(join_set(set![a0], rows(rs@), ks@)).contains(y) by {
                let (a, b) = choose|a: Seq<Val>, b: Seq<Val>|
                    la.insert(a0).contains(a) && rows(rs@).contains(b) && keys_match(a, b, ks@) && y == a + b;
                if a == a0 {
                    assert(set![a0].contains(a));
                } else {
                    assert(la.contains(a));
                }
            }
            assert forall|y: Seq<Val>| join_set(set![a0], rows(rs@), ks@).contains(y)
                implies join_set(la.insert(a0), rows(rs@), ks@).contains(y) by {
                let (a, b) = choose|a: Seq<Val>, b: Seq<Val>|
                    set![a0].contains(a) && rows(rs@).contains(b) && keys_match(a, b, ks@) && y == a + b;
                assert(la.insert(a0).contains(a));
            }
            assert forall|y: Seq<Val>| join_set(la, rows(rs@), ks@).contains(y)
                implies join_set(la.insert(a0), rows(rs@), ks@).contains(y) by {
                let (a, b) = choose|a: Seq<Val>, b: Seq<Val>|
                    la.contains(a) && rows(rs@).contains(b) && keys_match(a, b, ks@) && y == a + b;
                assert(la.insert(a0).contains(a));
            }
        }
        i += 1;
    }
    proof { lemma_rows_full(ls@); }
    out
}

/// Whether some tuple of `rs` matches `a`.
fn any_match(a: &Tuple, rs: &Vec<Tuple>, ks: &Vec<(usize, usize)>) -> (r: bool)
    ensures
        r == exists|b: Seq<Val>| rows(rs@).contains(b) && keys_match(tv(*a), b, ks@),
{
    let mut j: usize = 0;
    while j < rs.len()
        invariant
            j <= rs@.len(),
            forall|k: int| 0 <= k < j ==> !keys_match(tv(*a), tv(#[trigger] rs@[k]), ks@),
        decreases rs@.len() - j,
    {
        if keys_eq(a, &rs[j], ks) {
            assert(rows(rs@).contains(tv(rs@[j as int])));
            return true;
        }
        j += 1;
    }
    assert forall|b: Seq<Val>| rows(rs@).contains(b) implies !keys_match(tv(*a), b, ks@) by {
        let k = choose|k: int| 0 <= k < rs@.len() && tv(rs@[k]) == b;
    }
    false
}

/// The tuples of `ls` that match no tuple of `rs`.
fn run_antijoin(ls: Vec<Tuple>, rs: Vec<Tuple>, ks: &Vec<(usize, usize)>) -> (r: Vec<Tuple>)
    ensures
        rows(r@) == antijoin_set(rows(ls@), rows(rs@), ks@),
{
    let mut out: Vec<Tuple> = Vec::new();
    let mut i: usize = 0;
    proof { lemma_rows_empty(ls@); }
    while i < ls.len()
        invariant
            i <= ls@.len(),
            rows(out@) == antijoin_set(rows(ls@.take(i as int)), rows(rs@), ks@),
        decreases ls@.len() - i,
    {
        proof { lemma_rows_take(ls@, i as int); }
        if !any_match(&ls[i], &rs, ks) {
            let t = copy_tuple(&ls[i]);
            proof { lemma_rows_push(out@, t); }
            out.push(t);
        }
        assert(rows(out@) =~= antijoin_set(rows(ls@.take(i + 1)), rows(rs@), ks@));
        i += 1;
    }
    proof { lemma_rows_full(ls@); }
    out
}

impl Plan {
    /// Whether the plan reads only relations below `n`.
    pub fn check_reads_below(&self, n: usize) -> (r: bool)
        ensures
            r == reads_below(*self, n as int),
        decreases self,
    {
        match self {
            Plan::Scan(id) => {
                if *id < n {
                    assert forall|x: int| reads(*self, x) implies 0 <= x < n by {}
                    assert(reads_below(*self, n as int));
                    true
                } else {
                    assert(reads(*self, *id as int));
                    assert(!reads_below(*self, n as int));
                    false
                }
            },
            Plan::Filter(q, _, _) => {
                let a = q.check_reads_below(n);
                proof { lemma_reads_below_unfold(*self, n as int); }
                a
            },
            Plan::Project(q, _) => {
                let a = q.check_reads_below(n);
                proof { lemma_reads_below_unfold(*self, n as int); }
                a
            },
            Plan::Join(l, r, _) => {
                let a = l.check_reads_below(n);
                let b = r.check_reads_below(n);
                proof { lemma_reads_below_unfold(*self, n as int); }
                a && b
            },
            Plan::AntiJoin(l, r, _) => {
                let a = l.check_reads_below(n);
                let b = r.check_reads_below(n);
                proof { lemma_reads_below_unfold(*self, n as int); }
                a && b
            },
        }
    }

    /// Whether the plan reads relation `id` on the right of an antijoin.
    pub fn check_negated(&self, id: usize) -> (r: bool)
        ensures
            r == reads_negated(*self, id as int),
        decreases self,
    {
        match self {
            Plan::Scan(_) => false,
            Plan::Filter(q, _, _) => q.check_negated(id),
            Plan::Project(q, _) => q.check_negated(id),
            Plan::Join(l, r, _) => {
                let a = l.check_negated(id);
                let b = r.check_negated(id);
                a || b
            },
            Plan::AntiJoin(l, r, _) => {
                let a = l.check_negated(id);
                let b = r.reads_id(id);
                a || b
            },
        }
    }

    /// Whether the plan reads relation `id`.
    pub fn reads_id(&self, id: usize) -> (r: bool)
        ensures
            r == reads(*self, id as int),
        decreases self,
    {
        match self {
            Plan::Scan(x) => *x == id,
            Plan::Filter(q, _, _) => q.reads_id(id),
            Plan::Project(q, _) => q.reads_id(id),
            Plan::Join(l, r, _) => {
                let a = l.reads_id(id);
                let b = r.reads_id(id);
                a || b
            },
            Plan::AntiJoin(l, r, _) => {
                let a = l.reads_id(id);
                let b = r.reads_id(id);
                a || b
            },
        }
    }

    /// Whether the plan reads some relation whose mark is set.
    pub fn reads_marked(&self, marks: &Vec<bool>) -> (r: bool)
        ensures
            r == exists|id: int| 0 <= id < marks@.len() && marks@[id] && reads(*self, id),
        decreases self,
    {
        match self {
            Plan::Scan(id) => {
                let r = *id < marks.len() && marks[*id];
                assert(forall|x: int| reads(*self, x) == (x == *id as int));
                if r {
                    assert(reads(*self, *id as int));
                }
                r
            },
            Plan::Filter(q, _, _) => {
                let r = q.reads_marked(marks);
                assert(forall|x: int| reads(*self, x) == reads(**q, x));
                r
            },
            Plan::Project(q, _) => {
                let r = q.reads_marked(marks);
                assert(forall|x: int| reads(*self, x) == reads(**q, x));
                r
            },
            Plan::Join(l, r, _) => {
                let a = l.reads_marked(marks);
                let b = r.reads_marked(marks);
                assert(forall|x: int| reads(*self, x) == (reads(**l, x) || reads(**r, x)));
                a || b
            },
            Plan::AntiJoin(l, r, _) => {
                let a = l.reads_marked(marks);
                let b = r.reads_marked(marks);
                assert(forall|x: int| reads(*self, x) == (reads(**l, x) || reads(**r, x)));
                a || b
            },
        }
    }

    /// Evaluates the plan on a database.
    pub fn run(&self, db: &Vec<TupleSet>) -> (r: Vec<Tuple>)
        ensures
            rows(r@) == eval(*self, db_view(db@)),
        decreases self,
    {
        match self {
            Plan::Scan(id) => {
                if *id < db.len() {
                    db[*id].enumerate()
                } else {
                    let r: Vec<Tuple> = Vec::new();
                    assert(rows(r@) =~= Set::<Seq<Val>>::empty());
                    r
                }
            },
            Plan::Filter(q, c, v) => run_filter(q.run(db), *c, v),
            Plan::Project(q, ts) => run_project(q.run(db), ts),
            Plan::Join(l, r, ks) => run_join(l.run(db), r.run(db), ks),
            Plan::AntiJoin(l, r, ks) => run_antijoin(l.run(db), r.run(db), ks),
        }
    }
}

} // verus!
