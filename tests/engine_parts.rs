use cocoon::delta::Accum;
use cocoon::engine::{Change, Engine, TxnError};
use cocoon::graph::{GraphError, RuleGraph, Variable};
use cocoon::plan::{Plan, Term};
use cocoon::processor::{Processor, Request, Response};
use cocoon::schema::{decode, Fact, PortType, Relation};
use cocoon::store::TupleSet;
use cocoon::uint::Uint;
use cocoon::value::{Tuple, Value};

fn t(xs: &[u64]) -> Tuple {
    xs.iter().map(|x| Value::Int(*x)).collect()
}

fn same_set(a: &[Tuple], b: &[Tuple]) -> bool {
    a.len() == b.len() && a.iter().all(|x| b.contains(x))
}

/// Base relations 0 (a, k) and 1 (k); derived 2 = 0 antijoin 1 on k,
/// derived 3 = 0 joined with 1 on k, projected to (a, 7).
fn small_graph(sync: bool) -> RuleGraph {
    let anti = Plan::AntiJoin(Box::new(Plan::Scan(0)), Box::new(Plan::Scan(1)), vec![(1, 0)]);
    let joined = Plan::Join(Box::new(Plan::Scan(0)), Box::new(Plan::Scan(1)), vec![(1, 0)]);
    let proj = Plan::Project(Box::new(joined), vec![Term::Col(0), Term::Lit(Value::Int(7))]);
    let defs = vec![Variable::from(anti), Variable::from(proj)];
    match RuleGraph::new(2, defs, vec![false, false, sync, sync]) {
        Ok(g) => g,
        Err(e) => panic!("{:?}", e),
    }
}

#[test]
fn antijoin_reacts_to_exclusion_keys() {
    let mut e = Engine::new(small_graph(true));
    e.insert(0, t(&[1, 5]));
    e.insert(0, t(&[2, 5]));
    e.insert(0, t(&[3, 6]));
    assert!(same_set(&e.enumerate(2), &[t(&[1, 5]), t(&[2, 5]), t(&[3, 6])]));
    assert_eq!(e.start(), Ok(()));
    e.insert(1, t(&[5]));
    assert!(same_set(&e.enumerate(2), &[t(&[3, 6])]));
    assert!(same_set(&e.enumerate(3), &[t(&[1, 7]), t(&[2, 7])]));
    let d = e.commit().unwrap();
    assert_eq!(d.len(), 4);
    assert!(d.contains(&Change { rel: 2, tuple: t(&[1, 5]), sign: -1 }));
    assert!(d.contains(&Change { rel: 2, tuple: t(&[2, 5]), sign: -1 }));
    assert!(d.contains(&Change { rel: 3, tuple: t(&[1, 7]), sign: 1 }));
    assert!(d.contains(&Change { rel: 3, tuple: t(&[2, 7]), sign: 1 }));
    assert_eq!(e.start(), Ok(()));
    e.delete(1, t(&[5]));
    assert!(same_set(&e.enumerate(2), &[t(&[1, 5]), t(&[2, 5]), t(&[3, 6])]));
    assert_eq!(e.enumerate(3), Vec::<Tuple>::new());
    let d = e.commit().unwrap();
    assert_eq!(d.len(), 4);
    assert!(d.contains(&Change { rel: 2, tuple: t(&[1, 5]), sign: 1 }));
    assert!(d.contains(&Change { rel: 3, tuple: t(&[2, 7]), sign: -1 }));
}

#[test]
fn unsynchronized_relations_emit_nothing() {
    let mut e = Engine::new(small_graph(false));
    assert_eq!(e.start(), Ok(()));
    assert!(e.insert(0, t(&[1, 5])));
    assert!(!e.insert(0, t(&[1, 5])));
    assert!(e.contains(2));
    assert_eq!(e.commit().unwrap(), vec![]);
}

#[test]
fn engine_transaction_errors() {
    let mut e = Engine::new(small_graph(true));
    assert_eq!(e.commit().err(), Some(TxnError::NoTransaction));
    assert_eq!(e.rollback(), Err(TxnError::NoTransaction));
    assert_eq!(e.start(), Ok(()));
    assert_eq!(e.start(), Err(TxnError::AlreadyInTransaction));
    assert!(e.insert(0, t(&[4, 4])));
    assert_eq!(e.rollback(), Ok(()));
    assert!(!e.contains(0));
    assert!(!e.contains(2));
}

#[test]
fn graph_wiring_is_checked() {
    let forward = Variable::from(Plan::Scan(3));
    match RuleGraph::new(2, vec![forward, Variable::from(Plan::Scan(0))], vec![false; 4]) {
        Err(GraphError::BadReference(k)) => assert_eq!(k, 0),
        _ => panic!("a rule reading a later relation must be refused"),
    }
    let selfref = Variable::from(Plan::Filter(Box::new(Plan::Scan(2)), 0, Value::Null));
    assert!(RuleGraph::new(2, vec![selfref], vec![false; 3]).is_ok());
    let beyond = Variable::from(Plan::Filter(Box::new(Plan::Scan(3)), 0, Value::Null));
    assert!(matches!(RuleGraph::new(2, vec![beyond], vec![false; 3]), Err(GraphError::BadReference(0))));
    assert!(matches!(RuleGraph::new(1, vec![Variable::from(Plan::Scan(0))], vec![false; 3]), Err(GraphError::BadSyncFlags)));
    let negated = Variable::from(Plan::AntiJoin(Box::new(Plan::Scan(0)), Box::new(Plan::Scan(2)), vec![(0, 0)]));
    assert!(matches!(RuleGraph::new(2, vec![negated], vec![false; 3]), Err(GraphError::NegatedSelf(0))));
    let mut idle = Variable::from(Plan::Scan(0));
    idle.rounds = 0;
    assert!(matches!(RuleGraph::new(2, vec![idle], vec![false; 3]), Err(GraphError::NoRounds(0))));
    let mut v = Variable::from(Plan::Scan(0));
    v.add(Plan::Scan(1));
    assert_eq!(v.rules.len(), 2);
    assert!(RuleGraph::new(2, vec![v], vec![false; 3]).is_ok());
}

#[test]
fn union_of_rules_is_deduplicated() {
    let mut v = Variable::from(Plan::Scan(0));
    v.add(Plan::Scan(1));
    let g = RuleGraph::new(2, vec![v], vec![false, false, true]).ok().unwrap();
    let mut e = Engine::new(g);
    e.insert(0, t(&[1]));
    e.insert(1, t(&[1]));
    e.insert(1, t(&[2]));
    assert!(same_set(&e.enumerate(2), &[t(&[1]), t(&[2])]));
    e.delete(0, t(&[1]));
    assert!(same_set(&e.enumerate(2), &[t(&[1]), t(&[2])]));
    e.delete(1, t(&[1]));
    assert!(same_set(&e.enumerate(2), &[t(&[2])]));
}

#[test]
fn filter_and_project_on_fields() {
    let keep = Plan::Filter(Box::new(Plan::Scan(0)), 1, Value::Bool(true));
    let proj = Plan::Project(Box::new(keep), vec![Term::Col(2), Term::Col(9), Term::Lit(Value::Text("x".to_string()))]);
    let g = RuleGraph::new(1, vec![Variable::from(proj)], vec![false, false]).ok().unwrap();
    let mut e = Engine::new(g);
    e.insert(0, vec![Value::Int(1), Value::Bool(true), Value::Text("a".to_string())]);
    e.insert(0, vec![Value::Int(2), Value::Bool(false), Value::Text("b".to_string())]);
    let out = e.enumerate(1);
    assert_eq!(out, vec![vec![Value::Text("a".to_string()), Value::Null, Value::Text("x".to_string())]]);
}

#[test]
fn tuple_set_operations() {
    let mut s = TupleSet::new();
    assert!(s.is_empty());
    assert!(s.insert(t(&[1, 2])));
    assert!(!s.insert(t(&[1, 2])));
    assert!(s.insert(t(&[2, 1])));
    assert_eq!(s.len(), 2);
    assert!(s.contains(&t(&[2, 1])));
    assert!(s.remove(&t(&[1, 2])));
    assert!(!s.remove(&t(&[1, 2])));
    assert!(!s.contains(&t(&[1, 2])));
    assert_eq!(s.enumerate(), vec![t(&[2, 1])]);
}

#[test]
fn accumulator_coalesces_signs() {
    let mut a = Accum::new();
    a.bump(t(&[1]), true);
    a.bump(t(&[1]), true);
    assert!(a.plus.contains(&t(&[1])));
    a.bump(t(&[1]), false);
    assert!(a.plus.is_empty() && a.minus.is_empty());
    a.bump(t(&[1]), false);
    a.bump(t(&[1]), false);
    assert!(a.minus.contains(&t(&[1])) && a.plus.is_empty());
    a.bump(t(&[1]), true);
    assert!(a.plus.is_empty() && a.minus.is_empty());
    a.bump(t(&[2]), true);
    a.clear();
    assert!(a.plus.is_empty());
}

fn digits(buf: &[u8], radix: u32) -> Vec<u32> {
    Uint::parse_bytes(buf, radix).digits
}

#[test]
fn uint_reads_numerals() {
    assert_eq!(digits(b"255", 10), vec![255]);
    assert_eq!(digits(b"ff", 16), vec![255]);
    assert_eq!(digits(b"FF", 16), vec![255]);
    assert_eq!(digits(b"+1_000", 10), vec![1000]);
    assert_eq!(digits(b"101", 2), vec![5]);
    assert_eq!(digits(b"0", 10), Vec::<u32>::new());
    assert_eq!(digits(b"ffffffffffffffffffffffffffffffff", 16), vec![u32::MAX; 4]);
    assert_eq!(digits(b"100000000000000000000000000000000", 16), vec![0, 0, 0, 0, 1]);
    assert_eq!(digits(b"4294967296", 10), vec![0, 1]);
    assert_eq!(Uint::try_parse_bytes(b"", 10), None);
    assert_eq!(Uint::try_parse_bytes(b"+", 10), None);
    assert_eq!(Uint::try_parse_bytes(b"++1", 10), None);
    assert_eq!(Uint::try_parse_bytes(b"_1", 10), None);
    assert_eq!(Uint::try_parse_bytes(b"12", 2), None);
    assert_eq!(Uint::try_parse_bytes(b"z", 36), Some(Uint { digits: vec![35] }));
    assert_eq!(Uint::default(), Uint { digits: vec![] });
}

/// A deterministic stream of pseudo-random numbers.
struct Lcg(u64);

impl Lcg {
    fn next(&mut self, n: u64) -> u64 {
        self.0 = self.0.wrapping_mul(6364136223846793005).wrapping_add(1442695040888963407);
        (self.0 >> 33) % n
    }
}

fn random_fact(r: &mut Lcg) -> Fact {
    match r.next(5) {
        0 => Fact::Chassis(r.next(3) as u32, r.next(2) == 0, "c".to_string(), "a".to_string()),
        1 => {
            let pt = match r.next(4) {
                0 => PortType::LPortVM,
                1 => PortType::LPortVIF { parent: r.next(4) },
                2 => PortType::LPortLocalnet,
                _ => PortType::LPortL2Gateway { chassis: r.next(3) as u32 },
            };
            Fact::LogicalSwitchPort(r.next(4), r.next(2), pt, "p".to_string(), r.next(3) != 0)
        }
        2 => Fact::VSwitchPort(r.next(3), "v".to_string(), r.next(3) as u32, 1),
        3 => Fact::LPortBinding(r.next(4), r.next(3)),
        _ => Fact::LogicalSwitch(r.next(2), "s".to_string()),
    }
}

fn enm(p: &mut Processor, r: Relation) -> Vec<Tuple> {
    match p.handle(Request::Enm(r)) {
        Response::Tuples(v) => v,
        other => panic!("{:?}", other),
    }
}

#[test]
fn incremental_matches_fresh_recomputation() {
    let mut rng = Lcg(42);
    let mut p = Processor::new();
    for step in 0..400 {
        let f = random_fact(&mut rng);
        let req = if rng.next(3) == 0 { Request::Del(f) } else { Request::Add(f) };
        assert_eq!(p.handle(req), Response::Unit);
        if step % 50 == 49 {
            let mut fresh = Processor::new();
            for r in [Relation::LogicalSwitch, Relation::Chassis, Relation::LogicalSwitchPort,
                      Relation::VSwitchPort, Relation::LPortBinding] {
                for tup in enm(&mut p, r) {
                    let f = decode(r.id(), &tup).unwrap();
                    assert_eq!(fresh.handle(Request::Add(f)), Response::Unit);
                }
            }
            for r in [Relation::TrunkPort, Relation::LPortAtChassis] {
                assert!(same_set(&enm(&mut p, r), &enm(&mut fresh, r)), "step {} {:?}", step, r);
            }
        }
    }
}

/// Base relation 0 holds edges; derived relation 1 is their transitive
/// closure, defined recursively.
fn closure_graph(rounds: usize) -> RuleGraph {
    let step = Plan::Join(Box::new(Plan::Scan(1)), Box::new(Plan::Scan(0)), vec![(1, 0)]);
    let mut v = Variable::from(Plan::Scan(0));
    v.add(Plan::Project(Box::new(step), vec![Term::Col(0), Term::Col(3)]));
    v.rounds = rounds;
    RuleGraph::new(1, vec![v], vec![false, true]).ok().unwrap()
}

#[test]
fn recursive_definition_reaches_its_fixpoint() {
    let mut e = Engine::new(closure_graph(usize::MAX));
    e.insert(0, t(&[1, 2]));
    e.insert(0, t(&[2, 3]));
    e.insert(0, t(&[3, 4]));
    let all = [t(&[1, 2]), t(&[2, 3]), t(&[3, 4]), t(&[1, 3]), t(&[2, 4]), t(&[1, 4])];
    assert!(same_set(&e.enumerate(1), &all));
    assert_eq!(e.start(), Ok(()));
    e.delete(0, t(&[2, 3]));
    assert!(same_set(&e.enumerate(1), &[t(&[1, 2]), t(&[3, 4])]));
    let d = e.commit().unwrap();
    assert_eq!(d.len(), 4);
    assert!(d.iter().all(|c| c.rel == 1 && c.sign == -1));
    e.insert(0, t(&[4, 1]));
    e.insert(0, t(&[2, 3]));
    assert_eq!(e.enumerate(1).len(), 16);
}

#[test]
fn recursion_stops_after_its_rounds() {
    let mut e = Engine::new(closure_graph(1));
    e.insert(0, t(&[1, 2]));
    e.insert(0, t(&[2, 3]));
    assert!(same_set(&e.enumerate(1), &[t(&[1, 2]), t(&[2, 3])]));
    let mut e = Engine::new(closure_graph(2));
    e.insert(0, t(&[1, 2]));
    e.insert(0, t(&[2, 3]));
    e.insert(0, t(&[3, 4]));
    assert!(same_set(&e.enumerate(1), &[t(&[1, 2]), t(&[2, 3]), t(&[3, 4]), t(&[1, 3]), t(&[2, 4])]));
}

#[test]
fn realized_snapshot_moves_at_commit_only() {
    let mut e = Engine::new(small_graph(true));
    assert_eq!(e.start(), Ok(()));
    e.insert(0, t(&[1, 5]));
    assert_eq!(e.enumerate_realized(2), Vec::<Tuple>::new());
    assert_eq!(e.commit().unwrap().len(), 1);
    assert_eq!(e.enumerate_realized(2), vec![t(&[1, 5])]);
    assert_eq!(e.start(), Ok(()));
    e.insert(1, t(&[5]));
    assert_eq!(e.enumerate(2), Vec::<Tuple>::new());
    assert_eq!(e.rollback(), Ok(()));
    assert_eq!(e.enumerate_realized(2), vec![t(&[1, 5])]);
    assert_eq!(e.enumerate(2), vec![t(&[1, 5])]);
    assert_eq!(e.enumerate(1), Vec::<Tuple>::new());
}

#[test]
fn recursive_maintenance_matches_fresh_evaluation() {
    let mut rng = Lcg(7);
    let mut e = Engine::new(closure_graph(usize::MAX));
    for step in 0..300 {
        let edge = t(&[rng.next(6), rng.next(6)]);
        if rng.next(3) == 0 {
            e.delete(0, edge);
        } else {
            e.insert(0, edge);
        }
        if step % 30 == 29 {
            let mut fresh = Engine::new(closure_graph(usize::MAX));
            for edge in e.enumerate(0) {
                fresh.insert(0, edge);
            }
            assert!(same_set(&e.enumerate(1), &fresh.enumerate(1)), "step {}", step);
        }
    }
}

#[test]
fn uint_arithmetic() {
    let a = Uint::parse_bytes(b"100000000000000000000000000000000", 16);
    let one = Uint::parse_bytes(b"1", 10);
    let seven = Uint::parse_bytes(b"7", 10);
    assert_eq!(a.sub(&one).digits, vec![u32::MAX; 4]);
    assert_eq!(a.sub(&one).add(&one), a);
    assert_eq!(a.shr(128).digits, vec![1]);
    assert_eq!(one.shl(64).digits, vec![0, 0, 1]);
    assert_eq!(Uint::parse_bytes(b"100", 10).div(&seven).digits, vec![14]);
    assert_eq!(Uint::parse_bytes(b"100", 10).rem(&seven).digits, vec![2]);
    assert_eq!(seven.sub(&seven).digits, Vec::<u32>::new());
}
