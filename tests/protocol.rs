use cocoon::engine::Change;
use cocoon::processor::{Processor, Request, RequestError, Response};
use cocoon::schema::{decode, Fact, PortType, Relation, REL_PORT_AT_CHASSIS};
use cocoon::value::{Tuple, Value};

fn processor() -> Processor {
    Processor::new()
}

fn ok(p: &mut Processor, req: Request) {
    assert_eq!(p.handle(req), Response::Unit);
}

fn commit(p: &mut Processor) -> Vec<Change> {
    match p.handle(Request::Commit) {
        Response::Delta(d) => d,
        other => panic!("commit failed: {:?}", other),
    }
}

fn tuples(p: &mut Processor, r: Relation) -> Vec<Tuple> {
    match p.handle(Request::Enm(r)) {
        Response::Tuples(v) => v,
        other => panic!("enm failed: {:?}", other),
    }
}

fn same_set(a: &[Tuple], b: &[Tuple]) -> bool {
    a.len() == b.len() && a.iter().all(|t| b.contains(t))
}

fn placement(lp: u64, sw: u64, ch: u64, fl: bool) -> Tuple {
    vec![Value::Int(lp), Value::Int(sw), Value::Int(ch), Value::Bool(fl)]
}

fn chassis(id: u32, gw: bool) -> Fact {
    Fact::Chassis(id, gw, format!("chassis{}", id), format!("10.0.0.{}", id))
}

fn vm_port(id: u64, sw: u64) -> Fact {
    Fact::LogicalSwitchPort(id, sw, PortType::LPortVM, format!("port{}", id), true)
}

const ALL: [Relation; 7] = [
    Relation::LogicalSwitch,
    Relation::Chassis,
    Relation::LogicalSwitchPort,
    Relation::VSwitchPort,
    Relation::LPortBinding,
    Relation::TrunkPort,
    Relation::LPortAtChassis,
];

#[test]
fn port_binding_scenario() {
    let mut p = processor();
    ok(&mut p, Request::Start);
    ok(&mut p, Request::Add(chassis(1, false)));
    ok(&mut p, Request::Add(chassis(2, true)));
    ok(&mut p, Request::Add(Fact::LogicalSwitch(10, "S".to_string())));
    ok(&mut p, Request::Add(vm_port(100, 10)));
    ok(&mut p, Request::Add(Fact::VSwitchPort(1000, "vif1".to_string(), 1, 7)));
    ok(&mut p, Request::Add(Fact::LPortBinding(100, 1000)));
    let d = commit(&mut p);
    assert_eq!(d.len(), 1);
    assert_eq!(d[0], Change { rel: REL_PORT_AT_CHASSIS, tuple: placement(100, 10, 1, false), sign: 1 });
    assert_eq!(decode(d[0].rel, &d[0].tuple), Some(Fact::LPortAtChassis(100, 10, 1, false)));
    assert!(!d.iter().any(|c| c.tuple.get(2) == Some(&Value::Int(2))));

    ok(&mut p, Request::Start);
    ok(&mut p, Request::Del(Fact::LPortBinding(100, 1000)));
    let d = commit(&mut p);
    assert_eq!(d, vec![Change { rel: REL_PORT_AT_CHASSIS, tuple: placement(100, 10, 1, false), sign: -1 }]);
}

#[test]
fn insert_then_delete_nets_to_nothing() {
    let mut p = processor();
    ok(&mut p, Request::Add(chassis(1, false)));
    ok(&mut p, Request::Add(vm_port(100, 10)));
    ok(&mut p, Request::Add(Fact::VSwitchPort(1000, "v".to_string(), 1, 1)));
    ok(&mut p, Request::Start);
    ok(&mut p, Request::Add(Fact::LPortBinding(100, 1000)));
    ok(&mut p, Request::Del(Fact::LPortBinding(100, 1000)));
    assert_eq!(commit(&mut p), vec![]);
}

#[test]
fn commit_delta_is_net_change_since_start() {
    let mut p = processor();
    ok(&mut p, Request::Add(chassis(1, false)));
    ok(&mut p, Request::Add(chassis(2, false)));
    ok(&mut p, Request::Add(vm_port(100, 10)));
    ok(&mut p, Request::Add(Fact::VSwitchPort(1000, "a".to_string(), 1, 1)));
    ok(&mut p, Request::Add(Fact::VSwitchPort(2000, "b".to_string(), 2, 1)));
    ok(&mut p, Request::Add(Fact::LPortBinding(100, 1000)));
    ok(&mut p, Request::Start);
    // Move the port from chassis 1 to chassis 2, with a detour.
    ok(&mut p, Request::Del(Fact::LPortBinding(100, 1000)));
    ok(&mut p, Request::Add(Fact::LPortBinding(100, 1000)));
    ok(&mut p, Request::Del(Fact::LPortBinding(100, 1000)));
    ok(&mut p, Request::Add(Fact::LPortBinding(100, 2000)));
    let d = commit(&mut p);
    assert_eq!(d.len(), 2);
    assert!(d.contains(&Change { rel: REL_PORT_AT_CHASSIS, tuple: placement(100, 10, 1, false), sign: -1 }));
    assert!(d.contains(&Change { rel: REL_PORT_AT_CHASSIS, tuple: placement(100, 10, 2, false), sign: 1 }));
}

#[test]
fn rollback_restores_every_relation() {
    let mut p = processor();
    ok(&mut p, Request::Add(chassis(1, false)));
    ok(&mut p, Request::Add(vm_port(100, 10)));
    ok(&mut p, Request::Add(Fact::VSwitchPort(1000, "a".to_string(), 1, 1)));
    ok(&mut p, Request::Add(Fact::LPortBinding(100, 1000)));
    let before: Vec<Vec<Tuple>> = ALL.iter().map(|r| tuples(&mut p, *r)).collect();
    ok(&mut p, Request::Start);
    ok(&mut p, Request::Del(Fact::LPortBinding(100, 1000)));
    ok(&mut p, Request::Add(chassis(3, false)));
    ok(&mut p, Request::Add(Fact::LogicalSwitchPort(101, 10, PortType::LPortVIF { parent: 100 }, "c".to_string(), true)));
    ok(&mut p, Request::Add(Fact::LogicalSwitchPort(102, 10, PortType::LPortLocalnet, "ln".to_string(), true)));
    assert!(!same_set(&tuples(&mut p, Relation::LPortAtChassis), &before[6]));
    ok(&mut p, Request::Rollback);
    for (i, r) in ALL.iter().enumerate() {
        assert!(same_set(&tuples(&mut p, *r), &before[i]), "relation {:?} differs", r);
    }
    ok(&mut p, Request::Start);
    assert_eq!(commit(&mut p), vec![]);
}

#[test]
fn repeated_edits_are_silent() {
    let mut p = processor();
    ok(&mut p, Request::Add(chassis(1, false)));
    ok(&mut p, Request::Add(vm_port(100, 10)));
    ok(&mut p, Request::Add(Fact::VSwitchPort(1000, "a".to_string(), 1, 1)));
    ok(&mut p, Request::Add(Fact::LPortBinding(100, 1000)));
    let before: Vec<Vec<Tuple>> = ALL.iter().map(|r| tuples(&mut p, *r)).collect();
    ok(&mut p, Request::Start);
    ok(&mut p, Request::Add(Fact::LPortBinding(100, 1000)));
    ok(&mut p, Request::Add(chassis(1, false)));
    ok(&mut p, Request::Del(Fact::LPortBinding(5, 6)));
    ok(&mut p, Request::Del(chassis(9, true)));
    assert_eq!(commit(&mut p), vec![]);
    for (i, r) in ALL.iter().enumerate() {
        assert!(same_set(&tuples(&mut p, *r), &before[i]));
    }
}

#[test]
fn trunk_exclusion_follows_nested_interfaces() {
    let mut p = processor();
    ok(&mut p, Request::Add(chassis(1, false)));
    ok(&mut p, Request::Add(vm_port(100, 10)));
    ok(&mut p, Request::Add(Fact::VSwitchPort(1000, "a".to_string(), 1, 1)));
    ok(&mut p, Request::Add(Fact::LPortBinding(100, 1000)));
    assert!(same_set(&tuples(&mut p, Relation::LPortAtChassis), &[placement(100, 10, 1, false)]));
    // A nested interface makes port 100 a trunk: it leaves the antijoin, and
    // the interface is placed where its parent is bound.
    let vif = Fact::LogicalSwitchPort(101, 10, PortType::LPortVIF { parent: 100 }, "c".to_string(), true);
    ok(&mut p, Request::Add(vif.clone()));
    assert!(same_set(&tuples(&mut p, Relation::TrunkPort), &[vec![Value::Int(100)]]));
    assert!(same_set(&tuples(&mut p, Relation::LPortAtChassis), &[placement(101, 10, 1, false)]));
    // Removing the only interface makes port 100 reappear.
    ok(&mut p, Request::Del(vif));
    assert_eq!(tuples(&mut p, Relation::TrunkPort), Vec::<Tuple>::new());
    assert!(same_set(&tuples(&mut p, Relation::LPortAtChassis), &[placement(100, 10, 1, false)]));
}

#[test]
fn localnet_ports_float_on_non_gateway_chassis() {
    let mut p = processor();
    ok(&mut p, Request::Add(chassis(1, false)));
    ok(&mut p, Request::Add(chassis(2, true)));
    ok(&mut p, Request::Add(chassis(3, false)));
    ok(&mut p, Request::Add(Fact::LogicalSwitchPort(7, 10, PortType::LPortLocalnet, "ln".to_string(), true)));
    ok(&mut p, Request::Add(Fact::LogicalSwitchPort(8, 10, PortType::LPortLocalnet, "off".to_string(), false)));
    ok(&mut p, Request::Add(Fact::LogicalSwitchPort(9, 11, PortType::LPortL2Gateway { chassis: 2 }, "gw".to_string(), true)));
    let got = tuples(&mut p, Relation::LPortAtChassis);
    assert!(same_set(&got, &[placement(7, 10, 1, true), placement(7, 10, 3, true), placement(9, 11, 2, false)]));
}

#[test]
fn transaction_state_errors() {
    let mut p = processor();
    assert_eq!(p.handle(Request::Commit), Response::Refused(RequestError::NoTransaction));
    assert_eq!(p.handle(Request::Rollback), Response::Refused(RequestError::NoTransaction));
    ok(&mut p, Request::Start);
    assert_eq!(p.handle(Request::Start), Response::Refused(RequestError::AlreadyInTransaction));
    assert_eq!(commit(&mut p), vec![]);
    assert_eq!(p.handle(Request::Commit), Response::Refused(RequestError::NoTransaction));
}

#[test]
fn derived_relations_cannot_be_edited() {
    let mut p = processor();
    assert_eq!(p.handle(Request::Add(Fact::TrunkPort(1))), Response::Refused(RequestError::DerivedRelation));
    assert_eq!(p.handle(Request::Del(Fact::LPortAtChassis(1, 2, 3, false))), Response::Refused(RequestError::DerivedRelation));
    assert_eq!(p.handle(Request::Chk(Relation::TrunkPort)), Response::Bool(false));
    assert_eq!(RequestError::DerivedRelation.message(), "derived relations cannot be edited");
    assert_eq!(RequestError::NoTransaction.message(), "no transaction in progress");
    assert_eq!(RequestError::AlreadyInTransaction.message(), "transaction already in progress");
}

#[test]
fn chk_reports_non_emptiness() {
    let mut p = processor();
    assert_eq!(p.handle(Request::Chk(Relation::Chassis)), Response::Bool(false));
    ok(&mut p, Request::Add(chassis(1, false)));
    assert_eq!(p.handle(Request::Chk(Relation::Chassis)), Response::Bool(true));
    ok(&mut p, Request::Del(chassis(1, false)));
    assert_eq!(p.handle(Request::Chk(Relation::Chassis)), Response::Bool(false));
}

#[test]
fn encode_decode_round_trip() {
    let facts = vec![
        Fact::LogicalSwitch(3, "sw".to_string()),
        chassis(4, true),
        Fact::LogicalSwitchPort(5, 3, PortType::LPortVIF { parent: 9 }, "p".to_string(), false),
        Fact::LogicalSwitchPort(6, 3, PortType::LPortL2Gateway { chassis: 4 }, "g".to_string(), true),
        Fact::LogicalSwitchPort(7, 3, PortType::LPortVM, "v".to_string(), true),
        Fact::LogicalSwitchPort(8, 3, PortType::LPortLocalnet, "l".to_string(), true),
        Fact::VSwitchPort(1, "x".to_string(), 4, 65535),
        Fact::LPortBinding(5, 1),
        Fact::TrunkPort(9),
        Fact::LPortAtChassis(5, 3, 4, true),
    ];
    for f in facts {
        let (rel, t) = f.encode();
        assert_eq!(decode(rel, &t), Some(f));
    }
    assert_eq!(decode(1, &vec![Value::Int(1u64 << 40), Value::Bool(true), Value::Null, Value::Null]), None);
    assert_eq!(decode(0, &vec![Value::Int(1)]), None);
}
