//! A representative network schema: typed facts, relation names, and the
//! rules that derive port placement.
use vstd::prelude::*;
use crate::value::{Value, Tuple, Val, tv, field};
use crate::plan::{Plan, Term, Db, eval, rel_of, filter_set, project_set, join_set, antijoin_set,
    project, keys_match, top_read, lemma_top_read};
use crate::graph::{rules_below, def_eval, var_eval, lemma_fix_once, def_wf, lemma_below_monotone};
use crate::graph::{Variable, RuleGraph, GraphError};

verus! {

/// The kind of a logical switch port.
#[derive(Debug, Clone, PartialEq, Eq, Hash)]
pub enum PortType {
    /// A port of a virtual machine.
    LPortVM,
    /// A container interface nested in the port `parent`.
    LPortVIF { parent: u64 },
    /// A port onto a physical network, present on every non-gateway chassis.
    LPortLocalnet,
    /// A layer-2 gateway port pinned to one chassis.
    LPortL2Gateway { chassis: u32 },
}

/// One fact of one relation.
#[derive(Debug, Clone, PartialEq, Eq, Hash)]
pub enum Fact {
    /// id, name.
    LogicalSwitch(u64, String),
    /// id, is-gateway, name, address.
    Chassis(u32, bool, String, String),
    /// id, switch, kind, name, enabled.
    LogicalSwitchPort(u64, u64, PortType, String, bool),
    /// id, name, chassis, OpenFlow port.
    VSwitchPort(u64, String, u32, u16),
    /// logical port, virtual switch port.
    LPortBinding(u64, u64),
    /// A port that has nested container interfaces.
    TrunkPort(u64),
    /// logical port, switch, chassis, whether the port floats.
    LPortAtChassis(u64, u64, u32, bool),
}

/// The name of a relation.
#[derive(Debug, Clone, Copy, PartialEq, Eq, Hash)]
pub enum Relation {
    LogicalSwitch,
    Chassis,
    LogicalSwitchPort,
    VSwitchPort,
    LPortBinding,
    TrunkPort,
    LPortAtChassis,
}

/// Number of base relations; the derived ones follow them.
pub const N_BASE: usize = 5;
pub const REL_LOGICAL_SWITCH: usize = 0;
pub const REL_CHASSIS: usize = 1;
pub const REL_PORT: usize = 2;
pub const REL_VSWITCH_PORT: usize = 3;
pub const REL_BINDING: usize = 4;
pub const REL_TRUNK_PORT: usize = 5;
pub const REL_PORT_AT_CHASSIS: usize = 6;

pub const TAG_VM: u64 = 0;
pub const TAG_VIF: u64 = 1;
pub const TAG_LOCALNET: u64 = 2;
pub const TAG_L2GATEWAY: u64 = 3;

pub open spec fn port_tag(p: PortType) -> u64 {
    match p {
        PortType::LPortVM => TAG_VM,
        PortType::LPortVIF { .. } => TAG_VIF,
        PortType::LPortLocalnet => TAG_LOCALNET,
        PortType::LPortL2Gateway { .. } => TAG_L2GATEWAY,
    }
}

pub open spec fn port_arg(p: PortType) -> u64 {
    match p {
        PortType::LPortVIF { parent } => parent,
        PortType::LPortL2Gateway { chassis } => chassis as u64,
        _ => 0,
    }
}

/// The relation a fact belongs to.
pub open spec fn fact_rel(f: Fact) -> int {
    match f {
        Fact::LogicalSwitch(..) => REL_LOGICAL_SWITCH as int,
        Fact::Chassis(..) => REL_CHASSIS as int,
        Fact::LogicalSwitchPort(..) => REL_PORT as int,
        Fact::VSwitchPort(..) => REL_VSWITCH_PORT as int,
        Fact::LPortBinding(..) => REL_BINDING as int,
        Fact::TrunkPort(..) => REL_TRUNK_PORT as int,
        Fact::LPortAtChassis(..) => REL_PORT_AT_CHASSIS as int,
    }
}

/// The tuple a fact is stored as. A port's kind takes two fields: a tag and
/// the kind's argument (zero when it has none).
pub open spec fn fact_tuple(f: Fact) -> Seq<Val> {
    match f {
        Fact::LogicalSwitch(id, name) => seq![Val::Int(id), Val::Text(name@)],
        Fact::Chassis(id, gw, name, addr) => seq![Val::Int(id as u64), Val::Bool(gw), Val::Text(name@), Val::Text(addr@)],
        Fact::LogicalSwitchPort(id, sw, pt, name, en) => seq![Val::Int(id), Val::Int(sw),
            Val::Int(port_tag(pt)), Val::Int(port_arg(pt)), Val::Text(name@), Val::Bool(en)],
        Fact::VSwitchPort(id, name, ch, ofp) => seq![Val::Int(id), Val::Text(name@), Val::Int(ch as u64), Val::Int(ofp as u64)],
        Fact::LPortBinding(lp, vp) => seq![Val::Int(lp), Val::Int(vp)],
        Fact::TrunkPort(lp) => seq![Val::Int(lp)],
        Fact::LPortAtChassis(lp, sw, ch, fl) => seq![Val::Int(lp), Val::Int(sw), Val::Int(ch as u64), Val::Bool(fl)],
    }
}

/// The index of a relation.
pub open spec fn relation_id(r: Relation) -> int {
    match r {
        Relation::LogicalSwitch => REL_LOGICAL_SWITCH as int,
        Relation::Chassis => REL_CHASSIS as int,
        Relation::LogicalSwitchPort => REL_PORT as int,
        Relation::VSwitchPort => REL_VSWITCH_PORT as int,
        Relation::LPortBinding => REL_BINDING as int,
        Relation::TrunkPort => REL_TRUNK_PORT as int,
        Relation::LPortAtChassis => REL_PORT_AT_CHASSIS as int,
    }
}

impl Relation {
    /// The index of the relation.
    pub fn id(&self) -> (r: usize)
        ensures
            r == relation_id(*self),
    {
        match self {
            Relation::LogicalSwitch => REL_LOGICAL_SWITCH,
            Relation::Chassis => REL_CHASSIS,
            Relation::LogicalSwitchPort => REL_PORT,
            Relation::VSwitchPort => REL_VSWITCH_PORT,
            Relation::LPortBinding => REL_BINDING,
            Relation::TrunkPort => REL_TRUNK_PORT,
            Relation::LPortAtChassis => REL_PORT_AT_CHASSIS,
        }
    }
}

fn int_value(n: u64) -> (r: Value)
    ensures
        r@ == Val::Int(n),
{
    Value::Int(n)
}

fn text(s: &String) -> (r: Value)
    ensures
        r@ == Val::Text(s@),
{
    Value::Text(s.clone())
}

impl Fact {
    /// The relation index and tuple of the fact.
    pub fn encode(&self) -> (r: (usize, Tuple))
        ensures
            r.0 == fact_rel(*self),
            tv(r.1) == fact_tuple(*self),
    {
        let (rel, t): (usize, Tuple) = match self {
            Fact::LogicalSwitch(id, name) => (REL_LOGICAL_SWITCH, vec![int_value(*id), text(name)]),
            Fact::Chassis(id, gw, name, addr) => (REL_CHASSIS, vec![int_value(*id as u64), Value::Bool(*gw), text(name), text(addr)]),
            Fact::LogicalSwitchPort(id, sw, pt, name, en) => {
                let (tag, arg): (u64, u64) = match pt {
                    PortType::LPortVM => (TAG_VM, 0),
                    PortType::LPortVIF { parent } => (TAG_VIF, *parent),
                    PortType::LPortLocalnet => (TAG_LOCALNET, 0),
                    PortType::LPortL2Gateway { chassis } => (TAG_L2GATEWAY, *chassis as u64),
                };
                (REL_PORT, vec![int_value(*id), int_value(*sw), int_value(tag), int_value(arg), text(name), Value::Bool(*en)])
            },
            Fact::VSwitchPort(id, name, ch, ofp) => (REL_VSWITCH_PORT, vec![int_value(*id), text(name), int_value(*ch as u64), int_value(*ofp as u64)]),
            Fact::LPortBinding(lp, vp) => (REL_BINDING, vec![int_value(*lp), int_value(*vp)]),
            Fact::TrunkPort(lp) => (REL_TRUNK_PORT, vec![int_value(*lp)]),
            Fact::LPortAtChassis(lp, sw, ch, fl) => (REL_PORT_AT_CHASSIS, vec![int_value(*lp), int_value(*sw), int_value(*ch as u64), Value::Bool(*fl)]),
        };
        assert(tv(t) =~= fact_tuple(*self));
        (rel, t)
    }
}

/// Every base relation holds only tuples of its shape.
pub open spec fn base_shaped(db: Db) -> bool {
    &&& db.len() >= N_BASE
    &&& forall|r: int, t: Seq<Val>| 0 <= r < N_BASE && #[trigger] db[r].contains(t) ==> tuple_shape(r, t)
}

/// `p` is a switch port of the kind tagged `tag`.
pub open spec fn is_port(db: Db, p: Seq<Val>, tag: u64) -> bool {
    db[REL_PORT as int].contains(p) && field(p, 2) == Val::Int(tag)
}

/// `p` is an enabled switch port of the kind tagged `tag`.
pub open spec fn enabled(db: Db, p: Seq<Val>, tag: u64) -> bool {
    is_port(db, p, tag) && field(p, 5) == Val::Bool(true)
}

/// Port `lp` is a trunk port.
pub open spec fn trunk(db: Db, lp: Val) -> bool {
    exists|tr: Seq<Val>| rel_of(db, REL_TRUNK_PORT as int).contains(tr) && field(tr, 0) == lp
}

/// Port `lp` is bound to a virtual switch port on chassis `ch`.
pub open spec fn bound_at(db: Db, lp: Val, ch: Val) -> bool {
    exists|b: Seq<Val>, v: Seq<Val>|
        db[REL_BINDING as int].contains(b) && db[REL_VSWITCH_PORT as int].contains(v)
            && field(b, 0) == lp && field(v, 0) == field(b, 1) && field(v, 2) == ch
}

/// A placement row: port, switch, chassis, floating.
pub open spec fn place_row(p: Seq<Val>, ch: Val, floating: bool) -> Seq<Val> {
    seq![field(p, 0), field(p, 1), ch, Val::Bool(floating)]
}

/// An enabled VM port that is no trunk sits where it is bound.
pub open spec fn vm_placed(db: Db) -> Set<Seq<Val>> {
    Set::new(|x: Seq<Val>| exists|p: Seq<Val>, ch: Val|
        enabled(db, p, TAG_VM) && !trunk(db, field(p, 0)) && bound_at(db, field(p, 0), ch) && x == place_row(p, ch, false))
}

/// An enabled nested interface sits where its VM parent is bound.
pub open spec fn vif_placed(db: Db) -> Set<Seq<Val>> {
    Set::new(|x: Seq<Val>| exists|p: Seq<Val>, q: Seq<Val>, ch: Val|
        enabled(db, p, TAG_VIF) && is_port(db, q, TAG_VM) && field(q, 0) == field(p, 3)
            && bound_at(db, field(p, 3), ch) && x == place_row(p, ch, false))
}

/// An enabled localnet port floats on every non-gateway chassis.
pub open spec fn localnet_placed(db: Db) -> Set<Seq<Val>> {
    Set::new(|x: Seq<Val>| exists|c: Seq<Val>, p: Seq<Val>|
        db[REL_CHASSIS as int].contains(c) && field(c, 1) == Val::Bool(false)
            && enabled(db, p, TAG_LOCALNET) && x == place_row(p, field(c, 0), true))
}

/// An enabled layer-2 gateway port sits on its own chassis.
pub open spec fn gateway_placed(db: Db) -> Set<Seq<Val>> {
    Set::new(|x: Seq<Val>| exists|p: Seq<Val>| enabled(db, p, TAG_L2GATEWAY) && x == place_row(p, field(p, 3), false))
}

/// Where every port sits.
pub open spec fn placement(db: Db) -> Set<Seq<Val>> {
    vm_placed(db).union(vif_placed(db)).union(localnet_placed(db)).union(gateway_placed(db))
}

/// The parent of every nested interface.
pub open spec fn trunk_ports(db: Db) -> Set<Seq<Val>> {
    Set::new(|x: Seq<Val>| exists|p: Seq<Val>| is_port(db, p, TAG_VIF) && x == seq![field(p, 3)])
}

proof fn lemma_key(a: Seq<Val>, b: Seq<Val>, i: usize, j: usize)
    ensures
        keys_match(a, b, seq![(i, j)]) == (field(a, i as int) == field(b, j as int)),
{
    if field(a, i as int) == field(b, j as int) {
        assert forall|k: int| 0 <= k < 1 implies field(a, seq![(i, j)][k].0 as int) == field(b, seq![(i, j)][k].1 as int) by {
            assert(seq![(i, j)][k] == (i, j));
        }
    } else {
        assert(seq![(i, j)][0] == (i, j));
    }
}

proof fn lemma_row(z: Seq<Val>, a: usize, b: usize, c: usize, fl: bool)
    ensures
        project(z, place_terms(a, b, c, fl)) == seq![field(z, a as int), field(z, b as int), field(z, c as int), Val::Bool(fl)],
{
    assert(project(z, place_terms(a, b, c, fl)) =~= seq![field(z, a as int), field(z, b as int), field(z, c as int), Val::Bool(fl)]);
}

/// The enabled ports of one kind, as the plans select them.
pub open spec fn enabled_set(db: Db, tag: u64) -> Set<Seq<Val>> {
    filter_set(filter_set(rel_of(db, REL_PORT as int), 2, Val::Int(tag)), 5, Val::Bool(true))
}

proof fn lemma_gateway(db: Db)
    requires
        base_shaped(db),
    ensures
        project_set(enabled_set(db, TAG_L2GATEWAY), place_terms(0, 1, 3, false)) == gateway_placed(db),
{
    let e = enabled_set(db, TAG_L2GATEWAY);
    let ts = place_terms(0, 1, 3, false);
    assert forall|x: Seq<Val>| project_set(e, ts).contains(x) implies gateway_placed(db).contains(x) by {
        let z = choose|z: Seq<Val>| e.contains(z) && project(z, ts) == x;
        lemma_row(z, 0, 1, 3, false);
        assert(enabled(db, z, TAG_L2GATEWAY) && x == place_row(z, field(z, 3), false));
    }
    assert forall|x: Seq<Val>| gateway_placed(db).contains(x) implies project_set(e, ts).contains(x) by {
        let p = choose|p: Seq<Val>| enabled(db, p, TAG_L2GATEWAY) && x == place_row(p, field(p, 3), false);
        lemma_row(p, 0, 1, 3, false);
        assert(e.contains(p) && project(p, ts) == x);
    }
    assert(project_set(e, ts) =~= gateway_placed(db));
}

proof fn lemma_localnet(db: Db)
    requires
        base_shaped(db),
    ensures
        project_set(join_set(filter_set(rel_of(db, REL_CHASSIS as int), 1, Val::Bool(false)),
            enabled_set(db, TAG_LOCALNET), Seq::<(usize, usize)>::empty()), place_terms(4, 5, 0, true))
            == localnet_placed(db),
{
    let ch = filter_set(rel_of(db, REL_CHASSIS as int), 1, Val::Bool(false));
    let e = enabled_set(db, TAG_LOCALNET);
    let ks = Seq::<(usize, usize)>::empty();
    let j = join_set(ch, e, ks);
    let ts = place_terms(4, 5, 0, true);
    assert forall|x: Seq<Val>| project_set(j, ts).contains(x) implies localnet_placed(db).contains(x) by {
        let z = choose|z: Seq<Val>| j.contains(z) && project(z, ts) == x;
        let (c, p) = choose|c: Seq<Val>, p: Seq<Val>| ch.contains(c) && e.contains(p) && keys_match(c, p, ks) && z == c + p;
        assert(tuple_shape(REL_CHASSIS as int, c));
        lemma_row(z, 4, 5, 0, true);
        assert(x == place_row(p, field(c, 0), true));
    }
    assert forall|x: Seq<Val>| localnet_placed(db).contains(x) implies project_set(j, ts).contains(x) by {
        let (c, p) = choose|c: Seq<Val>, p: Seq<Val>| db[REL_CHASSIS as int].contains(c) && field(c, 1) == Val::Bool(false)
            && enabled(db, p, TAG_LOCALNET) && x == place_row(p, field(c, 0), true);
        assert(tuple_shape(REL_CHASSIS as int, c));
        assert(keys_match(c, p, ks));
        let z = c + p;
        assert(j.contains(z));
        lemma_row(z, 4, 5, 0, true);
        assert(project(z, ts) =~= x);
    }
    assert(project_set(j, ts) =~= localnet_placed(db));
}

proof fn lemma_trunks(db: Db)
    requires
        base_shaped(db),
    ensures
        project_set(filter_set(rel_of(db, REL_PORT as int), 2, Val::Int(TAG_VIF)), seq![Term::Col(3)]) == trunk_ports(db),
{
    let f = filter_set(rel_of(db, REL_PORT as int), 2, Val::Int(TAG_VIF));
    let ts = seq![Term::Col(3)];
    assert forall|z: Seq<Val>| #[trigger] project(z, ts) == seq![field(z, 3)] by {
        assert(project(z, ts) =~= seq![field(z, 3)]);
    }
    assert forall|x: Seq<Val>| project_set(f, ts).contains(x) implies trunk_ports(db).contains(x) by {
        let z = choose|z: Seq<Val>| f.contains(z) && project(z, ts) == x;
        assert(is_port(db, z, TAG_VIF) && x == seq![field(z, 3)]);
    }
    assert forall|x: Seq<Val>| trunk_ports(db).contains(x) implies project_set(f, ts).contains(x) by {
        let p = choose|p: Seq<Val>| is_port(db, p, TAG_VIF) && x == seq![field(p, 3)];
        assert(f.contains(p) && project(p, ts) == x);
    }
    assert(project_set(f, ts) =~= trunk_ports(db));
}

proof fn lemma_vm(db: Db)
    requires
        base_shaped(db),
    ensures
        project_set(join_set(join_set(antijoin_set(enabled_set(db, TAG_VM), rel_of(db, REL_TRUNK_PORT as int), seq![(0usize, 0usize)]),
            rel_of(db, REL_BINDING as int), seq![(0usize, 0usize)]), rel_of(db, REL_VSWITCH_PORT as int), seq![(7usize, 0usize)]),
            place_terms(0, 1, 10, false)) == vm_placed(db),
{
    let k0 = seq![(0usize, 0usize)];
    let k7 = seq![(7usize, 0usize)];
    let f = enabled_set(db, TAG_VM);
    let tr = rel_of(db, REL_TRUNK_PORT as int);
    let bs = rel_of(db, REL_BINDING as int);
    let vs = rel_of(db, REL_VSWITCH_PORT as int);
    let a = antijoin_set(f, tr, k0);
    let j1 = join_set(a, bs, k0);
    let j2 = join_set(j1, vs, k7);
    let ts = place_terms(0, 1, 10, false);
    assert forall|x: Seq<Val>| project_set(j2, ts).contains(x) implies vm_placed(db).contains(x) by {
        let z = choose|z: Seq<Val>| j2.contains(z) && project(z, ts) == x;
        let (y1, v) = choose|y1: Seq<Val>, v: Seq<Val>| j1.contains(y1) && vs.contains(v) && keys_match(y1, v, k7) && z == y1 + v;
        let (p, b) = choose|p: Seq<Val>, b: Seq<Val>| a.contains(p) && bs.contains(b) && keys_match(p, b, k0) && y1 == p + b;
        assert(tuple_shape(REL_PORT as int, p));
        assert(tuple_shape(REL_BINDING as int, b));
        assert(tuple_shape(REL_VSWITCH_PORT as int, v));
        lemma_key(p, b, 0, 0);
        lemma_key(y1, v, 7, 0);
        lemma_row(z, 0, 1, 10, false);
        assert(field(y1, 7) == field(b, 1));
        assert(field(z, 0) == field(p, 0));
        assert(field(z, 1) == field(p, 1));
        assert(field(z, 10) == field(v, 2));
        assert(bound_at(db, field(p, 0), field(v, 2)));
        assert(!trunk(db, field(p, 0))) by {
            if trunk(db, field(p, 0)) {
                let t = choose|t: Seq<Val>| rel_of(db, REL_TRUNK_PORT as int).contains(t) && field(t, 0) == field(p, 0);
                lemma_key(p, t, 0, 0);
                assert(tr.contains(t) && keys_match(p, t, k0));
            }
        }
        assert(x =~= place_row(p, field(v, 2), false));
    }
    assert forall|x: Seq<Val>| vm_placed(db).contains(x) implies project_set(j2, ts).contains(x) by {
        let (p, ch) = choose|p: Seq<Val>, ch: Val|
            enabled(db, p, TAG_VM) && !trunk(db, field(p, 0)) && bound_at(db, field(p, 0), ch) && x == place_row(p, ch, false);
        let (b, v) = choose|b: Seq<Val>, v: Seq<Val>|
            db[REL_BINDING as int].contains(b) && db[REL_VSWITCH_PORT as int].contains(v)
                && field(b, 0) == field(p, 0) && field(v, 0) == field(b, 1) && field(v, 2) == ch;
        assert(tuple_shape(REL_PORT as int, p));
        assert(tuple_shape(REL_BINDING as int, b));
        assert(tuple_shape(REL_VSWITCH_PORT as int, v));
        assert forall|t: Seq<Val>| tr.contains(t) implies !keys_match(p, t, k0) by {
            lemma_key(p, t, 0, 0);
        }
        assert(a.contains(p));
        lemma_key(p, b, 0, 0);
        let y1 = p + b;
        assert(j1.contains(y1));
        lemma_key(y1, v, 7, 0);
        assert(field(y1, 7) == field(b, 1));
        let z = y1 + v;
        assert(j2.contains(z));
        lemma_row(z, 0, 1, 10, false);
        assert(field(z, 10) == field(v, 2));
        assert(project(z, ts) =~= x);
    }
    assert(project_set(j2, ts) =~= vm_placed(db));
}

proof fn lemma_vif(db: Db)
    requires
        base_shaped(db),
    ensures
        project_set(join_set(join_set(join_set(enabled_set(db, TAG_VIF),
            filter_set(rel_of(db, REL_PORT as int), 2, Val::Int(TAG_VM)), seq![(3usize, 0usize)]),
            rel_of(db, REL_BINDING as int), seq![(3usize, 0usize)]), rel_of(db, REL_VSWITCH_PORT as int), seq![(13usize, 0usize)]),
            place_terms(0, 1, 16, false)) == vif_placed(db),
{
    let k3 = seq![(3usize, 0usize)];
    let k13 = seq![(13usize, 0usize)];
    let e = enabled_set(db, TAG_VIF);
    let vm = filter_set(rel_of(db, REL_PORT as int), 2, Val::Int(TAG_VM));
    let bs = rel_of(db, REL_BINDING as int);
    let vs = rel_of(db, REL_VSWITCH_PORT as int);
    let j0 = join_set(e, vm, k3);
    let j1 = join_set(j0, bs, k3);
    let j2 = join_set(j1, vs, k13);
    let ts = place_terms(0, 1, 16, false);
    assert forall|x: Seq<Val>| project_set(j2, ts).contains(x) implies vif_placed(db).contains(x) by {
        let z = choose|z: Seq<Val>| j2.contains(z) && project(z, ts) == x;
        let (y1, v) = choose|y1: Seq<Val>, v: Seq<Val>| j1.contains(y1) && vs.contains(v) && keys_match(y1, v, k13) && z == y1 + v;
        let (y0, b) = choose|y0: Seq<Val>, b: Seq<Val>| j0.contains(y0) && bs.contains(b) && keys_match(y0, b, k3) && y1 == y0 + b;
        let (p, q) = choose|p: Seq<Val>, q: Seq<Val>| e.contains(p) && vm.contains(q) && keys_match(p, q, k3) && y0 == p + q;
        assert(tuple_shape(REL_PORT as int, p));
        assert(tuple_shape(REL_PORT as int, q));
        assert(tuple_shape(REL_BINDING as int, b));
        assert(tuple_shape(REL_VSWITCH_PORT as int, v));
        lemma_key(p, q, 3, 0);
        lemma_key(y0, b, 3, 0);
        lemma_key(y1, v, 13, 0);
        lemma_row(z, 0, 1, 16, false);
        assert(field(y0, 3) == field(p, 3));
        assert(field(y1, 13) == field(b, 1));
        assert(field(z, 0) == field(p, 0));
        assert(field(z, 1) == field(p, 1));
        assert(field(z, 16) == field(v, 2));
        assert(bound_at(db, field(p, 3), field(v, 2)));
        assert(x =~= place_row(p, field(v, 2), false));
    }
    assert forall|x: Seq<Val>| vif_placed(db).contains(x) implies project_set(j2, ts).contains(x) by {
        let (p, q, ch) = choose|p: Seq<Val>, q: Seq<Val>, ch: Val|
            enabled(db, p, TAG_VIF) && is_port(db, q, TAG_VM) && field(q, 0) == field(p, 3)
                && bound_at(db, field(p, 3), ch) && x == place_row(p, ch, false);
        let (b, v) = choose|b: Seq<Val>, v: Seq<Val>|
            db[REL_BINDING as int].contains(b) && db[REL_VSWITCH_PORT as int].contains(v)
                && field(b, 0) == field(p, 3) && field(v, 0) == field(b, 1) && field(v, 2) == ch;
        assert(tuple_shape(REL_PORT as int, p));
        assert(tuple_shape(REL_PORT as int, q));
        assert(tuple_shape(REL_BINDING as int, b));
        assert(tuple_shape(REL_VSWITCH_PORT as int, v));
        lemma_key(p, q, 3, 0);
        let y0 = p + q;
        assert(j0.contains(y0));
        lemma_key(y0, b, 3, 0);
        assert(field(y0, 3) == field(p, 3));
        let y1 = y0 + b;
        assert(j1.contains(y1));
        lemma_key(y1, v, 13, 0);
        assert(field(y1, 13) == field(b, 1));
        let z = y1 + v;
        assert(j2.contains(z));
        lemma_row(z, 0, 1, 16, false);
        assert(field(z, 16) == field(v, 2));
        assert(project(z, ts) =~= x);
    }
    assert(project_set(j2, ts) =~= vif_placed(db));
}

/// The four output fields of a port placement: three columns and a
/// constant flag.
pub open spec fn place_terms(port: usize, switch: usize, chassis: usize, floating: bool) -> Seq<Term> {
    seq![Term::Col(port), Term::Col(switch), Term::Col(chassis), Term::Lit(Value::Bool(floating))]
}

fn scan(r: usize) -> (p: Plan)
    ensures
        top_read(p) == r + 1,
        forall|db: Db| #[trigger] eval(p, db) == rel_of(db, r as int),
{
    Plan::Scan(r)
}

fn filter(q: Plan, c: usize, v: Value) -> (p: Plan)
    ensures
        top_read(p) == top_read(q),
        forall|db: Db| #[trigger] eval(p, db) == filter_set(eval(q, db), c as int, v@),
{
    Plan::Filter(Box::new(q), c, v)
}

/// Pairs of `l` and `r` whose column `i` and column `j` agree.
fn join(l: Plan, r: Plan, i: usize, j: usize) -> (p: Plan)
    ensures
        top_read(p) == if top_read(l) >= top_read(r) { top_read(l) } else { top_read(r) },
        forall|db: Db| #[trigger] eval(p, db) == join_set(eval(l, db), eval(r, db), seq![(i, j)]),
{
    let mut ks: Vec<(usize, usize)> = Vec::new();
    ks.push((i, j));
    assert(ks@ == seq![(i, j)]);
    Plan::Join(Box::new(l), Box::new(r), ks)
}

/// Every pair of `l` and `r`.
fn cross(l: Plan, r: Plan) -> (p: Plan)
    ensures
        top_read(p) == if top_read(l) >= top_read(r) { top_read(l) } else { top_read(r) },
        forall|db: Db| #[trigger] eval(p, db) == join_set(eval(l, db), eval(r, db), Seq::<(usize, usize)>::empty()),
{
    let ks: Vec<(usize, usize)> = Vec::new();
    assert(ks@ == Seq::<(usize, usize)>::empty());
    Plan::Join(Box::new(l), Box::new(r), ks)
}

/// Tuples of `l` whose column `i` agrees with column `j` of no tuple of `r`.
fn antijoin(l: Plan, r: Plan, i: usize, j: usize) -> (p: Plan)
    ensures
        top_read(p) == if top_read(l) >= top_read(r) { top_read(l) } else { top_read(r) },
        forall|db: Db| #[trigger] eval(p, db) == antijoin_set(eval(l, db), eval(r, db), seq![(i, j)]),
{
    let mut ks: Vec<(usize, usize)> = Vec::new();
    ks.push((i, j));
    assert(ks@ == seq![(i, j)]);
    Plan::AntiJoin(Box::new(l), Box::new(r), ks)
}

/// Enabled switch ports of one kind.
fn enabled_ports(tag: u64) -> (p: Plan)
    ensures
        top_read(p) == REL_PORT + 1,
        forall|db: Db| #[trigger] eval(p, db) == filter_set(filter_set(rel_of(db, REL_PORT as int), 2, Val::Int(tag)), 5, Val::Bool(true)),
{
    let p = filter(filter(scan(REL_PORT), 2, Value::Int(tag)), 5, Value::Bool(true));
    p
}

/// The output row of a port placement: port, switch, chassis, floating.
fn place(q: Plan, port: usize, switch: usize, chassis: usize, floating: bool) -> (p: Plan)
    ensures
        top_read(p) == top_read(q),
        forall|db: Db| #[trigger] eval(p, db) == project_set(eval(q, db), place_terms(port, switch, chassis, floating)),
{
    let mut ts: Vec<Term> = Vec::new();
    ts.push(Term::Col(port));
    ts.push(Term::Col(switch));
    ts.push(Term::Col(chassis));
    ts.push(Term::Lit(Value::Bool(floating)));
    assert(ts@ == place_terms(port, switch, chassis, floating));
    Plan::Project(Box::new(q), ts)
}

/// The derivation of trunk ports: every parent of a nested interface.
pub fn trunk_port_rules() -> (r: Variable)
    ensures
        r.rules@.len() == 1,
        r.rounds >= 1,
        rules_below(r.rules@, REL_TRUNK_PORT as int),
        def_wf(r, REL_TRUNK_PORT as int),
        forall|db: Db| base_shaped(db) && db.len() > REL_TRUNK_PORT ==>
            #[trigger] def_eval(r, db, REL_TRUNK_PORT as int) == trunk_ports(db),
{
    let vif = filter(scan(REL_PORT), 2, Value::Int(TAG_VIF));
    let mut ts: Vec<Term> = Vec::new();
    ts.push(Term::Col(3));
    let ghost gvif = vif;
    let ghost gts = ts@;
    let p = Plan::Project(Box::new(vif), ts);
    proof { lemma_top_read(p, REL_TRUNK_PORT as int); }
    let r = Variable::from(p);
    proof {
        let n = REL_TRUNK_PORT as int;
        assert(rules_below(r.rules@, n)) by {
            assert(r.rules@[0] == p);
        }
        lemma_below_monotone(r.rules@, n);
        assert(rules_below(r.rules@, n + 1)) by {
            assert(r.rules@[0] == p);
            assert(crate::plan::reads_below(p, n + 1)) by { lemma_top_read(p, n + 1); }
        }
        assert forall|db: Db| base_shaped(db) && db.len() > REL_TRUNK_PORT implies
            #[trigger] def_eval(r, db, REL_TRUNK_PORT as int) == trunk_ports(db) by {
            let d2 = db.take(n).push(Set::<Seq<Val>>::empty());
            lemma_fix_once(r.rules@, db.take(n), r.rounds as nat);
            assert(d2[REL_PORT as int] == db[REL_PORT as int]);
            assert(base_shaped(d2)) by {
                assert forall|k: int, t: Seq<Val>| 0 <= k < N_BASE && #[trigger] d2[k].contains(t) implies tuple_shape(k, t) by {
                    assert(d2[k] == db[k]);
                }
            }
            lemma_trunks(d2);
            assert(gts == seq![Term::Col(3)]);
            assert(eval(p, d2) == project_set(eval(gvif, d2), gts));
            assert(var_eval(r.rules@, d2) =~= eval(p, d2)) by {
                assert(r.rules@[0] == p);
            }
            assert forall|q: Seq<Val>, t: u64| #[trigger] is_port(d2, q, t) == is_port(db, q, t) by {}
            assert forall|x: Seq<Val>| trunk_ports(d2).contains(x) == trunk_ports(db).contains(x) by {
                if trunk_ports(d2).contains(x) {
                    let q = choose|q: Seq<Val>| is_port(d2, q, TAG_VIF) && x == seq![field(q, 3)];
                    assert(is_port(db, q, TAG_VIF));
                }
                if trunk_ports(db).contains(x) {
                    let q = choose|q: Seq<Val>| is_port(db, q, TAG_VIF) && x == seq![field(q, 3)];
                    assert(is_port(d2, q, TAG_VIF));
                }
            }
            assert(trunk_ports(d2) =~= trunk_ports(db));
        }
    }
    r
}

/// The derivation of port placement.
pub fn port_at_chassis_rules() -> (r: Variable)
    ensures
        r.rules@.len() == 4,
        r.rounds >= 1,
        rules_below(r.rules@, REL_PORT_AT_CHASSIS as int),
        def_wf(r, REL_PORT_AT_CHASSIS as int),
        forall|db: Db| base_shaped(db) && db.len() > REL_PORT_AT_CHASSIS ==>
            #[trigger] def_eval(r, db, REL_PORT_AT_CHASSIS as int) == placement(db),
{
    // A VM port that is no trunk, bound to a virtual switch port, sits on
    // that port's chassis.
    let vm = antijoin(enabled_ports(TAG_VM), scan(REL_TRUNK_PORT), 0, 0);
    let bound_vm = join(vm, scan(REL_BINDING), 0, 0);
    let vm_on_chassis = join(bound_vm, scan(REL_VSWITCH_PORT), 7, 0);
    let p0 = place(vm_on_chassis, 0, 1, 10, false);
    // A nested interface sits where its VM parent is bound.
    let vif = join(enabled_ports(TAG_VIF), filter(scan(REL_PORT), 2, Value::Int(TAG_VM)), 3, 0);
    let vif_bound = join(vif, scan(REL_BINDING), 3, 0);
    let vif_on_chassis = join(vif_bound, scan(REL_VSWITCH_PORT), 13, 0);
    let p1 = place(vif_on_chassis, 0, 1, 16, false);
    // A localnet port floats on every non-gateway chassis.
    let chassis = filter(scan(REL_CHASSIS), 1, Value::Bool(false));
    let localnet = cross(chassis, enabled_ports(TAG_LOCALNET));
    let p2 = place(localnet, 4, 5, 0, true);
    // A layer-2 gateway port sits on its own chassis.
    let p3 = place(enabled_ports(TAG_L2GATEWAY), 0, 1, 3, false);
    let ghost n = REL_PORT_AT_CHASSIS as int;
    proof {
        lemma_top_read(p0, n);
        lemma_top_read(p1, n);
        lemma_top_read(p2, n);
        lemma_top_read(p3, n);
    }
    let mut v = Variable::from(p0);
    v.add(p1);
    v.add(p2);
    v.add(p3);
    assert(v.rules@ == seq![p0, p1, p2, p3]);
    proof {
        lemma_below_monotone(v.rules@, n);
        assert(rules_below(v.rules@, n + 1)) by {
            lemma_top_read(p0, n + 1);
            lemma_top_read(p1, n + 1);
            lemma_top_read(p2, n + 1);
            lemma_top_read(p3, n + 1);
        }
        assert forall|db: Db| base_shaped(db) && db.len() > REL_PORT_AT_CHASSIS implies
            #[trigger] def_eval(v, db, REL_PORT_AT_CHASSIS as int) == placement(db) by {
            let d2 = db.take(n).push(Set::<Seq<Val>>::empty());
            lemma_fix_once(v.rules@, db.take(n), v.rounds as nat);
            assert(base_shaped(d2)) by {
                assert forall|k: int, t: Seq<Val>| 0 <= k < N_BASE && #[trigger] d2[k].contains(t) implies tuple_shape(k, t) by {
                    assert(d2[k] == db[k]);
                }
            }
            lemma_vm(d2);
            lemma_vif(d2);
            lemma_localnet(d2);
            lemma_gateway(d2);
            let rs = v.rules@;
            assert(var_eval(rs, d2) =~= eval(p0, d2).union(eval(p1, d2)).union(eval(p2, d2)).union(eval(p3, d2))) by {
                assert(rs[0] == p0 && rs[1] == p1 && rs[2] == p2 && rs[3] == p3);
            }
            assert forall|k: int| 0 <= k < n implies #[trigger] rel_of(d2, k) == rel_of(db, k) by {
                assert(d2[k] == db[k]);
            }
            assert(rel_of(d2, REL_TRUNK_PORT as int) == rel_of(db, REL_TRUNK_PORT as int));
            assert(d2[REL_PORT as int] == db[REL_PORT as int]);
            assert(d2[REL_CHASSIS as int] == db[REL_CHASSIS as int]);
            assert(d2[REL_BINDING as int] == db[REL_BINDING as int]);
            assert(d2[REL_VSWITCH_PORT as int] == db[REL_VSWITCH_PORT as int]);
            assert forall|q: Seq<Val>, t: u64| #[trigger] is_port(d2, q, t) == is_port(db, q, t) by {}
            assert forall|q: Seq<Val>, t: u64| #[trigger] enabled(d2, q, t) == enabled(db, q, t) by {}
            assert(vm_placed(d2) =~= vm_placed(db));
            assert(vif_placed(d2) =~= vif_placed(db));
            assert(localnet_placed(d2) =~= localnet_placed(db));
            assert forall|x: Seq<Val>| gateway_placed(d2).contains(x) == gateway_placed(db).contains(x) by {
                if gateway_placed(d2).contains(x) {
                    let q = choose|q: Seq<Val>| enabled(d2, q, TAG_L2GATEWAY) && x == place_row(q, field(q, 3), false);
                    assert(enabled(db, q, TAG_L2GATEWAY));
                }
                if gateway_placed(db).contains(x) {
                    let q = choose|q: Seq<Val>| enabled(db, q, TAG_L2GATEWAY) && x == place_row(q, field(q, 3), false);
                    assert(enabled(d2, q, TAG_L2GATEWAY));
                }
            }
            assert(gateway_placed(d2) =~= gateway_placed(db));
        }
    }
    v
}

/// The schema's definitions: trunk ports, then port placement.
pub open spec fn schema_defs(defs: Seq<Variable>) -> bool {
    &&& defs.len() == 2
    &&& forall|db: Db| base_shaped(db) && db.len() > REL_TRUNK_PORT ==>
        #[trigger] def_eval(defs[0], db, REL_TRUNK_PORT as int) == trunk_ports(db)
    &&& forall|db: Db| base_shaped(db) && db.len() > REL_PORT_AT_CHASSIS ==>
        #[trigger] def_eval(defs[1], db, REL_PORT_AT_CHASSIS as int) == placement(db)
}

/// The rule graph of the schema: five base relations, then trunk ports and
/// port placement; port placement is synchronized.
pub fn schema_graph() -> (r: Result<RuleGraph, GraphError>)
    ensures
        r matches Ok(g) && g.wf() && g.n_base == N_BASE && g.defs@.len() == 2
            && g.synced@ == seq![false, false, false, false, false, false, true]
            && schema_defs(g.defs@),
{
    let mut defs: Vec<Variable> = Vec::new();
    defs.push(trunk_port_rules());
    defs.push(port_at_chassis_rules());
    let synced: Vec<bool> = vec![false, false, false, false, false, false, true];
    assert(crate::graph::graph_wf(N_BASE as int, defs@));
    RuleGraph::new(N_BASE, defs, synced)
}

fn as_int(v: &Value) -> (r: Option<u64>)
    ensures
        r matches Some(n) ==> v@ == Val::Int(n),
        r is None ==> !(v@ is Int),
{
    match v {
        Value::Int(n) => Some(*n),
        _ => None,
    }
}

fn as_bool(v: &Value) -> (r: Option<bool>)
    ensures
        r matches Some(b) ==> v@ == Val::Bool(b),
        r is None ==> !(v@ is Bool),
{
    match v {
        Value::Bool(b) => Some(*b),
        _ => None,
    }
}

fn as_text(v: &Value) -> (r: Option<String>)
    ensures
        r matches Some(s) ==> v@ == Val::Text(s@),
        r is None ==> !(v@ is Text),
{
    match v {
        Value::Text(s) => Some(s.clone()),
        _ => None,
    }
}

fn as_u32(v: &Value) -> (r: Option<u32>)
    ensures
        r matches Some(n) ==> v@ == Val::Int(n as u64),
        r is None ==> !(v@ is Int && v@->Int_0 <= u32::MAX),
{
    match as_int(v) {
        Some(n) => if n <= u32::MAX as u64 { Some(n as u32) } else { None },
        None => None,
    }
}

fn as_u16(v: &Value) -> (r: Option<u16>)
    ensures
        r matches Some(n) ==> v@ == Val::Int(n as u64),
        r is None ==> !(v@ is Int && v@->Int_0 <= u16::MAX),
{
    match as_int(v) {
        Some(n) => if n <= u16::MAX as u64 { Some(n as u16) } else { None },
        None => None,
    }
}

/// A field holding an integer no larger than `max`.
pub open spec fn int_upto(v: Val, max: u64) -> bool {
    v is Int && v->Int_0 <= max
}

/// The two fields of a port kind: a known tag, and an argument that fits it.
pub open spec fn port_shape(tag: Val, arg: Val) -> bool {
    &&& tag is Int
    &&& arg is Int
    &&& {
        let (g, a) = (tag->Int_0, arg->Int_0);
        (g == TAG_VM && a == 0) || g == TAG_VIF || (g == TAG_LOCALNET && a == 0)
            || (g == TAG_L2GATEWAY && a <= u32::MAX)
    }
}

/// Whether `t` has the shape of the tuples of relation `rel`.
pub open spec fn tuple_shape(rel: int, t: Seq<Val>) -> bool {
    if rel == REL_LOGICAL_SWITCH {
        t.len() == 2 && t[0] is Int && t[1] is Text
    } else if rel == REL_CHASSIS {
        t.len() == 4 && int_upto(t[0], u32::MAX as u64) && t[1] is Bool && t[2] is Text && t[3] is Text
    } else if rel == REL_PORT {
        t.len() == 6 && t[0] is Int && t[1] is Int && port_shape(t[2], t[3]) && t[4] is Text && t[5] is Bool
    } else if rel == REL_VSWITCH_PORT {
        t.len() == 4 && t[0] is Int && t[1] is Text && int_upto(t[2], u32::MAX as u64) && int_upto(t[3], u16::MAX as u64)
    } else if rel == REL_BINDING {
        t.len() == 2 && t[0] is Int && t[1] is Int
    } else if rel == REL_TRUNK_PORT {
        t.len() == 1 && t[0] is Int
    } else if rel == REL_PORT_AT_CHASSIS {
        t.len() == 4 && t[0] is Int && t[1] is Int && int_upto(t[2], u32::MAX as u64) && t[3] is Bool
    } else {
        false
    }
}

/// Every fact is stored as a tuple of its relation's shape.
pub proof fn lemma_fact_shape(f: Fact)
    ensures
        tuple_shape(fact_rel(f), fact_tuple(f)),
{
}

/// The fact stored as tuple `t` of relation `rel`, if `t` is the encoding
/// of one.
pub fn decode(rel: usize, t: &Tuple) -> (r: Option<Fact>)
    ensures
        r matches Some(f) ==> fact_rel(f) == rel && fact_tuple(f) == tv(*t),
        r is Some <==> tuple_shape(rel as int, tv(*t)),
{
    let n = t.len();
    let res = if rel == REL_LOGICAL_SWITCH && n == 2 {
        match (as_int(&t[0]), as_text(&t[1])) {
            (Some(id), Some(name)) => Some(Fact::LogicalSwitch(id, name)),
            _ => None,
        }
    } else if rel == REL_CHASSIS && n == 4 {
        match (as_u32(&t[0]), as_bool(&t[1]), as_text(&t[2]), as_text(&t[3])) {
            (Some(id), Some(gw), Some(name), Some(addr)) => Some(Fact::Chassis(id, gw, name, addr)),
            _ => None,
        }
    } else if rel == REL_PORT && n == 6 {
        match (as_int(&t[0]), as_int(&t[1]), as_int(&t[2]), as_int(&t[3]), as_text(&t[4]), as_bool(&t[5])) {
            (Some(id), Some(sw), Some(tag), Some(arg), Some(name), Some(en)) => {
                let pt = if tag == TAG_VM && arg == 0 {
                    Some(PortType::LPortVM)
                } else if tag == TAG_VIF {
                    Some(PortType::LPortVIF { parent: arg })
                } else if tag == TAG_LOCALNET && arg == 0 {
                    Some(PortType::LPortLocalnet)
                } else if tag == TAG_L2GATEWAY && arg <= u32::MAX as u64 {
                    Some(PortType::LPortL2Gateway { chassis: arg as u32 })
                } else {
                    None
                };
                match pt {
                    Some(pt) => Some(Fact::LogicalSwitchPort(id, sw, pt, name, en)),
                    None => None,
                }
            },
            _ => None,
        }
    } else if rel == REL_VSWITCH_PORT && n == 4 {
        match (as_int(&t[0]), as_text(&t[1]), as_u32(&t[2]), as_u16(&t[3])) {
            (Some(id), Some(name), Some(ch), Some(ofp)) => Some(Fact::VSwitchPort(id, name, ch, ofp)),
            _ => None,
        }
    } else if rel == REL_BINDING && n == 2 {
        match (as_int(&t[0]), as_int(&t[1])) {
            (Some(lp), Some(vp)) => Some(Fact::LPortBinding(lp, vp)),
            _ => None,
        }
    } else if rel == REL_TRUNK_PORT && n == 1 {
        match as_int(&t[0]) {
            Some(lp) => Some(Fact::TrunkPort(lp)),
            None => None,
        }
    } else if rel == REL_PORT_AT_CHASSIS && n == 4 {
        match (as_int(&t[0]), as_int(&t[1]), as_u32(&t[2]), as_bool(&t[3])) {
            (Some(lp), Some(sw), Some(ch), Some(fl)) => Some(Fact::LPortAtChassis(lp, sw, ch, fl)),
            _ => None,
        }
    } else {
        None
    };
    proof {
        if res is Some {
            assert(fact_tuple(res->Some_0) =~= tv(*t));
        }
    }
    assert(n == tv(*t).len());
    res
}

} // verus!
