//! The request/response command processor over the schema.
use vstd::prelude::*;
use crate::value::{Tuple, Val, rows, tv};
use crate::engine::{Engine, Change, edit_step, start_step, commit_step, rollback_step,
    delta_spec, change_set};
use crate::schema::{Fact, Relation, N_BASE, fact_rel, fact_tuple, relation_id, schema_graph, schema_defs,
    base_shaped, tuple_shape, trunk_ports, placement, lemma_fact_shape, is_port, enabled, REL_TRUNK_PORT,
    REL_PORT_AT_CHASSIS, REL_PORT, TAG_VIF, REL_VSWITCH_PORT, REL_CHASSIS, TAG_L2GATEWAY};
use crate::graph::lemma_recompute_base;
use crate::engine::{set_base, distinct_records};
use crate::plan::Db;
use crate::value::field;

verus! {

/// One request of the protocol.
#[derive(Debug, Clone, PartialEq, Eq, Hash)]
pub enum Request {
    Start,
    Rollback,
    Commit,
    Add(Fact),
    Del(Fact),
    Chk(Relation),
    Enm(Relation),
}

/// Why a request was refused. A refused request has no effect.
#[derive(Debug, Clone, Copy, PartialEq, Eq)]
pub enum RequestError {
    /// `start` while a transaction is open.
    AlreadyInTransaction,
    /// `commit` or `rollback` while no transaction is open.
    NoTransaction,
    /// `add` or `del` of a fact of a derived relation.
    DerivedRelation,
}

/// The message sent back for an error.
pub open spec fn message_of(e: RequestError) -> Seq<char> {
    match e {
        RequestError::AlreadyInTransaction => "transaction already in progress"@,
        RequestError::NoTransaction => "no transaction in progress"@,
        RequestError::DerivedRelation => "derived relations cannot be edited"@,
    }
}

impl RequestError {
    /// The message sent back for the error.
    pub fn message(&self) -> (r: String)
        ensures
            r@ == message_of(*self),
    {
        match self {
            RequestError::AlreadyInTransaction => "transaction already in progress".to_owned(),
            RequestError::NoTransaction => "no transaction in progress".to_owned(),
            RequestError::DerivedRelation => "derived relations cannot be edited".to_owned(),
        }
    }
}

/// The answer to one request.
#[derive(Debug, Clone, PartialEq, Eq)]
pub enum Response {
    /// Success of `start`, `rollback`, `add` and `del`.
    Unit,
    /// Whether the relation named by `chk` holds any tuple.
    Bool(bool),
    /// Every tuple of the relation named by `enm`.
    Tuples(Vec<Tuple>),
    /// The net changes of the transaction closed by `commit`.
    Delta(Vec<Change>),
    Refused(RequestError),
}

/// The command processor: the schema's engine, driven one request at a time.
pub struct Processor {
    pub engine: Engine,
}

impl Processor {
    pub open spec fn wf(&self) -> bool {
        &&& self.engine.wf()
        &&& self.engine.graph.n_base == N_BASE
        &&& self.engine.n_rels() == 7
        &&& schema_defs(self.engine.defs())
        &&& base_shaped(self.engine.db())
        &&& base_shaped(self.engine.rz())
    }

    /// A processor with every relation empty and no open transaction.
    pub fn new() -> (p: Processor)
        ensures
            p.wf(),
            !p.engine.open,
            forall|i: int| 0 <= i < 7 ==> #[trigger] p.engine.db()[i] == Set::<Seq<Val>>::empty(),
    {
        match schema_graph() {
            Ok(g) => {
                let p = Processor { engine: Engine::new(g) };
                assert(base_shaped(p.engine.db()));
                assert(base_shaped(p.engine.rz()));
                p
            },
            Err(_) => vstd::pervasive::unreached(),
        }
    }

    /// Executes one request.
    pub fn handle(&mut self, req: Request) -> (resp: Response)
        requires
            old(self).wf(),
        ensures
            final(self).wf(),
            resp is Refused ==> *final(self) == *old(self),
            match req {
                Request::Start => if old(self).engine.open {
                    resp == Response::Refused(RequestError::AlreadyInTransaction)
                } else {
                    resp == Response::Unit && start_step(old(self).engine, final(self).engine)
                },
                Request::Rollback => if !old(self).engine.open {
                    resp == Response::Refused(RequestError::NoTransaction)
                } else {
                    resp == Response::Unit && rollback_step(old(self).engine, final(self).engine)
                },
                Request::Commit => if !old(self).engine.open {
                    resp == Response::Refused(RequestError::NoTransaction)
                } else {
                    commit_step(old(self).engine, final(self).engine)
                        && resp is Delta
                        && change_set(resp->Delta_0@) == delta_spec(old(self).engine.graph.synced@,
                            old(self).engine.db(), old(self).engine.rz())
                        && distinct_records(resp->Delta_0@)
                },
                Request::Add(f) => if fact_rel(f) < N_BASE {
                    resp == Response::Unit && edit_step(old(self).engine, final(self).engine, fact_rel(f), fact_tuple(f), true)
                } else {
                    resp == Response::Refused(RequestError::DerivedRelation)
                },
                Request::Del(f) => if fact_rel(f) < N_BASE {
                    resp == Response::Unit && edit_step(old(self).engine, final(self).engine, fact_rel(f), fact_tuple(f), false)
                } else {
                    resp == Response::Refused(RequestError::DerivedRelation)
                },
                Request::Chk(r) => *final(self) == *old(self)
                    && resp == Response::Bool(old(self).engine.db()[relation_id(r)] != Set::<Seq<Val>>::empty()),
                Request::Enm(r) => *final(self) == *old(self)
                    && resp is Tuples && rows(resp->Tuples_0@) == old(self).engine.db()[relation_id(r)],
            },
    {
        match req {
            Request::Start => match self.engine.start() {
                Ok(()) => Response::Unit,
                Err(_) => Response::Refused(RequestError::AlreadyInTransaction),
            },
            Request::Rollback => match self.engine.rollback() {
                Ok(()) => Response::Unit,
                Err(_) => Response::Refused(RequestError::NoTransaction),
            },
            Request::Commit => match self.engine.commit() {
                Ok(ch) => Response::Delta(ch),
                Err(_) => Response::Refused(RequestError::NoTransaction),
            },
            Request::Add(f) => {
                let (rel, t) = f.encode();
                if rel < N_BASE {
                    let ghost x = tv(t);
                    let ghost before = self.engine.db();
                    self.engine.insert(rel, t);
                    proof { lemma_edit_shaped(before, self.engine.db(), self.engine.defs(), rel as int, x, true); }
                    Response::Unit
                } else {
                    Response::Refused(RequestError::DerivedRelation)
                }
            },
            Request::Del(f) => {
                let (rel, t) = f.encode();
                if rel < N_BASE {
                    let ghost x = tv(t);
                    let ghost before = self.engine.db();
                    self.engine.delete(rel, t);
                    proof { lemma_edit_shaped(before, self.engine.db(), self.engine.defs(), rel as int, x, false); }
                    Response::Unit
                } else {
                    Response::Refused(RequestError::DerivedRelation)
                }
            },
            Request::Chk(r) => Response::Bool(self.engine.contains(r.id())),
            Request::Enm(r) => Response::Tuples(self.engine.enumerate(r.id())),
        }
    }
}

/// A base edit of a tuple of its relation's shape keeps the base
/// relations shaped.
proof fn lemma_edit_shaped(db: Db, db2: Db, defs: Seq<crate::graph::Variable>, r: int, x: Seq<Val>, insert: bool)
    requires
        base_shaped(db),
        db.len() == 7,
        0 <= r < N_BASE,
        insert ==> tuple_shape(r, x),
        db2 == crate::engine::after_edit(N_BASE as int, defs, db, r, x, insert),
    ensures
        base_shaped(db2),
        db2.len() == db.len() + defs.len() - 2,
{
    let sb = set_base(db, r, x, insert).take(N_BASE as int);
    lemma_recompute_base(defs, sb);
    assert forall|k: int, t: Seq<Val>| 0 <= k < N_BASE && #[trigger] db2[k].contains(t) implies tuple_shape(k, t) by {
        assert(db2[k] == sb[k]);
        if k != r || (!insert) {
            assert(db[k].contains(t));
        }
    }
}

/// In every state of the processor, trunk ports and port placement hold
/// exactly what the schema's rules say, and every relation holds only
/// tuples of its shape.
pub proof fn lemma_processor_content(p: Processor)
    requires
        p.wf(),
    ensures
        p.engine.db()[REL_TRUNK_PORT as int] == trunk_ports(p.engine.db()),
        p.engine.db()[REL_PORT_AT_CHASSIS as int] == placement(p.engine.db()),
        forall|r: int, t: Seq<Val>| 0 <= r < 7 && #[trigger] p.engine.db()[r].contains(t) ==> tuple_shape(r, t),
{
    let db = p.engine.db();
    let defs = p.engine.defs();
    assert(db[N_BASE + 0] == crate::graph::def_eval(defs[0], db, N_BASE + 0));
    assert(db[N_BASE + 1] == crate::graph::def_eval(defs[1], db, N_BASE + 1));
    assert forall|r: int, t: Seq<Val>| 0 <= r < 7 && #[trigger] db[r].contains(t) implies tuple_shape(r, t) by {
        if r == REL_TRUNK_PORT as int {
            let q = choose|q: Seq<Val>| is_port(db, q, TAG_VIF) && t == seq![field(q, 3)];
            assert(tuple_shape(REL_PORT as int, q));
        } else if r == REL_PORT_AT_CHASSIS as int {
            if crate::schema::vm_placed(db).contains(t) {
                let (q, ch) = choose|q: Seq<Val>, ch: Val| enabled(db, q, crate::schema::TAG_VM)
                    && !crate::schema::trunk(db, field(q, 0)) && crate::schema::bound_at(db, field(q, 0), ch)
                    && t == crate::schema::place_row(q, ch, false);
                let (b, v) = choose|b: Seq<Val>, v: Seq<Val>|
                    db[crate::schema::REL_BINDING as int].contains(b) && db[REL_VSWITCH_PORT as int].contains(v)
                        && field(b, 0) == field(q, 0) && field(v, 0) == field(b, 1) && field(v, 2) == ch;
                assert(tuple_shape(REL_PORT as int, q));
                assert(tuple_shape(REL_VSWITCH_PORT as int, v));
            } else if crate::schema::vif_placed(db).contains(t) {
                let (q, q2, ch) = choose|q: Seq<Val>, q2: Seq<Val>, ch: Val|
                    enabled(db, q, TAG_VIF) && is_port(db, q2, crate::schema::TAG_VM) && field(q2, 0) == field(q, 3)
                        && crate::schema::bound_at(db, field(q, 3), ch) && t == crate::schema::place_row(q, ch, false);
                let (b, v) = choose|b: Seq<Val>, v: Seq<Val>|
                    db[crate::schema::REL_BINDING as int].contains(b) && db[REL_VSWITCH_PORT as int].contains(v)
                        && field(b, 0) == field(q, 3) && field(v, 0) == field(b, 1) && field(v, 2) == ch;
                assert(tuple_shape(REL_PORT as int, q));
                assert(tuple_shape(REL_VSWITCH_PORT as int, v));
            } else if crate::schema::localnet_placed(db).contains(t) {
                let (c, q) = choose|c: Seq<Val>, q: Seq<Val>|
                    db[REL_CHASSIS as int].contains(c) && field(c, 1) == Val::Bool(false)
                        && enabled(db, q, crate::schema::TAG_LOCALNET) && t == crate::schema::place_row(q, field(c, 0), true);
                assert(tuple_shape(REL_PORT as int, q));
                assert(tuple_shape(REL_CHASSIS as int, c));
            } else {
                let q = choose|q: Seq<Val>| enabled(db, q, TAG_L2GATEWAY) && t == crate::schema::place_row(q, field(q, 3), false);
                assert(tuple_shape(REL_PORT as int, q));
            }
        }
    }
}

} // verus!
