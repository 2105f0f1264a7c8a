//! Field values and tuples, with their mathematical model.
use vstd::prelude::*;

verus! {

/// The abstract value of one tuple field.
pub enum Val {
    Null,
    Int(u64),
    Bool(bool),
    Text(Seq<char>),
}

/// One field of a tuple.
#[derive(Debug, Clone, PartialEq, Eq, Hash)]
pub enum Value {
    Null,
    Int(u64),
    Bool(bool),
    Text(String),
}

impl View for Value {
    type V = Val;

    open spec fn view(&self) -> Val {
        match self {
            Value::Null => Val::Null,
            Value::Int(n) => Val::Int(*n),
            Value::Bool(b) => Val::Bool(*b),
            Value::Text(s) => Val::Text(s@),
        }
    }
}

/// A tuple: an ordered sequence of field values.
pub type Tuple = Vec<Value>;

/// The abstract value of a tuple.
pub open spec fn tv(t: Tuple) -> Seq<Val> {
    t@.map_values(|v: Value| v@)
}

/// The abstract values of a sequence of tuples.
pub open spec fn rows(s: Seq<Tuple>) -> Set<Seq<Val>> {
    Set::new(|x: Seq<Val>| exists|i: int| 0 <= i < s.len() && tv(#[trigger] s[i]) == x)
}

/// Field `c` of an abstract tuple; `Null` past its end.
pub open spec fn field(t: Seq<Val>, c: int) -> Val {
    if 0 <= c < t.len() {
        t[c]
    } else {
        Val::Null
    }
}

/// Copies a value.
pub fn copy_value(v: &Value) -> (r: Value)
    ensures
        r@ == v@,
{
    match v {
        Value::Null => Value::Null,
        Value::Int(n) => Value::Int(*n),
        Value::Bool(b) => Value::Bool(*b),
        Value::Text(s) => Value::Text(s.clone()),
    }
}

/// Compares two values by their abstract value.
pub fn value_eq(a: &Value, b: &Value) -> (r: bool)
    ensures
        r == (a@ == b@),
{
    match (a, b) {
        (Value::Null, Value::Null) => true,
        (Value::Int(x), Value::Int(y)) => *x == *y,
        (Value::Bool(x), Value::Bool(y)) => *x == *y,
        (Value::Text(x), Value::Text(y)) => {
            let e = x.eq(y);
            e
        },
        _ => false,
    }
}

/// Copies a tuple.
pub fn copy_tuple(t: &Tuple) -> (r: Tuple)
    ensures
        tv(r) == tv(*t),
{
    let mut r: Vec<Value> = Vec::new();
    let mut i: usize = 0;
    while i < t.len()
        invariant
            i <= t.len(),
            r@.len() == i,
            forall|j: int| 0 <= j < i ==> (#[trigger] r@[j])@ == t@[j]@,
        decreases t.len() - i,
    {
        r.push(copy_value(&t[i]));
        i += 1;
    }
    assert(tv(r) =~= tv(*t));
    r
}

/// Compares two tuples by their abstract value.
pub fn tuple_eq(a: &Tuple, b: &Tuple) -> (r: bool)
    ensures
        r == (tv(*a) == tv(*b)),
{
    if a.len() != b.len() {
        assert(tv(*a).len() != tv(*b).len());
        return false;
    }
    let mut i: usize = 0;
    while i < a.len()
        invariant
            i <= a.len(),
            a.len() == b.len(),
            forall|j: int| 0 <= j < i ==> (#[trigger] a@[j])@ == b@[j]@,
        decreases a.len() - i,
    {
        if !value_eq(&a[i], &b[i]) {
            assert(tv(*a)[i as int] != tv(*b)[i as int]);
            return false;
        }
        i += 1;
    }
    assert(tv(*a) =~= tv(*b));
    true
}

/// Field `c` of a tuple; `Null` past its end.
pub fn get_field(t: &Tuple, c: usize) -> (r: Value)
    ensures
        r@ == field(tv(*t), c as int),
{
    if c < t.len() {
        copy_value(&t[c])
    } else {
        Value::Null
    }
}

} // verus!
