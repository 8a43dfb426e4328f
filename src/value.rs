use vstd::prelude::*;

verus! {

/// A value as the interpreter holds it on its operand stack or in its registry.
///
/// Collectable values name an object of the interpreter's heap by its index.
/// Strings are interned, so two string values are equal exactly when their
/// contents are; raw equality of interpreter values is therefore plain equality
/// of this type.
#[derive(Clone, Copy, PartialEq, Eq, Structural, Debug)]
pub enum RawValue {
    Nil,
    Boolean(bool),
    LightUserData(usize),
    Integer(i64),
    Str(usize),
    Table(usize),
    Function(usize),
    Thread(usize),
    UserData(usize),
}

impl RawValue {
    /// The heap object this value names, if it is collectable.
    pub open spec fn object(self) -> Option<usize> {
        match self {
            RawValue::Str(o) => Some(o),
            RawValue::Table(o) => Some(o),
            RawValue::Function(o) => Some(o),
            RawValue::Thread(o) => Some(o),
            RawValue::UserData(o) => Some(o),
            _ => None,
        }
    }
}

/// A host-side handle that keeps one registry slot pinned.
///
/// `main_id` is the identity of the root instance whose registry holds the
/// slot. `drop_unref` is false once the slot has been taken over by a scope,
/// which then releases it itself.
#[derive(Debug)]
pub struct LuaRef {
    pub main_id: u64,
    pub registry_id: usize,
    pub drop_unref: bool,
}

/// A handle to an interned string.
#[derive(Debug)]
pub struct LuaString(pub LuaRef);

/// A handle to a table.
#[derive(Debug)]
pub struct Table(pub LuaRef);

/// A handle to a callable function.
#[derive(Debug)]
pub struct Function(pub LuaRef);

/// A handle to a coroutine.
#[derive(Debug)]
pub struct Thread(pub LuaRef);

/// A handle to a host object exposed to the interpreter.
#[derive(Debug)]
pub struct AnyUserData(pub LuaRef);

/// A value as the host sees it: plain data by value, collectable values through
/// owned references.
#[derive(Debug)]
pub enum Value {
    Nil,
    Boolean(bool),
    LightUserData(usize),
    Integer(i64),
    String(LuaString),
    Table(Table),
    Function(Function),
    Thread(Thread),
    UserData(AnyUserData),
}

impl Value {
    /// The owned reference inside a collectable value.
    pub open spec fn handle(self) -> Option<LuaRef> {
        match self {
            Value::String(s) => Some(s.0),
            Value::Table(t) => Some(t.0),
            Value::Function(f) => Some(f.0),
            Value::Thread(t) => Some(t.0),
            Value::UserData(u) => Some(u.0),
            _ => None,
        }
    }

    /// The name of the value's type, as the interpreter spells it.
    pub fn kind_name(&self) -> (r: &'static str)
        ensures
            r@ == value_kind_name(*self),
    {
        match self {
            Value::Nil => "nil",
            Value::Boolean(_) => "boolean",
            Value::LightUserData(_) => "lightuserdata",
            Value::Integer(_) => "integer",
            Value::String(_) => "string",
            Value::Table(_) => "table",
            Value::Function(_) => "function",
            Value::Thread(_) => "thread",
            Value::UserData(_) => "userdata",
        }
    }
}

/// Whether host value `v` has the variant that interpreter value `r` calls for:
/// plain values carry the same data, and each collectable kind has its own
/// handle variant.
pub open spec fn kind_matches(v: Value, r: RawValue) -> bool {
    match (v, r) {
        (Value::Nil, RawValue::Nil) => true,
        (Value::Boolean(a), RawValue::Boolean(b)) => a == b,
        (Value::LightUserData(a), RawValue::LightUserData(b)) => a == b,
        (Value::Integer(a), RawValue::Integer(b)) => a == b,
        (Value::String(_), RawValue::Str(_)) => true,
        (Value::Table(_), RawValue::Table(_)) => true,
        (Value::Function(_), RawValue::Function(_)) => true,
        (Value::Thread(_), RawValue::Thread(_)) => true,
        (Value::UserData(_), RawValue::UserData(_)) => true,
        _ => false,
    }
}

/// Whether two host values have the same variant, and the same data where
/// they hold plain data.
pub open spec fn same_kind(a: Value, b: Value) -> bool {
    match (a, b) {
        (Value::Nil, Value::Nil) => true,
        (Value::Boolean(x), Value::Boolean(y)) => x == y,
        (Value::LightUserData(x), Value::LightUserData(y)) => x == y,
        (Value::Integer(x), Value::Integer(y)) => x == y,
        (Value::String(_), Value::String(_)) => true,
        (Value::Table(_), Value::Table(_)) => true,
        (Value::Function(_), Value::Function(_)) => true,
        (Value::Thread(_), Value::Thread(_)) => true,
        (Value::UserData(_), Value::UserData(_)) => true,
        _ => false,
    }
}

/// Two host values whose variants both match one interpreter value have the
/// same kind.
pub proof fn lemma_kind_matches_same(a: Value, b: Value, r: RawValue)
    requires
        kind_matches(a, r),
        kind_matches(b, r),
    ensures
        same_kind(a, b),
{
}

pub open spec fn value_kind_name(v: Value) -> Seq<char> {
    match v {
        Value::Nil => "nil"@,
        Value::Boolean(_) => "boolean"@,
        Value::LightUserData(_) => "lightuserdata"@,
        Value::Integer(_) => "integer"@,
        Value::String(_) => "string"@,
        Value::Table(_) => "table"@,
        Value::Function(_) => "function"@,
        Value::Thread(_) => "thread"@,
        Value::UserData(_) => "userdata"@,
    }
}

} // verus!
