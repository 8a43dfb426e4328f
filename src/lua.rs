use vstd::prelude::*;
use crate::error::Error;
use crate::heap::Object;
use crate::registry::Registry;
use crate::value::{RawValue, LuaRef, LuaString, Table, Value, kind_matches, same_kind, lemma_kind_matches_same};

verus! {

/// The most operand-stack slots a single call frame may use.
pub const MAX_STACK: usize = 1000000;

/// An instance handle on an interpreter context.
///
/// A root instance owns the context and its teardown; an ephemeral instance is
/// the handle a callback runs with, and shares its root's context and identity.
pub struct Lua {
    /// The operand stack of the running call.
    pub stack: Vec<RawValue>,
    /// How many operand-stack slots have been reserved.
    pub budget: usize,
    /// The registry of pinned values.
    pub registry: Registry,
    /// The heap objects that values name.
    pub objects: Vec<Object>,
    /// The registry entries keyed by name, latest assignment last.
    pub named: Vec<(Vec<u8>, RawValue)>,
    /// The registry slot that holds the global environment.
    pub globals_slot: usize,
    /// The cached dispatch table of each host type, by type identity.
    pub registered_userdata: Vec<(u64, usize)>,
    /// Slots of durable keys dropped without removal, awaiting release.
    pub pending_release: Vec<usize>,
    /// The identity of the root context.
    pub main_id: u64,
    /// Whether this handle does not own the context's teardown.
    pub ephemeral: bool,
}

/// What a name maps to among the named registry entries: the latest assignment,
/// or nil.
pub open spec fn named_lookup(entries: Seq<(Vec<u8>, RawValue)>, k: Seq<u8>) -> RawValue
    decreases entries.len(),
{
    if entries.len() == 0 {
        RawValue::Nil
    } else if entries.last().0@ == k {
        entries.last().1
    } else {
        named_lookup(entries.drop_last(), k)
    }
}

/// Whether object `o` of `objs` is the string `content`.
pub open spec fn is_str(objs: Seq<Object>, o: int, content: Seq<u8>) -> bool {
    0 <= o < objs.len() && (match objs[o] {
        Object::Str(c) => c@ == content,
        _ => false,
    })
}

/// Whether object `o` of `objs` is a table with assignments `entries`.
pub open spec fn is_table(objs: Seq<Object>, o: int, entries: Seq<(RawValue, RawValue)>) -> bool {
    0 <= o < objs.len() && (match objs[o] {
        Object::Table(e) => e@ == entries,
        _ => false,
    })
}

/// `b` is `a` with objects possibly added at the end.
pub open spec fn objects_grow(a: Seq<Object>, b: Seq<Object>) -> bool {
    a.len() <= b.len() && forall|i: int| 0 <= i < a.len() ==> #[trigger] b[i] == a[i]
}

/// The entries of an array-like table built from `values`: key `i + 1` for the
/// value at index `i`.
pub open spec fn sequence_entries(values: Seq<RawValue>) -> Seq<(RawValue, RawValue)> {
    Seq::new(values.len(), |i: int| (RawValue::Integer((i + 1) as i64), values[i]))
}

impl Lua {
    /// The context's invariants: a sound registry whose globals slot pins a
    /// table, and an operand stack within its reserved budget, which is within
    /// the frame limit.
    pub open spec fn wf(&self) -> bool {
        &&& self.registry.wf()
        &&& self.registry.live(self.globals_slot as int)
        &&& self.registry@[self.globals_slot as int] is Table
        &&& self.stack@.len() <= self.budget <= MAX_STACK
    }

    /// Whether `n` more operand-stack slots can be reserved.
    pub open spec fn room(&self, n: int) -> bool {
        self.stack@.len() + n <= MAX_STACK
    }

    /// The interpreter value a handle stands for in this context.
    pub open spec fn ref_value(&self, r: LuaRef) -> RawValue {
        if self.registry.live(r.registry_id as int) {
            self.registry@[r.registry_id as int]
        } else {
            RawValue::Nil
        }
    }

    /// The interpreter value a host value stands for in this context.
    pub open spec fn raw_of(&self, v: Value) -> RawValue {
        match v {
            Value::Nil => RawValue::Nil,
            Value::Boolean(b) => RawValue::Boolean(b),
            Value::LightUserData(p) => RawValue::LightUserData(p),
            Value::Integer(i) => RawValue::Integer(i),
            _ => self.ref_value(v.handle().unwrap()),
        }
    }

    /// Whether host value `v` is sound here: a handle it holds pins a value of
    /// the kind its variant names.
    pub open spec fn value_wf(&self, v: Value) -> bool {
        v.handle() is Some ==> kind_matches(v, self.raw_of(v))
    }

    /// Whether a host value may be handed to this context: values that hold a
    /// handle must come from the same root.
    pub open spec fn accepts(&self, v: Value) -> bool {
        v.handle() is Some ==> v.handle().unwrap().main_id == self.main_id
    }

    /// The contents of the string a handle stands for, if it stands for one.
    pub open spec fn string_of(&self, r: LuaRef) -> Option<Seq<u8>> {
        match self.ref_value(r) {
            RawValue::Str(o) => if (o as int) < self.objects@.len() {
                match self.objects@[o as int] {
                    Object::Str(c) => Some(c@),
                    _ => None,
                }
            } else {
                None
            },
            _ => None,
        }
    }

    /// The assignments of the table a handle stands for, if it stands for one.
    pub open spec fn table_of(&self, r: LuaRef) -> Option<Seq<(RawValue, RawValue)>> {
        match self.ref_value(r) {
            RawValue::Table(o) => if (o as int) < self.objects@.len() {
                match self.objects@[o as int] {
                    Object::Table(e) => Some(e@),
                    _ => None,
                }
            } else {
                None
            },
            _ => None,
        }
    }

    /// The bookkeeping that operations on values leave as it is.
    pub open spec fn same_bookkeeping(&self, o: Lua) -> bool {
        &&& self.named@ == o.named@
        &&& self.registered_userdata@ == o.registered_userdata@
        &&& self.pending_release@ == o.pending_release@
        &&& self.globals_slot == o.globals_slot
        &&& self.main_id == o.main_id
        &&& self.ephemeral == o.ephemeral
    }

    /// What the named registry entry `name` holds.
    pub open spec fn named_value(&self, name: Seq<u8>) -> RawValue {
        named_lookup(self.named@, name)
    }

    /// Reserves operand-stack slots so that `n` more values can be pushed.
    pub fn check_stack(&mut self, n: usize)
        requires
            old(self).wf(),
            old(self).room(n as int),
        ensures
            final(self).wf(),
            final(self).budget >= final(self).stack@.len() + n,
            final(self).stack@ == old(self).stack@,
            final(self).registry == old(self).registry,
            final(self).objects@ == old(self).objects@,
            final(self).named@ == old(self).named@,
            final(self).registered_userdata@ == old(self).registered_userdata@,
            final(self).pending_release@ == old(self).pending_release@,
            final(self).globals_slot == old(self).globals_slot,
            final(self).main_id == old(self).main_id,
            final(self).ephemeral == old(self).ephemeral,
    {
        let need = self.stack.len() + n;
        if self.budget < need {
            self.budget = need;
        }
    }

    /// Drops values from the top of the stack until `n` remain.
    pub fn settop(&mut self, n: usize)
        requires
            old(self).wf(),
            n <= old(self).stack@.len(),
        ensures
            final(self).wf(),
            final(self).stack@ == old(self).stack@.subrange(0, n as int),
            final(self).budget == old(self).budget,
            final(self).registry == old(self).registry,
            final(self).objects@ == old(self).objects@,
            final(self).same_bookkeeping(*old(self)),
    {
        self.stack.truncate(n);
    }

    /// Pushes one value within the reserved budget.
    pub(crate) fn push_raw(&mut self, v: RawValue)
        requires
            old(self).wf(),
            old(self).stack@.len() < old(self).budget,
        ensures
            final(self).wf(),
            final(self).stack@ == old(self).stack@.push(v),
            final(self).budget == old(self).budget,
            final(self).registry == old(self).registry,
            final(self).objects@ == old(self).objects@,
            final(self).named@ == old(self).named@,
            final(self).registered_userdata@ == old(self).registered_userdata@,
            final(self).pending_release@ == old(self).pending_release@,
            final(self).globals_slot == old(self).globals_slot,
            final(self).main_id == old(self).main_id,
            final(self).ephemeral == old(self).ephemeral,
    {
        self.stack.push(v);
    }

    /// Pops the top value.
    pub(crate) fn pop_raw(&mut self) -> (v: RawValue)
        requires
            old(self).wf(),
            old(self).stack@.len() > 0,
        ensures
            final(self).wf(),
            v == old(self).stack@.last(),
            final(self).stack@ == old(self).stack@.drop_last(),
            final(self).budget == old(self).budget,
            final(self).registry == old(self).registry,
            final(self).objects@ == old(self).objects@,
            final(self).named@ == old(self).named@,
            final(self).registered_userdata@ == old(self).registered_userdata@,
            final(self).pending_release@ == old(self).pending_release@,
            final(self).globals_slot == old(self).globals_slot,
            final(self).main_id == old(self).main_id,
            final(self).ephemeral == old(self).ephemeral,
    {
        match self.stack.pop() {
            Some(v) => v,
            None => RawValue::Nil,
        }
    }

    /// Pushes the value a handle pins; fails on a handle of another root.
    /// Uses one stack slot.
    pub fn push_ref(&mut self, lref: &LuaRef) -> (r: Result<(), Error>)
        requires
            old(self).wf(),
            old(self).stack@.len() < old(self).budget,
        ensures
            final(self).wf(),
            r is Ok <==> lref.main_id == old(self).main_id,
            r is Err ==> r->Err_0 is ForeignValue && *final(self) == *old(self),
            r is Ok ==> final(self).stack@ == old(self).stack@.push(old(self).ref_value(*lref)),
            final(self).budget == old(self).budget,
            final(self).registry == old(self).registry,
            final(self).objects@ == old(self).objects@,
            final(self).named@ == old(self).named@,
            final(self).registered_userdata@ == old(self).registered_userdata@,
            final(self).pending_release@ == old(self).pending_release@,
            final(self).globals_slot == old(self).globals_slot,
            final(self).main_id == old(self).main_id,
            final(self).ephemeral == old(self).ephemeral,
    {
        if lref.main_id != self.main_id {
            return Err(Error::ForeignValue);
        }
        let v = self.registry.get(lref.registry_id);
        self.push_raw(v);
        Ok(())
    }

    /// Pins the top value in a fresh registry slot and pops it.
    pub fn pop_ref(&mut self) -> (r: LuaRef)
        requires
            old(self).wf(),
            old(self).stack@.len() > 0,
        ensures
            final(self).wf(),
            final(self).stack@ == old(self).stack@.drop_last(),
            !old(self).registry.live(r.registry_id as int),
            final(self).registry@ == old(self).registry@.insert(r.registry_id as int, old(self).stack@.last()),
            final(self).registry.live_count() == old(self).registry.live_count() + 1,
            final(self).ref_value(r) == old(self).stack@.last(),
            r.main_id == old(self).main_id,
            r.drop_unref,
            final(self).budget == old(self).budget,
            final(self).objects@ == old(self).objects@,
            final(self).named@ == old(self).named@,
            final(self).registered_userdata@ == old(self).registered_userdata@,
            final(self).pending_release@ == old(self).pending_release@,
            final(self).globals_slot == old(self).globals_slot,
            final(self).main_id == old(self).main_id,
            final(self).ephemeral == old(self).ephemeral,
    {
        let v = self.pop_raw();
        let id = self.registry.reference(v);
        proof {
            assert(self.registry@.contains_key(id as int));
            assert(self.registry@[id as int] == v);
        }
        LuaRef { main_id: self.main_id, registry_id: id, drop_unref: true }
    }

    /// Whether dropping handle `lref` releases its slot here: it must be the
    /// handle's own to release, come from this root, and not name the slot of
    /// the global environment, which lives as long as the context.
    pub open spec fn releases(&self, lref: LuaRef) -> bool {
        lref.drop_unref && lref.main_id == self.main_id && lref.registry_id != self.globals_slot
    }

    /// Drops a handle: its slot is released, unless a scope has taken the slot
    /// over, the handle belongs to another root, or it names the slot of the
    /// global environment.
    pub fn release_ref(&mut self, lref: LuaRef)
        requires
            old(self).wf(),
        ensures
            final(self).wf(),
            old(self).releases(lref) ==> final(self).registry@ == old(self).registry@.remove(lref.registry_id as int),
            old(self).releases(lref) && old(self).registry.live(lref.registry_id as int)
                ==> final(self).registry.live_count() == old(self).registry.live_count() - 1,
            !old(self).releases(lref) ==> final(self).registry == old(self).registry,
            final(self).stack@ == old(self).stack@,
            final(self).budget == old(self).budget,
            final(self).objects@ == old(self).objects@,
            final(self).named@ == old(self).named@,
            final(self).registered_userdata@ == old(self).registered_userdata@,
            final(self).pending_release@ == old(self).pending_release@,
            final(self).globals_slot == old(self).globals_slot,
            final(self).main_id == old(self).main_id,
            final(self).ephemeral == old(self).ephemeral,
    {
        if lref.drop_unref && lref.main_id == self.main_id && lref.registry_id != self.globals_slot {
            self.registry.unref(lref.registry_id);
        }
    }

    /// Pushes a host value. Uses one stack slot.
    pub fn push_value(&mut self, v: &Value) -> (r: Result<(), Error>)
        requires
            old(self).wf(),
            old(self).stack@.len() < old(self).budget,
        ensures
            final(self).wf(),
            r is Ok <==> old(self).accepts(*v),
            r is Err ==> r->Err_0 is ForeignValue && *final(self) == *old(self),
            r is Ok ==> final(self).stack@ == old(self).stack@.push(old(self).raw_of(*v)),
            final(self).budget == old(self).budget,
            final(self).registry == old(self).registry,
            final(self).objects@ == old(self).objects@,
            final(self).named@ == old(self).named@,
            final(self).registered_userdata@ == old(self).registered_userdata@,
            final(self).pending_release@ == old(self).pending_release@,
            final(self).globals_slot == old(self).globals_slot,
            final(self).main_id == old(self).main_id,
            final(self).ephemeral == old(self).ephemeral,
    {
        match v {
            Value::Nil => {
                self.push_raw(RawValue::Nil);
                Ok(())
            },
            Value::Boolean(b) => {
                self.push_raw(RawValue::Boolean(*b));
                Ok(())
            },
            Value::LightUserData(p) => {
                self.push_raw(RawValue::LightUserData(*p));
                Ok(())
            },
            Value::Integer(i) => {
                self.push_raw(RawValue::Integer(*i));
                Ok(())
            },
            Value::String(s) => self.push_ref(&s.0),
            Value::Table(t) => self.push_ref(&t.0),
            Value::Function(f) => self.push_ref(&f.0),
            Value::Thread(t) => self.push_ref(&t.0),
            Value::UserData(u) => self.push_ref(&u.0),
        }
    }

    /// Pops the top value as a host value, pinning it if it is collectable.
    pub fn pop_value(&mut self) -> (r: Value)
        requires
            old(self).wf(),
            old(self).stack@.len() > 0,
        ensures
            final(self).wf(),
            final(self).stack@ == old(self).stack@.drop_last(),
            final(self).raw_of(r) == old(self).stack@.last(),
            kind_matches(r, old(self).stack@.last()),
            old(self).stack@.last().object() is None ==> final(self).registry == old(self).registry && r.handle() is None,
            old(self).stack@.last().object() is Some ==> {
                &&& r.handle() is Some
                &&& r.handle().unwrap().main_id == old(self).main_id
                &&& r.handle().unwrap().drop_unref
                &&& !old(self).registry.live(r.handle().unwrap().registry_id as int)
                &&& final(self).registry@ == old(self).registry@.insert(
                    r.handle().unwrap().registry_id as int,
                    old(self).stack@.last(),
                )
                &&& final(self).registry.live_count() == old(self).registry.live_count() + 1
            },
            final(self).budget == old(self).budget,
            final(self).objects@ == old(self).objects@,
            final(self).named@ == old(self).named@,
            final(self).registered_userdata@ == old(self).registered_userdata@,
            final(self).pending_release@ == old(self).pending_release@,
            final(self).globals_slot == old(self).globals_slot,
            final(self).main_id == old(self).main_id,
            final(self).ephemeral == old(self).ephemeral,
    {
        let top = self.stack[self.stack.len() - 1];
        match top {
            RawValue::Nil => {
                self.pop_raw();
                Value::Nil
            },
            RawValue::Boolean(b) => {
                self.pop_raw();
                Value::Boolean(b)
            },
            RawValue::LightUserData(p) => {
                self.pop_raw();
                Value::LightUserData(p)
            },
            RawValue::Integer(i) => {
                self.pop_raw();
                Value::Integer(i)
            },
            RawValue::Str(_) => Value::String(LuaString(self.pop_ref())),
            RawValue::Table(_) => Value::Table(Table(self.pop_ref())),
            RawValue::Function(_) => Value::Function(crate::value::Function(self.pop_ref())),
            RawValue::Thread(_) => Value::Thread(crate::value::Thread(self.pop_ref())),
            RawValue::UserData(_) => Value::UserData(crate::value::AnyUserData(self.pop_ref())),
        }
    }
}

/// Pushing a sound host value and popping it again gives back a value of the
/// same variant, carrying the same data or standing for the same interpreter
/// value.
pub proof fn push_pop_round_trip(before: Lua, pushed: Lua, after: Lua, v: Value, r: Value)
    requires
        before.value_wf(v),
        pushed.stack@ == before.stack@.push(before.raw_of(v)),
        kind_matches(r, pushed.stack@.last()),
        after.raw_of(r) == pushed.stack@.last(),
    ensures
        same_kind(v, r),
        after.raw_of(r) == before.raw_of(v),
{
    assert(pushed.stack@.last() == before.raw_of(v));
    lemma_kind_matches_same(v, r, before.raw_of(v));
}

/// Over any sequence of top-level operations, each of which leaves the operand
/// stack as it found it (as every public operation here ensures), the stack at
/// the end is the stack at the start, and so is its depth.
pub proof fn stack_balanced_across_calls(states: Seq<Lua>)
    requires
        states.len() > 0,
        forall|i: int| 0 <= i < states.len() - 1 ==> (#[trigger] states[i + 1]).stack@ == states[i].stack@,
    ensures
        states.last().stack@ == states[0].stack@,
        states.last().stack@.len() == states[0].stack@.len(),
    decreases states.len(),
{
    if states.len() > 1 {
        let prefix = states.drop_last();
        assert forall|i: int| 0 <= i < prefix.len() - 1 implies (#[trigger] prefix[i + 1]).stack@ == prefix[i].stack@ by {
            assert(prefix[i + 1] == states[i + 1]);
            assert(prefix[i] == states[i]);
        }
        stack_balanced_across_calls(prefix);
        let k = states.len() - 2;
        assert(states[k + 1].stack@ == states[k].stack@);
        assert(prefix.last() == states[k]);
    }
}

} // verus!
