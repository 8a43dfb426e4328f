use vstd::prelude::*;
use vstd::string::StringSliceAdditionalSpecFns;
use crate::error::Error;
use crate::heap::{Object, bytes_eq, bytes_copy};
use crate::lua::{Lua, is_str, is_table, objects_grow, sequence_entries};
use crate::value::{RawValue, LuaString, Table, Value};

verus! {

/// Finds the interned string with contents `c`.
fn find_str(objs: &Vec<Object>, c: &Vec<u8>) -> (r: Option<usize>)
    ensures
        r is Some ==> is_str(objs@, r.unwrap() as int, c@),
{
    let mut i: usize = 0;
    while i < objs.len()
        invariant
            i <= objs@.len(),
        decreases objs@.len() - i,
    {
        match &objs[i] {
            Object::Str(d) => {
                if bytes_eq(d, c) {
                    return Some(i);
                }
            },
            _ => {},
        }
        i = i + 1;
    }
    None
}

impl Lua {
    /// Adds an object to the heap and returns its index.
    pub fn new_object(&mut self, obj: Object) -> (o: usize)
        requires
            old(self).wf(),
        ensures
            final(self).wf(),
            o == old(self).objects@.len(),
            final(self).objects@ == old(self).objects@.push(obj),
            final(self).stack@ == old(self).stack@,
            final(self).budget == old(self).budget,
            final(self).registry == old(self).registry,
            final(self).same_bookkeeping(*old(self)),
    {
        let o = self.objects.len();
        self.objects.push(obj);
        o
    }

    /// The interned string with contents `content`, added if it is new.
    pub fn intern(&mut self, content: Vec<u8>) -> (o: usize)
        requires
            old(self).wf(),
        ensures
            final(self).wf(),
            is_str(final(self).objects@, o as int, content@),
            objects_grow(old(self).objects@, final(self).objects@),
            final(self).stack@ == old(self).stack@,
            final(self).budget == old(self).budget,
            final(self).registry == old(self).registry,
            final(self).same_bookkeeping(*old(self)),
    {
        match find_str(&self.objects, &content) {
            Some(o) => o,
            None => {
                let ghost c = content@;
                let o = self.new_object(Object::Str(content));
                assert(self.objects@[o as int] == Object::Str(content));
                o
            },
        }
    }

    /// Appends the assignment `k = v` to table object `o`.
    pub fn table_assign(&mut self, o: usize, k: RawValue, v: RawValue)
        requires
            old(self).wf(),
            (o as int) < old(self).objects@.len(),
            old(self).objects@[o as int] is Table,
        ensures
            final(self).wf(),
            final(self).objects@.len() == old(self).objects@.len(),
            forall|i: int| 0 <= i < old(self).objects@.len() && i != o ==> #[trigger] final(self).objects@[i] == old(self).objects@[i],
            is_table(final(self).objects@, o as int, old(self).objects@[o as int]->Table_0@.push((k, v))),
            final(self).stack@ == old(self).stack@,
            final(self).budget == old(self).budget,
            final(self).registry == old(self).registry,
            final(self).same_bookkeeping(*old(self)),
    {
        let mut obj = Object::Finalizer;
        std::mem::swap(&mut obj, &mut self.objects[o]);
        match obj {
            Object::Table(mut entries) => {
                entries.push((k, v));
                self.objects.set(o, Object::Table(entries));
            },
            other => {
                self.objects.set(o, other);
            },
        }
    }

    /// Pins a new interned string with the contents of `s`.
    pub fn create_string(&mut self, s: &str) -> (r: Result<LuaString, Error>)
        requires
            old(self).wf(),
            old(self).room(4),
        ensures
            final(self).wf(),
            r is Ok,
            final(self).string_of(r->Ok_0.0) == Some(s.spec_bytes()),
            r->Ok_0.0.main_id == old(self).main_id,
            !old(self).registry.live(r->Ok_0.0.registry_id as int),
            final(self).registry.live_count() == old(self).registry.live_count() + 1,
            final(self).registry@.remove(r->Ok_0.0.registry_id as int) == old(self).registry@,
            objects_grow(old(self).objects@, final(self).objects@),
            final(self).stack@ == old(self).stack@,
            final(self).same_bookkeeping(*old(self)),
    {
        self.check_stack(4);
        let content = bytes_copy(s.as_bytes());
        let o = self.intern(content);
        self.push_string_object(o);
        let r = self.pop_ref();
        proof {
            assert(old(self).registry@ =~= self.registry@.remove(r.registry_id as int));
        }
        Ok(LuaString(r))
    }

    /// Pushes string object `o`.
    fn push_string_object(&mut self, o: usize)
        requires
            old(self).wf(),
            old(self).stack@.len() < old(self).budget,
        ensures
            final(self).wf(),
            final(self).stack@ == old(self).stack@.push(RawValue::Str(o)),
            final(self).budget == old(self).budget,
            final(self).registry == old(self).registry,
            final(self).objects@ == old(self).objects@,
            final(self).same_bookkeeping(*old(self)),
    {
        self.stack.push(RawValue::Str(o));
    }
}

impl Lua {
    /// Whether every pair of `cont` can be assigned into a table here: both
    /// values come from this root and no key is nil.
    pub open spec fn assignable(&self, cont: Seq<(Value, Value)>) -> bool {
        forall|i: int|
            0 <= i < cont.len() ==> {
                &&& self.accepts(#[trigger] cont[i].0)
                &&& self.accepts(cont[i].1)
                &&& self.raw_of(cont[i].0) != RawValue::Nil
            }
    }

    /// The assignments that `cont` stands for here.
    pub open spec fn raw_pairs(&self, cont: Seq<(Value, Value)>) -> Seq<(RawValue, RawValue)> {
        Seq::new(cont.len(), |i: int| (self.raw_of(cont[i].0), self.raw_of(cont[i].1)))
    }

    /// Pins the value on top of the stack as a new table handle.
    fn pop_table(&mut self) -> (r: Table)
        requires
            old(self).wf(),
            old(self).stack@.len() > 0,
        ensures
            final(self).wf(),
            final(self).stack@ == old(self).stack@.drop_last(),
            !old(self).registry.live(r.0.registry_id as int),
            final(self).registry@ == old(self).registry@.insert(r.0.registry_id as int, old(self).stack@.last()),
            final(self).registry.live_count() == old(self).registry.live_count() + 1,
            final(self).ref_value(r.0) == old(self).stack@.last(),
            r.0.main_id == old(self).main_id,
            final(self).budget == old(self).budget,
            final(self).objects@ == old(self).objects@,
            final(self).same_bookkeeping(*old(self)),
    {
        Table(self.pop_ref())
    }

    /// Creates and pins a new empty table.
    pub fn create_table(&mut self) -> (r: Result<Table, Error>)
        requires
            old(self).wf(),
            old(self).room(4),
        ensures
            final(self).wf(),
            r is Ok,
            final(self).table_of(r->Ok_0.0) == Some(Seq::<(RawValue, RawValue)>::empty()),
            r->Ok_0.0.main_id == old(self).main_id,
            !old(self).registry.live(r->Ok_0.0.registry_id as int),
            final(self).registry@.remove(r->Ok_0.0.registry_id as int) == old(self).registry@,
            final(self).registry.live_count() == old(self).registry.live_count() + 1,
            objects_grow(old(self).objects@, final(self).objects@),
            final(self).stack@ == old(self).stack@,
            final(self).same_bookkeeping(*old(self)),
    {
        self.check_stack(4);
        let empty: Vec<(RawValue, RawValue)> = Vec::new();
        let ghost ev = empty;
        let o = self.new_object(Object::Table(empty));
        self.push_raw(RawValue::Table(o));
        let t = self.pop_table();
        proof {
            assert(old(self).registry@ =~= self.registry@.remove(t.0.registry_id as int));
            assert(self.objects@[o as int] == Object::Table(ev));
            assert(ev@ =~= Seq::<(RawValue, RawValue)>::empty());
        }
        Ok(t)
    }

    /// Creates a table holding the pairs of `cont`, assigned in order.
    ///
    /// Fails, leaving the registry and the stack as they were, on a value of
    /// another root or a nil key.
    pub fn create_table_from(&mut self, cont: &Vec<(Value, Value)>) -> (r: Result<Table, Error>)
        requires
            old(self).wf(),
            old(self).room(6),
        ensures
            final(self).wf(),
            r is Ok <==> old(self).assignable(cont@),
            r is Ok ==> {
                &&& final(self).table_of(r->Ok_0.0) == Some(old(self).raw_pairs(cont@))
                &&& r->Ok_0.0.main_id == old(self).main_id
                &&& !old(self).registry.live(r->Ok_0.0.registry_id as int)
                &&& final(self).registry@.remove(r->Ok_0.0.registry_id as int) == old(self).registry@
                &&& final(self).registry.live_count() == old(self).registry.live_count() + 1
            },
            r is Err ==> final(self).registry == old(self).registry,
            objects_grow(old(self).objects@, final(self).objects@),
            final(self).stack@ == old(self).stack@,
            final(self).same_bookkeeping(*old(self)),
    {
        self.check_stack(6);
        let base = self.stack.len();
        let empty: Vec<(RawValue, RawValue)> = Vec::new();
        let ghost ev = empty;
        let o = self.new_object(Object::Table(empty));
        self.push_raw(RawValue::Table(o));
        assert(self.objects@[o as int] == Object::Table(ev));
        assert(old(self).raw_pairs(cont@).subrange(0, 0) =~= ev@);
        let mut i: usize = 0;
        while i < cont.len()
            invariant
                self.wf(),
                i <= cont@.len(),
                base == old(self).stack@.len(),
                self.stack@ == old(self).stack@.push(RawValue::Table(o)),
                self.budget >= old(self).stack@.len() + 6,
                self.registry == old(self).registry,
                self.objects@.len() == old(self).objects@.len() + 1,
                o == old(self).objects@.len(),
                forall|j: int| 0 <= j < old(self).objects@.len() ==> #[trigger] self.objects@[j] == old(self).objects@[j],
                is_table(self.objects@, o as int, old(self).raw_pairs(cont@).subrange(0, i as int)),
                self.same_bookkeeping(*old(self)),
                forall|j: int|
                    0 <= j < i ==> {
                        &&& old(self).accepts(#[trigger] cont@[j].0)
                        &&& old(self).accepts(cont@[j].1)
                        &&& old(self).raw_of(cont@[j].0) != RawValue::Nil
                    },
            decreases cont@.len() - i,
        {
            let pair = &cont[i];
            match self.push_value(&pair.0) {
                Ok(()) => {},
                Err(e) => {
                    self.settop(base);
                    return Err(e);
                },
            }
            match self.push_value(&pair.1) {
                Ok(()) => {},
                Err(e) => {
                    self.settop(base);
                    return Err(e);
                },
            }
            let v = self.pop_raw();
            let k = self.pop_raw();
            if k == RawValue::Nil {
                self.settop(base);
                return Err(Error::RuntimeError("index is nil"));
            }
            self.table_assign(o, k, v);
            proof {
                assert(old(self).raw_pairs(cont@).subrange(0, i + 1) =~=
                    old(self).raw_pairs(cont@).subrange(0, i as int).push((k, v)));
            }
            i = i + 1;
        }
        let t = self.pop_table();
        proof {
            assert(old(self).raw_pairs(cont@).subrange(0, cont@.len() as int) =~= old(self).raw_pairs(cont@));
            assert(old(self).registry@ =~= self.registry@.remove(t.0.registry_id as int));
            assert(self.stack@ =~= old(self).stack@);
        }
        Ok(t)
    }

    /// Creates a table holding the values of `cont` under the keys `1..`.
    ///
    /// Fails, leaving the registry and the stack as they were, on a value of
    /// another root.
    pub fn create_sequence_from(&mut self, cont: &Vec<Value>) -> (r: Result<Table, Error>)
        requires
            old(self).wf(),
            old(self).room(6),
            cont@.len() < i64::MAX,
        ensures
            final(self).wf(),
            r is Ok <==> forall|i: int| 0 <= i < cont@.len() ==> old(self).accepts(#[trigger] cont@[i]),
            r is Ok ==> {
                &&& final(self).table_of(r->Ok_0.0) == Some(sequence_entries(
                    Seq::new(cont@.len(), |i: int| old(self).raw_of(cont@[i])),
                ))
                &&& r->Ok_0.0.main_id == old(self).main_id
                &&& !old(self).registry.live(r->Ok_0.0.registry_id as int)
                &&& final(self).registry@.remove(r->Ok_0.0.registry_id as int) == old(self).registry@
                &&& final(self).registry.live_count() == old(self).registry.live_count() + 1
            },
            r is Err ==> final(self).registry == old(self).registry,
            objects_grow(old(self).objects@, final(self).objects@),
            final(self).stack@ == old(self).stack@,
            final(self).same_bookkeeping(*old(self)),
    {
        self.check_stack(6);
        let base = self.stack.len();
        let empty: Vec<(RawValue, RawValue)> = Vec::new();
        let ghost ev = empty;
        let o = self.new_object(Object::Table(empty));
        self.push_raw(RawValue::Table(o));
        assert(self.objects@[o as int] == Object::Table(ev));
        let ghost raws = Seq::new(cont@.len(), |i: int| old(self).raw_of(cont@[i]));
        assert(sequence_entries(raws).subrange(0, 0) =~= ev@);
        let mut i: usize = 0;
        while i < cont.len()
            invariant
                self.wf(),
                i <= cont@.len(),
                cont@.len() < i64::MAX,
                base == old(self).stack@.len(),
                raws == Seq::new(cont@.len(), |i: int| old(self).raw_of(cont@[i])),
                self.stack@ == old(self).stack@.push(RawValue::Table(o)),
                self.budget >= old(self).stack@.len() + 6,
                self.registry == old(self).registry,
                self.objects@.len() == old(self).objects@.len() + 1,
                o == old(self).objects@.len(),
                forall|j: int| 0 <= j < old(self).objects@.len() ==> #[trigger] self.objects@[j] == old(self).objects@[j],
                is_table(self.objects@, o as int, sequence_entries(raws).subrange(0, i as int)),
                self.same_bookkeeping(*old(self)),
                forall|j: int| 0 <= j < i ==> old(self).accepts(#[trigger] cont@[j]),
            decreases cont@.len() - i,
        {
            self.push_raw(RawValue::Integer((i + 1) as i64));
            match self.push_value(&cont[i]) {
                Ok(()) => {},
                Err(e) => {
                    self.settop(base);
                    return Err(e);
                },
            }
            let v = self.pop_raw();
            let k = self.pop_raw();
            self.table_assign(o, k, v);
            proof {
                assert(sequence_entries(raws).subrange(0, i + 1) =~=
                    sequence_entries(raws).subrange(0, i as int).push((k, v)));
            }
            i = i + 1;
        }
        let t = self.pop_table();
        proof {
            assert(sequence_entries(raws).subrange(0, cont@.len() as int) =~= sequence_entries(raws));
            assert(old(self).registry@ =~= self.registry@.remove(t.0.registry_id as int));
            assert(self.stack@ =~= old(self).stack@);
        }
        Ok(t)
    }

    /// A handle to the global environment.
    pub fn globals(&mut self) -> (r: Table)
        requires
            old(self).wf(),
            old(self).room(2),
        ensures
            final(self).wf(),
            final(self).ref_value(r.0) == old(self).registry.get_spec(old(self).globals_slot as int),
            r.0.main_id == old(self).main_id,
            !old(self).registry.live(r.0.registry_id as int),
            final(self).registry@.remove(r.0.registry_id as int) == old(self).registry@,
            final(self).registry.live_count() == old(self).registry.live_count() + 1,
            final(self).objects@ == old(self).objects@,
            final(self).stack@ == old(self).stack@,
            final(self).same_bookkeeping(*old(self)),
    {
        self.check_stack(2);
        let g = self.registry.get(self.globals_slot);
        self.push_raw(g);
        let t = self.pop_table();
        proof {
            assert(old(self).registry@ =~= self.registry@.remove(t.0.registry_id as int));
            assert(self.stack@ =~= old(self).stack@);
        }
        t
    }
}

} // verus!
