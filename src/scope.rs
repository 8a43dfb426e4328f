use vstd::prelude::*;
use crate::error::Error;
use crate::heap::Object;
use crate::keys::{id_set, lemma_id_set_step};
use crate::lua::Lua;
use crate::userdata::{UserDataMethods, stable};
use crate::value::{RawValue, Function, AnyUserData};

verus! {

/// A bounded region in which closures and host objects that do not live for
/// the whole process may be exposed. Each registration records the registry
/// slot of what it exposed; `close` invalidates them all, in order.
#[derive(Debug)]
pub struct Scope {
    pub main_id: u64,
    pub destructors: Vec<usize>,
}

/// The object a slot pins in `l`, as an index.
pub open spec fn pinned_object(l: Lua, slot: usize) -> int {
    match l.registry.get_spec(slot as int).object() {
        Some(o) => o as int,
        None => -1,
    }
}

/// Whether object `o` of `objs` carries a host payload that can be detached.
pub open spec fn has_payload_slot(objs: Seq<Object>, o: int) -> bool {
    0 <= o < objs.len() && (objs[o] is Callback || objs[o] is UserData)
}

/// The host payload object `o` carries.
pub open spec fn payload_of(objs: Seq<Object>, o: int) -> Option<u64> {
    match objs[o] {
        Object::Callback { payload, .. } => payload,
        Object::UserData { payload, .. } => payload,
        _ => None,
    }
}

/// Object `obj` with its host payload detached; every other part, and its
/// kind, kept.
pub open spec fn detached_form(obj: Object) -> Object {
    match obj {
        Object::Callback { exclusive, busy, .. } => Object::Callback { payload: None, exclusive, busy },
        Object::UserData { type_id, metatable, .. } => Object::UserData { type_id, payload: None, metatable },
        other => other,
    }
}

/// Whether object `o` no longer carries a host payload.
pub open spec fn detached(objs: Seq<Object>, o: int) -> bool {
    has_payload_slot(objs, o) && payload_of(objs, o) is None
}

impl Scope {
    /// The scope's invariant in `l`: it belongs to `l`'s root, and its slots are
    /// distinct, pinned, and name distinct callbacks or host objects.
    pub open spec fn wf(&self, l: Lua) -> bool {
        let d = self.destructors@;
        &&& self.main_id == l.main_id
        &&& forall|i: int| 0 <= i < d.len() ==> l.registry.live(#[trigger] d[i] as int)
        &&& forall|i: int| 0 <= i < d.len() ==> !(l.registry@[#[trigger] d[i] as int] is Table)
        &&& forall|i: int| 0 <= i < d.len() ==> has_payload_slot(l.objects@, #[trigger] pinned_object(l, d[i]))
        &&& forall|i: int, j: int| 0 <= i < j < d.len() ==> #[trigger] d[i] != #[trigger] d[j]
        &&& forall|i: int, j: int| 0 <= i < j < d.len()
            ==> #[trigger] pinned_object(l, d[i]) != #[trigger] pinned_object(l, d[j])
    }

    /// Wraps host closure `payload` as a function that stops working when the
    /// scope closes. Its handle does not release the slot: the scope does.
    pub fn create_function(&mut self, lua: &mut Lua, payload: u64) -> (r: Result<Function, Error>)
        requires
            old(lua).wf(),
            old(lua).room(2),
            old(self).wf(*old(lua)),
        ensures
            final(lua).wf(),
            final(self).wf(*final(lua)),
            r is Ok,
            final(lua).callback_obj(r->Ok_0.0) == Some(old(lua).objects@.len() as int),
            final(lua).objects@ == old(lua).objects@.push(Object::Callback { payload: Some(payload), exclusive: false, busy: false }),
            !r->Ok_0.0.drop_unref,
            r->Ok_0.0.main_id == old(lua).main_id,
            final(self).main_id == old(self).main_id,
            final(self).destructors@ == old(self).destructors@.push(r->Ok_0.0.registry_id),
            final(lua).stack@ == old(lua).stack@,
            final(lua).same_bookkeeping(*old(lua)),
    {
        let f = match lua.create_function(payload) {
            Ok(f) => f,
            Err(e) => return Err(e),
        };
        proof {
            lemma_scope_extend(*old(self), *old(lua), *lua, f.0.registry_id, old(lua).objects@.len() as int);
        }
        Ok(self.adopt(f))
    }

    /// Wraps mutable host closure `payload` as a function that refuses
    /// reentrant calls and stops working when the scope closes.
    pub fn create_function_mut(&mut self, lua: &mut Lua, payload: u64) -> (r: Result<Function, Error>)
        requires
            old(lua).wf(),
            old(lua).room(2),
            old(self).wf(*old(lua)),
        ensures
            final(lua).wf(),
            final(self).wf(*final(lua)),
            r is Ok,
            final(lua).callback_obj(r->Ok_0.0) == Some(old(lua).objects@.len() as int),
            final(lua).objects@ == old(lua).objects@.push(Object::Callback { payload: Some(payload), exclusive: true, busy: false }),
            !r->Ok_0.0.drop_unref,
            r->Ok_0.0.main_id == old(lua).main_id,
            final(self).main_id == old(self).main_id,
            final(self).destructors@ == old(self).destructors@.push(r->Ok_0.0.registry_id),
            final(lua).stack@ == old(lua).stack@,
            final(lua).same_bookkeeping(*old(lua)),
    {
        let f = match lua.create_function_mut(payload) {
            Ok(f) => f,
            Err(e) => return Err(e),
        };
        proof {
            lemma_scope_extend(*old(self), *old(lua), *lua, f.0.registry_id, old(lua).objects@.len() as int);
        }
        Ok(self.adopt(f))
    }

    /// Exposes host object `payload` of host type `type_id` until the scope
    /// closes; afterwards the object reads back as having no payload.
    pub fn create_userdata(&mut self, lua: &mut Lua, type_id: u64, payload: u64, decl: &UserDataMethods) -> (r: Result<AnyUserData, Error>)
        requires
            old(lua).wf(),
            old(lua).room(5),
            old(self).wf(*old(lua)),
        ensures
            final(lua).wf(),
            final(self).wf(*final(lua)),
            r is Ok,
            ({
                let o = final(lua).objects@.len() - 1;
                &&& final(lua).ref_value(r->Ok_0.0) == RawValue::UserData(o as usize)
                &&& (final(lua).objects@[o] matches Object::UserData { type_id: t, payload: p, .. }
                    && t == type_id && p == Some(payload))
            }),
            !r->Ok_0.0.drop_unref,
            r->Ok_0.0.main_id == old(lua).main_id,
            final(self).main_id == old(self).main_id,
            final(self).destructors@ == old(self).destructors@.push(r->Ok_0.0.registry_id),
            final(lua).stack@ == old(lua).stack@,
            final(lua).named@ == old(lua).named@,
            final(lua).pending_release@ == old(lua).pending_release@,
            final(lua).main_id == old(lua).main_id,
    {
        let u = match lua.do_create_userdata(type_id, payload, decl) {
            Ok(u) => u,
            Err(e) => return Err(e),
        };
        let count: usize = lua.objects.len();
        proof {
            let o = count - 1;
            assert(lua.registry@.contains_key(u.0.registry_id as int));
            assert(pinned_object(*lua, u.0.registry_id) == o);
            lemma_scope_extend(*old(self), *old(lua), *lua, u.0.registry_id, o);
        }
        let mut u = u;
        u.0.drop_unref = false;
        self.destructors.push(u.0.registry_id);
        Ok(u)
    }

    /// Ends the scope: every slot it registered is released and every
    /// callback or host object it exposed is detached from its payload, in
    /// registration order. Only then are the payloads handed back, in the same
    /// order, for the host to destroy; a stale handle that outlives the scope
    /// finds no payload.
    pub fn close(self, lua: &mut Lua) -> (r: Vec<Option<u64>>)
        requires
            old(lua).wf(),
            self.wf(*old(lua)),
        ensures
            final(lua).wf(),
            r@.len() == self.destructors@.len(),
            forall|i: int| 0 <= i < self.destructors@.len() ==> {
                let o = pinned_object(*old(lua), #[trigger] self.destructors@[i]);
                &&& r@[i] == payload_of(old(lua).objects@, o)
                &&& detached(final(lua).objects@, o)
                &&& final(lua).objects@[o] == detached_form(old(lua).objects@[o])
            },
            final(lua).registry@ == old(lua).registry@.remove_keys(id_set(self.destructors@)),
            final(lua).objects@.len() == old(lua).objects@.len(),
            forall|o: int| 0 <= o < old(lua).objects@.len()
                && (forall|i: int| 0 <= i < self.destructors@.len() ==> o != pinned_object(*old(lua), #[trigger] self.destructors@[i]))
                ==> #[trigger] final(lua).objects@[o] == old(lua).objects@[o],
            final(lua).stack@ == old(lua).stack@,
            final(lua).same_bookkeeping(*old(lua)),
    {
        let ghost d = self.destructors@;
        let ghost l0 = *lua;
        let mut out: Vec<Option<u64>> = Vec::new();
        let mut i: usize = 0;
        assert(d.subrange(0, 0) =~= Seq::<usize>::empty());
        assert(id_set(d.subrange(0, 0)) =~= Set::<int>::empty());
        assert(l0.registry@.remove_keys(Set::<int>::empty()) =~= l0.registry@);
        while i < self.destructors.len()
            invariant
                lua.wf(),
                d == self.destructors@,
                self.wf(l0),
                l0 == *old(lua),
                i <= d.len(),
                out@.len() == i,
                lua.registry@ == l0.registry@.remove_keys(id_set(d.subrange(0, i as int))),
                lua.objects@.len() == l0.objects@.len(),
                forall|j: int| 0 <= j < i ==> {
                    let o = pinned_object(l0, #[trigger] d[j]);
                    &&& out@[j] == payload_of(l0.objects@, o)
                    &&& detached(lua.objects@, o)
                    &&& lua.objects@[o] == detached_form(l0.objects@[o])
                },
                forall|o: int| 0 <= o < l0.objects@.len()
                    && (forall|j: int| 0 <= j < i ==> o != pinned_object(l0, #[trigger] d[j]))
                    ==> #[trigger] lua.objects@[o] == l0.objects@[o],
                lua.stack@ == l0.stack@,
                lua.same_bookkeeping(l0),
            decreases d.len() - i,
        {
            let slot = self.destructors[i];
            let ghost o = pinned_object(l0, slot);
            proof {
                assert(l0.registry.live(slot as int));
                assert(l0.registry@.contains_key(slot as int));
                assert(!id_set(d.subrange(0, i as int)).contains(slot as int)) by {
                    if id_set(d.subrange(0, i as int)).contains(slot as int) {
                        let j = choose|j: int| 0 <= j < i && d.subrange(0, i as int)[j] as int == slot as int;
                        assert(d[j] == d[i as int]);
                    }
                }
                assert(lua.registry@.contains_key(slot as int));
                assert(!(l0.registry@[slot as int] is Table));
                assert(slot != lua.globals_slot);
                assert(has_payload_slot(l0.objects@, o));
                assert forall|j: int| 0 <= j < i implies o != pinned_object(l0, #[trigger] d[j]) by {
                    assert(pinned_object(l0, d[j]) != pinned_object(l0, d[i as int]));
                }
                assert(lua.objects@[o] == l0.objects@[o]);
            }
            let v = lua.registry.get(slot);
            lua.registry.unref(slot);
            let obj = match v {
                RawValue::Function(obj) => obj,
                RawValue::UserData(obj) => obj,
                RawValue::Str(obj) => obj,
                RawValue::Table(obj) => obj,
                RawValue::Thread(obj) => obj,
                _ => 0,
            };
            assert(obj as int == o);
            let ghost before = lua.objects@;
            let p = lua.detach(obj);
            out.push(p);
            proof {
                lemma_id_set_step(d, i as int);
                assert(lua.registry@ =~= l0.registry@.remove_keys(id_set(d.subrange(0, i + 1))));
                assert forall|j: int| 0 <= j < i + 1 implies ({
                    let oj = pinned_object(l0, #[trigger] d[j]);
                    &&& out@[j] == payload_of(l0.objects@, oj)
                    &&& detached(lua.objects@, oj)
                    &&& lua.objects@[oj] == detached_form(l0.objects@[oj])
                }) by {
                    if j < i {
                        let oj = pinned_object(l0, d[j]);
                        assert(oj != o);
                        assert(lua.objects@[oj] == before[oj]);
                    }
                }
            }
            i = i + 1;
        }
        proof {
            assert(d.subrange(0, d.len() as int) =~= d);
        }
        out
    }
}

impl Lua {
    /// Opens a scope on this instance's root.
    pub fn scope(&self) -> (r: Scope)
        ensures
            r.wf(*self),
            r.destructors@.len() == 0,
    {
        Scope { main_id: self.main_id, destructors: Vec::new() }
    }

    /// Detaches the host payload of callback or host object `o`, returning it.
    fn detach(&mut self, o: usize) -> (r: Option<u64>)
        requires
            old(self).wf(),
            has_payload_slot(old(self).objects@, o as int),
        ensures
            final(self).wf(),
            r == payload_of(old(self).objects@, o as int),
            detached(final(self).objects@, o as int),
            final(self).objects@[o as int] == detached_form(old(self).objects@[o as int]),
            final(self).objects@.len() == old(self).objects@.len(),
            forall|i: int| 0 <= i < old(self).objects@.len() && i != o ==> #[trigger] final(self).objects@[i] == old(self).objects@[i],
            final(self).stack@ == old(self).stack@,
            final(self).budget == old(self).budget,
            final(self).registry == old(self).registry,
            final(self).same_bookkeeping(*old(self)),
    {
        let mut obj = Object::Finalizer;
        std::mem::swap(&mut obj, &mut self.objects[o]);
        match obj {
            Object::Callback { payload, exclusive, busy } => {
                self.objects.set(o, Object::Callback { payload: None, exclusive, busy });
                payload
            },
            Object::UserData { type_id, payload, metatable } => {
                self.objects.set(o, Object::UserData { type_id, payload: None, metatable });
                payload
            },
            other => {
                self.objects.set(o, other);
                None
            },
        }
    }
}

impl Scope {
    /// Takes over the slot of a function: its handle will not release it.
    fn adopt(&mut self, f: Function) -> (r: Function)
        ensures
            r.0.registry_id == f.0.registry_id,
            r.0.main_id == f.0.main_id,
            !r.0.drop_unref,
            final(self).main_id == old(self).main_id,
            final(self).destructors@ == old(self).destructors@.push(f.0.registry_id),
    {
        let mut f = f;
        f.0.drop_unref = false;
        self.destructors.push(f.0.registry_id);
        f
    }
}

/// Registering one more fresh slot, pinning a fresh callback or host object,
/// keeps a scope's invariant.
proof fn lemma_scope_extend(s: Scope, a: Lua, b: Lua, slot: usize, o: int)
    requires
        s.wf(a),
        a.registry@.submap_of(b.registry@),
        stable(a.objects@, b.objects@),
        b.main_id == a.main_id,
        !a.registry.live(slot as int),
        b.registry.live(slot as int),
        !(b.registry@[slot as int] is Table),
        pinned_object(b, slot) == o,
        o >= a.objects@.len(),
        has_payload_slot(b.objects@, o),
    ensures
        (Scope { main_id: s.main_id, destructors: s.destructors }).wf(b),
        ({
            let d = s.destructors@.push(slot);
            &&& forall|i: int| 0 <= i < d.len() ==> b.registry.live(#[trigger] d[i] as int)
            &&& forall|i: int| 0 <= i < d.len() ==> !(b.registry@[#[trigger] d[i] as int] is Table)
            &&& forall|i: int| 0 <= i < d.len() ==> has_payload_slot(b.objects@, #[trigger] pinned_object(b, d[i]))
            &&& forall|i: int, j: int| 0 <= i < j < d.len() ==> #[trigger] d[i] != #[trigger] d[j]
            &&& forall|i: int, j: int| 0 <= i < j < d.len()
                ==> #[trigger] pinned_object(b, d[i]) != #[trigger] pinned_object(b, d[j])
        }),
{
    let d0 = s.destructors@;
    let d = d0.push(slot);
    assert forall|i: int| 0 <= i < d0.len() implies {
        &&& b.registry.live(#[trigger] d0[i] as int)
        &&& pinned_object(b, d0[i]) == pinned_object(a, d0[i])
        &&& has_payload_slot(b.objects@, pinned_object(b, d0[i]))
        &&& pinned_object(a, d0[i]) < a.objects@.len()
    } by {
        assert(a.registry.live(d0[i] as int));
        assert(a.registry@.contains_key(d0[i] as int));
        assert(b.registry@.contains_key(d0[i] as int));
        let p = pinned_object(a, d0[i]);
        assert(has_payload_slot(a.objects@, p));
        assert(b.objects@[p] == a.objects@[p]);
    }
    assert forall|i: int| 0 <= i < d.len() implies b.registry.live(#[trigger] d[i] as int) by {
        if i < d0.len() {
            assert(d[i] == d0[i]);
        }
    }
    assert forall|i: int| 0 <= i < d.len() implies !(b.registry@[#[trigger] d[i] as int] is Table) by {
        if i < d0.len() {
            assert(d[i] == d0[i]);
            assert(a.registry.live(d0[i] as int));
            assert(a.registry@.contains_key(d0[i] as int));
            assert(!(a.registry@[d0[i] as int] is Table));
            assert(a.registry@.dom().contains(d0[i] as int));
            assert(b.registry@.contains_key(d0[i] as int));
            assert(b.registry@[d0[i] as int] == a.registry@[d0[i] as int]);
        }
    }
    assert forall|i: int| 0 <= i < d0.len() implies !(b.registry@[#[trigger] d0[i] as int] is Table) by {
        assert(a.registry@.contains_key(d0[i] as int));
        assert(!(a.registry@[d0[i] as int] is Table));
        assert(a.registry@.dom().contains(d0[i] as int));
        assert(b.registry@.contains_key(d0[i] as int));
        assert(b.registry@[d0[i] as int] == a.registry@[d0[i] as int]);
    }
    assert forall|i: int| 0 <= i < d.len() implies has_payload_slot(b.objects@, #[trigger] pinned_object(b, d[i])) by {
        if i < d0.len() {
            assert(d[i] == d0[i]);
        }
    }
    assert forall|i: int, j: int| 0 <= i < j < d.len() implies #[trigger] d[i] != #[trigger] d[j] by {
        if j == d0.len() {
            assert(d[i] == d0[i]);
            assert(a.registry.live(d0[i] as int));
        } else {
            assert(d[i] == d0[i] && d[j] == d0[j]);
        }
    }
    assert forall|i: int, j: int| 0 <= i < j < d.len()
        implies #[trigger] pinned_object(b, d[i]) != #[trigger] pinned_object(b, d[j]) by {
        if j == d0.len() {
            assert(d[i] == d0[i]);
        } else {
            assert(d[i] == d0[i] && d[j] == d0[j]);
            assert(pinned_object(a, d0[i]) != pinned_object(a, d0[j]));
        }
    }
    assert forall|i: int| 0 <= i < d0.len() implies b.registry.live(#[trigger] d0[i] as int) by {}
    assert forall|i: int| 0 <= i < d0.len() implies has_payload_slot(b.objects@, #[trigger] pinned_object(b, d0[i])) by {}
    assert forall|i: int, j: int| 0 <= i < j < d0.len()
        implies #[trigger] pinned_object(b, d0[i]) != #[trigger] pinned_object(b, d0[j]) by {
        assert(pinned_object(a, d0[i]) != pinned_object(a, d0[j]));
    }
}

/// Once a scope has closed, a function it registered is still a callback, so
/// a handle to it may be called, and the callback protocol refuses it as
/// destructed. A host object it registered is still a host object of the same
/// type, and reads back as having no payload.
pub proof fn closed_scope_items_fail(before: Lua, after: Lua, o: int)
    requires
        0 <= o < before.objects@.len(),
        before.objects@.len() == after.objects@.len(),
        has_payload_slot(before.objects@, o),
        after.objects@[o] == detached_form(before.objects@[o]),
    ensures
        before.objects@[o] is Callback ==> {
            &&& after.objects@[o] is Callback
            &&& !after.callback_attached(o)
            &&& !after.enter_admits(o)
        },
        before.objects@[o] is UserData ==> {
            &&& after.objects@[o] is UserData
            &&& after.objects@[o]->UserData_type_id == before.objects@[o]->UserData_type_id
            &&& after.objects@[o]->UserData_payload is None
        },
{
}


/// Whether `payloads` and `after` are what closing scope `s` on `mid` gives:
/// the payloads of its items in registration order, and every item detached.
pub open spec fn closed_from(mid: Lua, s: Scope, after: Lua, payloads: Seq<Option<u64>>) -> bool {
    &&& s.wf(mid)
    &&& payloads.len() == s.destructors@.len()
    &&& forall|i: int| 0 <= i < s.destructors@.len() ==> {
        let o = pinned_object(mid, #[trigger] s.destructors@[i]);
        &&& payloads[i] == payload_of(mid.objects@, o)
        &&& detached(after.objects@, o)
        &&& after.objects@[o] == detached_form(mid.objects@[o])
    }
    &&& after.registry@ == mid.registry@.remove_keys(id_set(s.destructors@))
}

impl Lua {
    /// Runs `body` with a new scope and closes the scope when the body returns:
    /// everything the body registered through the scope is invalidated before
    /// this returns. Gives back the body's result and the detached payloads, in
    /// registration order, for the host to destroy.
    pub fn scope_with<R, F: FnOnce(&mut Lua, &mut Scope) -> R>(&mut self, body: F) -> (r: (R, Vec<Option<u64>>))
        requires
            old(self).wf(),
            forall|l: &mut Lua, s: &mut Scope| l.wf() && s.wf(*l) && s.destructors@.len() == 0 ==> body.requires((l, s)),
            forall|l: &mut Lua, s: &mut Scope, out: R| body.ensures((l, s), out) ==> final(l).wf() && final(s).wf(*final(l)),
        ensures
            final(self).wf(),
            exists|l: &mut Lua, s: &mut Scope| {
                &&& *l == *old(self)
                &&& s.main_id == old(self).main_id
                &&& s.destructors@.len() == 0
                &&& body.ensures((l, s), r.0)
                &&& closed_from(*final(l), *final(s), *final(self), r.1@)
            },
    {
        let mut scope = self.scope();
        let lr: &mut Lua = &mut *self;
        let sr: &mut Scope = &mut scope;
        let ghost lr0 = lr;
        let ghost sr0 = sr;
        let out = body(lr, sr);
        let ghost mid = *self;
        let ghost s = scope;
        assert(*final(lr0) == mid);
        assert(*final(sr0) == s);
        let payloads = scope.close(self);
        let r = (out, payloads);
        assert(closed_from(mid, s, *self, r.1@));
        r
    }
}

} // verus!
