use vstd::prelude::*;
use vstd::string::StringSliceAdditionalSpecFns;
use crate::error::Error;
use crate::heap::{Object, bytes_copy};
use crate::lua::{Lua, is_str, objects_grow};
use crate::value::{RawValue, AnyUserData};

verus! {

/// The operator-overload kinds a host type may declare.
#[derive(Clone, Copy, PartialEq, Eq, Structural, Debug)]
pub enum MetaMethod {
    Add,
    Sub,
    Mul,
    Div,
    Mod,
    Pow,
    Unm,
    IDiv,
    BAnd,
    BOr,
    BXor,
    BNot,
    Shl,
    Shr,
    Concat,
    Len,
    Eq,
    Lt,
    Le,
    Index,
    NewIndex,
    Call,
    ToString,
}

/// The dispatch-table key of each overload kind.
pub open spec fn meta_name(m: MetaMethod) -> &'static str {
    match m {
        MetaMethod::Add => "__add",
        MetaMethod::Sub => "__sub",
        MetaMethod::Mul => "__mul",
        MetaMethod::Div => "__div",
        MetaMethod::Mod => "__mod",
        MetaMethod::Pow => "__pow",
        MetaMethod::Unm => "__unm",
        MetaMethod::IDiv => "__idiv",
        MetaMethod::BAnd => "__band",
        MetaMethod::BOr => "__bor",
        MetaMethod::BXor => "__bxor",
        MetaMethod::BNot => "__bnot",
        MetaMethod::Shl => "__shl",
        MetaMethod::Shr => "__shr",
        MetaMethod::Concat => "__concat",
        MetaMethod::Len => "__len",
        MetaMethod::Eq => "__eq",
        MetaMethod::Lt => "__lt",
        MetaMethod::Le => "__le",
        MetaMethod::Index => "__index",
        MetaMethod::NewIndex => "__newindex",
        MetaMethod::Call => "__call",
        MetaMethod::ToString => "__tostring",
    }
}

impl MetaMethod {
    /// The dispatch-table key of this overload kind.
    pub fn name(&self) -> (r: &'static str)
        ensures
            r == meta_name(*self),
    {
        match self {
            MetaMethod::Add => "__add",
            MetaMethod::Sub => "__sub",
            MetaMethod::Mul => "__mul",
            MetaMethod::Div => "__div",
            MetaMethod::Mod => "__mod",
            MetaMethod::Pow => "__pow",
            MetaMethod::Unm => "__unm",
            MetaMethod::IDiv => "__idiv",
            MetaMethod::BAnd => "__band",
            MetaMethod::BOr => "__bor",
            MetaMethod::BXor => "__bxor",
            MetaMethod::BNot => "__bnot",
            MetaMethod::Shl => "__shl",
            MetaMethod::Shr => "__shr",
            MetaMethod::Concat => "__concat",
            MetaMethod::Len => "__len",
            MetaMethod::Eq => "__eq",
            MetaMethod::Lt => "__lt",
            MetaMethod::Le => "__le",
            MetaMethod::Index => "__index",
            MetaMethod::NewIndex => "__newindex",
            MetaMethod::Call => "__call",
            MetaMethod::ToString => "__tostring",
        }
    }
}

/// What a host type declares: named methods and operator overloads, each with
/// the host handle of the closure that implements it.
#[derive(Debug)]
pub struct UserDataMethods {
    pub methods: Vec<(&'static str, u64)>,
    pub meta_methods: Vec<(MetaMethod, u64)>,
}

/// `b` is `a` with objects added at the end and only tables changed.
pub open spec fn stable(a: Seq<Object>, b: Seq<Object>) -> bool {
    a.len() <= b.len() && forall|i: int| 0 <= i < a.len() && !(a[i] is Table) ==> #[trigger] b[i] == a[i]
}

/// `b` is `a` with objects added at the end and only object `t` changed.
pub open spec fn only_changes(a: Seq<Object>, b: Seq<Object>, t: int) -> bool {
    a.len() <= b.len() && forall|i: int| 0 <= i < a.len() && i != t ==> #[trigger] b[i] == a[i]
}

/// Whether `v` is a function that calls host closure `payload`.
pub open spec fn calls(objs: Seq<Object>, v: RawValue, payload: u64) -> bool {
    v matches RawValue::Function(o) && (o as int) < objs.len()
        && objs[o as int] == Object::Callback { payload: Some(payload), exclusive: false, busy: false }
}

/// Whether the assignment `e` binds the string `name` to a function calling
/// host closure `payload`.
pub open spec fn binds_call(objs: Seq<Object>, e: (RawValue, RawValue), name: Seq<u8>, payload: u64) -> bool {
    &&& e.0 matches RawValue::Str(k) && is_str(objs, k as int, name)
    &&& calls(objs, e.1, payload)
}

/// Whether the assignment `e` binds the string `name`.
pub open spec fn binds_name(objs: Seq<Object>, e: (RawValue, RawValue), name: Seq<u8>) -> bool {
    e.0 matches RawValue::Str(k) && is_str(objs, k as int, name)
}

/// Whether the assignment `e` installs overload `m`, implemented by host
/// closure `payload`, into a dispatch table whose methods table is `methods`
/// (if the type has named methods).
pub open spec fn installs(objs: Seq<Object>, e: (RawValue, RawValue), m: MetaMethod, payload: u64, methods: Option<RawValue>) -> bool {
    if m == MetaMethod::Index && methods is Some {
        &&& binds_name(objs, e, "__index".spec_bytes())
        &&& e.1 matches RawValue::Function(o) && (o as int) < objs.len() && (objs[o as int] matches Object::IndexChain { methods: mt, fallback: fb }
            && mt == methods.unwrap() && calls(objs, fb, payload))
    } else {
        binds_call(objs, e, meta_name(m).spec_bytes(), payload)
    }
}

/// Where the overloads start in a dispatch table: after the methods table, if
/// the type has named methods.
pub open spec fn index_offset(n_methods: nat) -> int {
    if n_methods > 0 {
        1
    } else {
        0
    }
}

/// Whether `entries` is the dispatch table synthesized for `decl`: the
/// methods table under `__index` (if there are named methods), each declared
/// overload in order, then the finalizer, and `__metatable` set to false so
/// that the table cannot be inspected.
pub open spec fn dispatch_table(objs: Seq<Object>, entries: Seq<(RawValue, RawValue)>, decl: UserDataMethods) -> bool {
    let ms = decl.methods@;
    let mm = decl.meta_methods@;
    let off: int = index_offset(ms.len());
    let methods: Option<RawValue> = if ms.len() > 0 { Some(entries[0].1) } else { None };
    &&& entries.len() == off + mm.len() + 2
    &&& ms.len() > 0 ==> {
        &&& binds_name(objs, entries[0], "__index".spec_bytes())
        &&& entries[0].1 matches RawValue::Table(t) && (t as int) < objs.len() && (objs[t as int] matches Object::Table(me)
            && me@.len() == ms.len()
            && forall|j: int| 0 <= j < ms.len() ==> binds_call(objs, #[trigger] me@[j], ms[j].0.spec_bytes(), ms[j].1))
    }
    &&& forall|j: int| 0 <= j < mm.len() ==> installs(objs, #[trigger] entries[off + j], mm[j].0, mm[j].1, methods)
    &&& binds_name(objs, entries[off + mm.len()], "__gc".spec_bytes())
    &&& entries[off + mm.len()].1 matches RawValue::Function(g) && (g as int) < objs.len() && objs[g as int] is Finalizer
    &&& binds_name(objs, entries[off + mm.len() + 1], "__metatable".spec_bytes())
    &&& entries[off + mm.len() + 1].1 == RawValue::Boolean(false)
}

/// The dispatch table cached for host type `type_id`, if any.
pub open spec fn cached(reg: Seq<(u64, usize)>, type_id: u64) -> Option<usize>
    decreases reg.len(),
{
    if reg.len() == 0 {
        None
    } else if reg.last().0 == type_id {
        Some(reg.last().1)
    } else {
        cached(reg.drop_last(), type_id)
    }
}

impl Lua {
    /// Interns `name`, wraps host closure `payload` as a function, and assigns
    /// the one to the other in table object `t`.
    fn bind_callback(&mut self, t: usize, name: &str, payload: u64)
        requires
            old(self).wf(),
            (t as int) < old(self).objects@.len(),
            old(self).objects@[t as int] is Table,
        ensures
            final(self).wf(),
            stable(old(self).objects@, final(self).objects@),
            only_changes(old(self).objects@, final(self).objects@, t as int),
            final(self).objects@[t as int] is Table,
            final(self).objects@[t as int]->Table_0@.len() == old(self).objects@[t as int]->Table_0@.len() + 1,
            final(self).objects@[t as int]->Table_0@.drop_last() == old(self).objects@[t as int]->Table_0@,
            binds_call(final(self).objects@, final(self).objects@[t as int]->Table_0@.last(), name.spec_bytes(), payload),
            final(self).stack@ == old(self).stack@,
            final(self).budget == old(self).budget,
            final(self).registry == old(self).registry,
            final(self).same_bookkeeping(*old(self)),
    {
        let k = self.intern(bytes_copy(name.as_bytes()));
        let c = self.new_object(Object::Callback { payload: Some(payload), exclusive: false, busy: false });
        let ghost mid = self.objects@;
        self.table_assign(t, RawValue::Str(k), RawValue::Function(c));
        proof {
            assert(self.objects@[t as int]->Table_0@.drop_last() =~= old(self).objects@[t as int]->Table_0@);
            assert(self.objects@[k as int] == mid[k as int]);
        }
    }

    /// Interns `name` and assigns `v` to it in table object `t`.
    pub(crate) fn bind_value(&mut self, t: usize, name: &str, v: RawValue)
        requires
            old(self).wf(),
            (t as int) < old(self).objects@.len(),
            old(self).objects@[t as int] is Table,
        ensures
            final(self).wf(),
            stable(old(self).objects@, final(self).objects@),
            only_changes(old(self).objects@, final(self).objects@, t as int),
            final(self).objects@[t as int] is Table,
            final(self).objects@[t as int]->Table_0@.drop_last() == old(self).objects@[t as int]->Table_0@,
            final(self).objects@[t as int]->Table_0@.len() == old(self).objects@[t as int]->Table_0@.len() + 1,
            binds_name(final(self).objects@, final(self).objects@[t as int]->Table_0@.last(), name.spec_bytes()),
            final(self).objects@[t as int]->Table_0@.last().1 == v,
            final(self).stack@ == old(self).stack@,
            final(self).budget == old(self).budget,
            final(self).registry == old(self).registry,
            final(self).same_bookkeeping(*old(self)),
    {
        let k = self.intern(bytes_copy(name.as_bytes()));
        let ghost mid = self.objects@;
        self.table_assign(t, RawValue::Str(k), v);
        proof {
            assert(self.objects@[t as int]->Table_0@.drop_last() =~= old(self).objects@[t as int]->Table_0@);
            assert(self.objects@[k as int] == mid[k as int]);
        }
    }
}

proof fn lemma_calls_stable(a: Seq<Object>, b: Seq<Object>, v: RawValue, payload: u64)
    requires
        stable(a, b),
        calls(a, v, payload),
    ensures
        calls(b, v, payload),
{
    let o = v->Function_0 as int;
    assert(b[o] == a[o]);
}

pub(crate) proof fn lemma_binds_name_stable(a: Seq<Object>, b: Seq<Object>, e: (RawValue, RawValue), name: Seq<u8>)
    requires
        stable(a, b),
        binds_name(a, e, name),
    ensures
        binds_name(b, e, name),
{
    let k = e.0->Str_0 as int;
    assert(b[k] == a[k]);
}

proof fn lemma_installs_stable(
    a: Seq<Object>,
    b: Seq<Object>,
    e: (RawValue, RawValue),
    m: MetaMethod,
    payload: u64,
    methods: Option<RawValue>,
)
    requires
        stable(a, b),
        installs(a, e, m, payload, methods),
    ensures
        installs(b, e, m, payload, methods),
{
    if m == MetaMethod::Index && methods is Some {
        lemma_binds_name_stable(a, b, e, "__index".spec_bytes());
        let o = e.1->Function_0 as int;
        assert(b[o] == a[o]);
        lemma_calls_stable(a, b, a[o]->IndexChain_fallback, payload);
    } else {
        lemma_binds_name_stable(a, b, e, meta_name(m).spec_bytes());
        lemma_calls_stable(a, b, e.1, payload);
    }
}

proof fn lemma_dispatch_grow(a: Seq<Object>, b: Seq<Object>, e: Seq<(RawValue, RawValue)>, decl: UserDataMethods)
    requires
        objects_grow(a, b),
        dispatch_table(a, e, decl),
    ensures
        dispatch_table(b, e, decl),
{
    let ms = decl.methods@;
    let mm = decl.meta_methods@;
    let off: int = index_offset(ms.len());
    let methods: Option<RawValue> = if ms.len() > 0 { Some(e[0].1) } else { None };
    assert(stable(a, b));
    if ms.len() > 0 {
        lemma_binds_name_stable(a, b, e[0], "__index".spec_bytes());
        let t = e[0].1->Table_0 as int;
        assert(b[t] == a[t]);
        let me = a[t]->Table_0@;
        assert forall|j: int| 0 <= j < ms.len() implies binds_call(b, #[trigger] me[j], ms[j].0.spec_bytes(), ms[j].1) by {
            lemma_calls_stable(a, b, me[j].1, ms[j].1);
            lemma_binds_name_stable(a, b, me[j], ms[j].0.spec_bytes());
        }
    }
    assert(forall|j: int| 0 <= j < mm.len() ==> installs(a, #[trigger] e[off + j], mm[j].0, mm[j].1, methods));
    assert forall|j: int| 0 <= j < mm.len() implies installs(b, #[trigger] e[off + j], mm[j].0, mm[j].1, methods) by {
        assert(installs(a, e[off + j], mm[j].0, mm[j].1, methods));
        lemma_installs_stable(a, b, e[off + j], mm[j].0, mm[j].1, methods);
    }
    lemma_binds_name_stable(a, b, e[off + mm.len()], "__gc".spec_bytes());
    let g = e[off + mm.len()].1->Function_0 as int;
    assert(b[g] == a[g]);
    lemma_binds_name_stable(a, b, e[off + mm.len() + 1], "__metatable".spec_bytes());
}

impl Lua {
    /// The dispatch table cached for `type_id`.
    fn find_cached(&self, type_id: u64) -> (r: Option<usize>)
        ensures
            r == cached(self.registered_userdata@, type_id),
    {
        let mut i: usize = self.registered_userdata.len();
        assert(self.registered_userdata@.subrange(0, i as int) =~= self.registered_userdata@);
        while i > 0
            invariant
                i <= self.registered_userdata@.len(),
                cached(self.registered_userdata@, type_id) == cached(self.registered_userdata@.subrange(0, i as int), type_id),
            decreases i,
        {
            assert(self.registered_userdata@.subrange(0, i as int).drop_last() =~= self.registered_userdata@.subrange(0, i - 1));
            if self.registered_userdata[i - 1].0 == type_id {
                return Some(self.registered_userdata[i - 1].1);
            }
            i = i - 1;
        }
        None
    }

    /// The registry slot of the dispatch table for host type `type_id`,
    /// synthesized from `decl` and cached the first time the type is exposed.
    pub fn userdata_metatable(&mut self, type_id: u64, decl: &UserDataMethods) -> (r: Result<usize, Error>)
        requires
            old(self).wf(),
            old(self).room(5),
        ensures
            final(self).wf(),
            r is Ok,
            cached(old(self).registered_userdata@, type_id) is Some ==> {
                &&& r->Ok_0 == cached(old(self).registered_userdata@, type_id).unwrap()
                &&& final(self).registry == old(self).registry
                &&& final(self).objects@ == old(self).objects@
                &&& final(self).registered_userdata@ == old(self).registered_userdata@
            },
            cached(old(self).registered_userdata@, type_id) is None ==> {
                &&& final(self).registered_userdata@ == old(self).registered_userdata@.push((type_id, r->Ok_0))
                &&& !old(self).registry.live(r->Ok_0 as int)
                &&& final(self).registry@.remove(r->Ok_0 as int) == old(self).registry@
                &&& final(self).registry.live_count() == old(self).registry.live_count() + 1
                &&& final(self).table_of_slot(r->Ok_0 as int) matches Some(e) && dispatch_table(final(self).objects@, e, *decl)
                &&& stable(old(self).objects@, final(self).objects@)
            },
            cached(final(self).registered_userdata@, type_id) == Some(r->Ok_0),
            final(self).stack@ == old(self).stack@,
            final(self).named@ == old(self).named@,
            final(self).pending_release@ == old(self).pending_release@,
            final(self).globals_slot == old(self).globals_slot,
            final(self).main_id == old(self).main_id,
            final(self).ephemeral == old(self).ephemeral,
    {
        self.check_stack(5);
        match self.find_cached(type_id) {
            Some(id) => return Ok(id),
            None => {},
        }
        let ghost ms = decl.methods@;
        let ghost mm = decl.meta_methods@;
        let empty: Vec<(RawValue, RawValue)> = Vec::new();
        let ghost ev = empty;
        let mt = self.new_object(Object::Table(empty));
        assert(self.objects@[mt as int] == Object::Table(ev));
        let ghost start = self.objects@;
        let has_methods = decl.methods.len() > 0;
        let mut methods_val = RawValue::Nil;
        if has_methods {
            let empty2: Vec<(RawValue, RawValue)> = Vec::new();
            let ghost ev2 = empty2;
            let mtab = self.new_object(Object::Table(empty2));
            assert(self.objects@[mtab as int] == Object::Table(ev2));
            let mut i: usize = 0;
            while i < decl.methods.len()
                invariant
                    self.wf(),
                    i <= ms.len(),
                    ms == decl.methods@,
                    (mt as int) < (mtab as int),
                    (mtab as int) < self.objects@.len(),
                    self.objects@[mt as int] == Object::Table(ev),
                    ev@.len() == 0,
                    self.objects@[mtab as int] is Table,
                    self.objects@[mtab as int]->Table_0@.len() == i,
                    forall|j: int| 0 <= j < i ==> binds_call(self.objects@, #[trigger] self.objects@[mtab as int]->Table_0@[j], ms[j].0.spec_bytes(), ms[j].1),
                    stable(start, self.objects@),
                    start.len() == mt + 1,
                    self.stack@ == old(self).stack@,
                    self.budget >= old(self).stack@.len() + 5,
                    self.registry == old(self).registry,
                    self.same_bookkeeping(*old(self)),
                decreases ms.len() - i,
            {
                let (name, p) = decl.methods[i];
                let ghost prev = self.objects@;
                self.bind_callback(mtab, name, p);
                proof {
                    let me = self.objects@[mtab as int]->Table_0@;
                    assert forall|j: int| 0 <= j < i + 1 implies binds_call(self.objects@, #[trigger] me[j], ms[j].0.spec_bytes(), ms[j].1) by {
                        if j < i {
                            assert(me[j] == prev[mtab as int]->Table_0@[j]);
                            lemma_calls_stable(prev, self.objects@, me[j].1, ms[j].1);
                            lemma_binds_name_stable(prev, self.objects@, me[j], ms[j].0.spec_bytes());
                        }
                    }
                }
                i = i + 1;
            }
            let ghost before = self.objects@;
            self.bind_value(mt, "__index", RawValue::Table(mtab));
            proof {
                let me = self.objects@[mtab as int]->Table_0@;
                assert(self.objects@[mtab as int] == before[mtab as int]);
                assert forall|j: int| 0 <= j < ms.len() implies binds_call(self.objects@, #[trigger] me[j], ms[j].0.spec_bytes(), ms[j].1) by {
                    lemma_calls_stable(before, self.objects@, me[j].1, ms[j].1);
                    lemma_binds_name_stable(before, self.objects@, me[j], ms[j].0.spec_bytes());
                }
            }
            methods_val = RawValue::Table(mtab);
        }
        let ghost off: int = index_offset(ms.len());
        let ghost methods: Option<RawValue> = if ms.len() > 0 { Some(methods_val) } else { None };
        let mut i: usize = 0;
        while i < decl.meta_methods.len()
            invariant
                self.wf(),
                i <= mm.len(),
                ms == decl.methods@,
                mm == decl.meta_methods@,
                has_methods == (ms.len() > 0),
                off == index_offset(ms.len()),
                methods == if ms.len() > 0 { Some(methods_val) } else { None },
                (mt as int) < self.objects@.len(),
                self.objects@[mt as int] is Table,
                self.objects@[mt as int]->Table_0@.len() == off + i,
                ms.len() > 0 ==> {
                    let e = self.objects@[mt as int]->Table_0@;
                    &&& binds_name(self.objects@, e[0], "__index".spec_bytes())
                    &&& e[0].1 == methods_val
                    &&& methods_val matches RawValue::Table(t) && (t as int) < self.objects@.len() && t != mt
                        && (self.objects@[t as int] matches Object::Table(me)
                        && me@.len() == ms.len()
                        && forall|j: int| 0 <= j < ms.len() ==> binds_call(self.objects@, #[trigger] me@[j], ms[j].0.spec_bytes(), ms[j].1))
                },
                forall|j: int| 0 <= j < i ==> installs(self.objects@, #[trigger] self.objects@[mt as int]->Table_0@[off + j], mm[j].0, mm[j].1, methods),
                stable(start, self.objects@),
                start.len() == mt + 1,
                self.stack@ == old(self).stack@,
                self.budget >= old(self).stack@.len() + 5,
                self.registry == old(self).registry,
                self.same_bookkeeping(*old(self)),
            decreases mm.len() - i,
        {
            let (m, p) = decl.meta_methods[i];
            let ghost prev = self.objects@;
            if m == MetaMethod::Index && has_methods {
                let c = self.new_object(Object::Callback { payload: Some(p), exclusive: false, busy: false });
                let ch = self.new_object(Object::IndexChain { methods: methods_val, fallback: RawValue::Function(c) });
                let ghost mid = self.objects@;
                self.bind_value(mt, "__index", RawValue::Function(ch));
                proof {
                    assert(self.objects@[ch as int] == mid[ch as int]);
                    assert(self.objects@[c as int] == mid[c as int]);
                }
            } else {
                self.bind_callback(mt, m.name(), p);
            }
            proof {
                let e = self.objects@[mt as int]->Table_0@;
                assert(e.drop_last() == prev[mt as int]->Table_0@);
                assert forall|j: int| 0 <= j < i + 1 implies installs(self.objects@, #[trigger] e[off + j], mm[j].0, mm[j].1, methods) by {
                    if j < i {
                        assert(e[off + j] == prev[mt as int]->Table_0@[off + j]);
                        lemma_installs_stable(prev, self.objects@, e[off + j], mm[j].0, mm[j].1, methods);
                    } else {
                        assert(e[off + j] == e.last());
                    }
                }
                if ms.len() > 0 {
                    let t = methods_val->Table_0 as int;
                    assert(e[0] == prev[mt as int]->Table_0@[0]);
                    lemma_binds_name_stable(prev, self.objects@, e[0], "__index".spec_bytes());
                    assert(self.objects@[t] == prev[t]);
                    let me = self.objects@[t]->Table_0@;
                    assert forall|j: int| 0 <= j < ms.len() implies binds_call(self.objects@, #[trigger] me[j], ms[j].0.spec_bytes(), ms[j].1) by {
                        lemma_calls_stable(prev, self.objects@, me[j].1, ms[j].1);
                        lemma_binds_name_stable(prev, self.objects@, me[j], ms[j].0.spec_bytes());
                    }
                }
            }
            i = i + 1;
        }
        let fin = self.new_object(Object::Finalizer);
        let ghost prev = self.objects@;
        self.bind_value(mt, "__gc", RawValue::Function(fin));
        let ghost prev2 = self.objects@;
        self.bind_value(mt, "__metatable", RawValue::Boolean(false));
        proof {
            let e = self.objects@[mt as int]->Table_0@;
            let e1 = prev2[mt as int]->Table_0@;
            let e0 = prev[mt as int]->Table_0@;
            assert(e.drop_last() == e1);
            assert(e1.drop_last() == e0);
            assert(self.objects@[fin as int] == prev[fin as int]);
            assert forall|j: int| 0 <= j < mm.len() implies installs(self.objects@, #[trigger] e[off + j], mm[j].0, mm[j].1, methods) by {
                assert(e[off + j] == e0[off + j]);
                lemma_installs_stable(prev, self.objects@, e[off + j], mm[j].0, mm[j].1, methods);
            }
            assert(e[off + mm.len()] == e1.last());
            lemma_binds_name_stable(prev2, self.objects@, e1.last(), "__gc".spec_bytes());
            if ms.len() > 0 {
                let t = methods_val->Table_0 as int;
                assert(e[0] == e0[0]);
                lemma_binds_name_stable(prev, self.objects@, e[0], "__index".spec_bytes());
                assert(self.objects@[t] == prev[t]);
                let me = self.objects@[t]->Table_0@;
                assert forall|j: int| 0 <= j < ms.len() implies binds_call(self.objects@, #[trigger] me[j], ms[j].0.spec_bytes(), ms[j].1) by {
                    lemma_calls_stable(prev, self.objects@, me[j].1, ms[j].1);
                    lemma_binds_name_stable(prev, self.objects@, me[j], ms[j].0.spec_bytes());
                }
            }
            assert(dispatch_table(self.objects@, e, *decl));
        }
        let id = self.registry.reference(RawValue::Table(mt));
        self.registered_userdata.push((type_id, id));
        proof {
            assert(self.registry@.contains_key(id as int));
            assert(self.registry@.remove(id as int) =~= old(self).registry@);
            assert(self.registered_userdata@.drop_last() =~= old(self).registered_userdata@);
        }
        Ok(id)
    }
}

impl Lua {
    /// Exposes host object `payload` of host type `type_id`, whose methods are
    /// `decl`, with the type's dispatch table as its metatable.
    pub fn do_create_userdata(&mut self, type_id: u64, payload: u64, decl: &UserDataMethods) -> (r: Result<AnyUserData, Error>)
        requires
            old(self).wf(),
            old(self).room(5),
        ensures
            final(self).wf(),
            r is Ok,
            ({
                let o = final(self).objects@.len() - 1;
                let mt = cached(final(self).registered_userdata@, type_id).unwrap();
                &&& cached(final(self).registered_userdata@, type_id) is Some
                &&& final(self).ref_value(r->Ok_0.0) == RawValue::UserData(o as usize)
                &&& (final(self).objects@[o] matches Object::UserData { type_id: t, payload: p, .. }
                    && t == type_id && p == Some(payload))
                &&& o >= old(self).objects@.len()
                &&& cached(old(self).registered_userdata@, type_id) is Some ==> {
                    &&& mt == cached(old(self).registered_userdata@, type_id).unwrap()
                    &&& final(self).objects@[o]->UserData_metatable == old(self).registry.get_spec(mt as int)
                }
                &&& cached(old(self).registered_userdata@, type_id) is None ==> {
                    &&& final(self).table_of_slot(mt as int) matches Some(e) && dispatch_table(final(self).objects@, e, *decl)
                    &&& final(self).objects@[o]->UserData_metatable == final(self).registry.get_spec(mt as int)
                }
            }),
            r->Ok_0.0.main_id == old(self).main_id,
            r->Ok_0.0.drop_unref,
            !old(self).registry.live(r->Ok_0.0.registry_id as int),
            old(self).registry@.submap_of(final(self).registry@),
            stable(old(self).objects@, final(self).objects@),
            final(self).stack@ == old(self).stack@,
            final(self).named@ == old(self).named@,
            final(self).pending_release@ == old(self).pending_release@,
            final(self).globals_slot == old(self).globals_slot,
            final(self).main_id == old(self).main_id,
            final(self).ephemeral == old(self).ephemeral,
    {
        self.check_stack(5);
        let ghost s0 = *self;
        let mt = match self.userdata_metatable(type_id, decl) {
            Ok(mt) => mt,
            Err(e) => return Err(e),
        };
        proof {
            if cached(s0.registered_userdata@, type_id) is Some {
                assert(self.objects@ == s0.objects@);
                assert(s0.registry@.submap_of(self.registry@));
            } else {
                assert(self.registry@.remove(mt as int) == s0.registry@);
                assert(s0.registry@.submap_of(self.registry@));
            }
        }
        let ghost s1 = *self;
        let mtv = self.registry.get(mt);
        let o = self.new_object(Object::UserData { type_id, payload: Some(payload), metatable: mtv });
        self.check_stack(1);
        self.push_raw(RawValue::UserData(o));
        let u = AnyUserData(self.pop_ref());
        proof {
            assert(self.stack@ =~= old(self).stack@);
            assert(s1.registry@.submap_of(self.registry@));
            assert(old(self).registry@.submap_of(self.registry@));
            if old(self).registry.live(u.0.registry_id as int) {
                assert(s1.registry@.contains_key(u.0.registry_id as int));
            }
            assert(self.objects@[o as int] == Object::UserData { type_id, payload: Some(payload), metatable: mtv });
            assert(stable(s1.objects@, self.objects@));
            if cached(s0.registered_userdata@, type_id) is None {
                assert(s1.table_of_slot(mt as int) is Some);
                assert(s1.registry@.contains_key(mt as int));
                assert(self.registry@.contains_key(mt as int));
                assert(self.registry@[mt as int] == s1.registry@[mt as int]);
                let mo = s1.registry@[mt as int]->Table_0 as int;
                assert(self.objects@[mo] == s1.objects@[mo]);
                lemma_dispatch_grow(s1.objects@, self.objects@, s1.objects@[mo]->Table_0@, *decl);
            }
            assert(self.objects@.len() - 1 == o as int);
        }
        Ok(u)
    }

    /// Exposes host object `payload` of host type `type_id`.
    pub fn create_userdata(&mut self, type_id: u64, payload: u64, decl: &UserDataMethods) -> (r: Result<AnyUserData, Error>)
        requires
            old(self).wf(),
            old(self).room(5),
        ensures
            final(self).wf(),
            r is Ok,
            ({
                let o = final(self).objects@.len() - 1;
                let mt = cached(final(self).registered_userdata@, type_id).unwrap();
                &&& cached(final(self).registered_userdata@, type_id) is Some
                &&& final(self).ref_value(r->Ok_0.0) == RawValue::UserData(o as usize)
                &&& (final(self).objects@[o] matches Object::UserData { type_id: t, payload: p, .. }
                    && t == type_id && p == Some(payload))
                &&& o >= old(self).objects@.len()
                &&& cached(old(self).registered_userdata@, type_id) is Some ==> {
                    &&& mt == cached(old(self).registered_userdata@, type_id).unwrap()
                    &&& final(self).objects@[o]->UserData_metatable == old(self).registry.get_spec(mt as int)
                }
                &&& cached(old(self).registered_userdata@, type_id) is None ==> {
                    &&& final(self).table_of_slot(mt as int) matches Some(e) && dispatch_table(final(self).objects@, e, *decl)
                    &&& final(self).objects@[o]->UserData_metatable == final(self).registry.get_spec(mt as int)
                }
            }),
            r->Ok_0.0.main_id == old(self).main_id,
            r->Ok_0.0.drop_unref,
            !old(self).registry.live(r->Ok_0.0.registry_id as int),
            old(self).registry@.submap_of(final(self).registry@),
            stable(old(self).objects@, final(self).objects@),
            final(self).stack@ == old(self).stack@,
            final(self).named@ == old(self).named@,
            final(self).pending_release@ == old(self).pending_release@,
            final(self).globals_slot == old(self).globals_slot,
            final(self).main_id == old(self).main_id,
            final(self).ephemeral == old(self).ephemeral,
    {
        self.do_create_userdata(type_id, payload, decl)
    }
}

} // verus!
