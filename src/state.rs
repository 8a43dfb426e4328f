use vstd::prelude::*;
use vstd::string::StringSliceAdditionalSpecFns;
use crate::heap::Object;
use crate::lua::Lua;
use crate::userdata::{binds_name, stable, lemma_binds_name_stable};
use crate::registry::Registry;
use crate::value::RawValue;

verus! {

/// The name of library `i`: the safe libraries are numbered 1 to 8, and the
/// stack-frame introspection facility is 9.
pub open spec fn library_name(i: int) -> &'static str {
    if i == 1 {
        "coroutine"
    } else if i == 2 {
        "table"
    } else if i == 3 {
        "io"
    } else if i == 4 {
        "os"
    } else if i == 5 {
        "string"
    } else if i == 6 {
        "utf8"
    } else if i == 7 {
        "math"
    } else if i == 8 {
        "package"
    } else {
        "debug"
    }
}

/// The name of library `i`.
fn library(i: usize) -> (r: &'static str)
    requires
        1 <= i <= 9,
    ensures
        r == library_name(i as int),
{
    if i == 1 {
        "coroutine"
    } else if i == 2 {
        "table"
    } else if i == 3 {
        "io"
    } else if i == 4 {
        "os"
    } else if i == 5 {
        "string"
    } else if i == 6 {
        "utf8"
    } else if i == 7 {
        "math"
    } else if i == 8 {
        "package"
    } else {
        "debug"
    }
}

/// Two names with different characters have different bytes.
proof fn lemma_names_differ(a: &str, b: &str)
    requires
        a@ != b@,
    ensures
        a.spec_bytes() != b.spec_bytes(),
{
    vstd::utf8::encode_utf8_decode_utf8(a@);
    vstd::utf8::encode_utf8_decode_utf8(b@);
}

/// No name bound in a new root's globals, but the facility itself, is `debug`.
proof fn lemma_not_debug(i: int)
    requires
        1 <= i <= 8,
    ensures
        library_name(i).spec_bytes() != "debug".spec_bytes(),
{
    reveal_strlit("debug");
    reveal_strlit("coroutine");
    reveal_strlit("table");
    reveal_strlit("io");
    reveal_strlit("os");
    reveal_strlit("string");
    reveal_strlit("utf8");
    reveal_strlit("math");
    reveal_strlit("package");
    assert(library_name(i)@ != "debug"@) by {
        if library_name(i)@.len() == "debug"@.len() {
            assert(library_name(i)@[0] != "debug"@[0]);
        }
    }
    lemma_names_differ(library_name(i), "debug");
}

/// Whether assignment `e` binds `name` to a table.
pub open spec fn binds_library(objs: Seq<Object>, e: (RawValue, RawValue), name: &str) -> bool {
    binds_name(objs, e, name.spec_bytes()) && e.1 is Table
}

/// Whether assignment `e` binds `name` to the built-in function `native`.
pub open spec fn binds_native(objs: Seq<Object>, e: (RawValue, RawValue), name: &str, native: &'static str) -> bool {
    &&& binds_name(objs, e, name.spec_bytes())
    &&& e.1 matches RawValue::Function(o) && (o as int) < objs.len() && objs[o as int] == Object::Native(native)
}

/// How many libraries a new root loads.
pub open spec fn library_count(load_debug: bool) -> int {
    if load_debug {
        9
    } else {
        8
    }
}

/// Whether `e` is the global environment of a new root whose globals table is
/// `g`: `_G` bound to `g` itself, then each loaded library bound to a table,
/// the introspection facility `debug` only if `load_debug`, and `pcall` and
/// `xpcall` bound to built-ins that cannot catch a host panic.
pub open spec fn standard_globals(objs: Seq<Object>, e: Seq<(RawValue, RawValue)>, g: RawValue, load_debug: bool) -> bool {
    let n = library_count(load_debug);
    &&& e.len() == n + 3
    &&& binds_name(objs, e[0], "_G".spec_bytes())
    &&& e[0].1 == g
    &&& forall|i: int| 1 <= i <= n ==> binds_library(objs, #[trigger] e[i], library_name(i))
    &&& binds_native(objs, e[n + 1], "pcall", "safe_pcall")
    &&& binds_native(objs, e[n + 2], "xpcall", "safe_xpcall")
    &&& !load_debug ==> forall|j: int| 0 <= j < e.len() ==> !binds_name(objs, #[trigger] e[j], "debug".spec_bytes())
}

impl Lua {
    /// Creates a root instance with identity `main_id`, loading the standard
    /// library without the stack-frame introspection facility.
    ///
    /// Distinct roots must be given distinct identities: handles and durable
    /// keys are told apart by them. `RootMint` hands out such identities.
    pub fn new(main_id: u64) -> (r: Lua)
        ensures
            r.wf(),
            r.fresh_root(main_id),
            r.table_of_slot(r.globals_slot as int) matches Some(e)
                && standard_globals(r.objects@, e, r.registry.get_spec(r.globals_slot as int), false),
    {
        Lua::create_lua(main_id, false)
    }

    /// Creates a root instance that also loads the stack-frame introspection
    /// facility. Using that facility voids every guarantee of this library.
    pub fn new_with_debug(main_id: u64) -> (r: Lua)
        ensures
            r.wf(),
            r.fresh_root(main_id),
            r.table_of_slot(r.globals_slot as int) matches Some(e)
                && standard_globals(r.objects@, e, r.registry.get_spec(r.globals_slot as int), true),
    {
        Lua::create_lua(main_id, true)
    }

    /// A root with an empty stack, its globals table as the one pinned value,
    /// and no named entries, cached dispatch tables or pending releases.
    pub open spec fn fresh_root(&self, main_id: u64) -> bool {
        &&& self.main_id == main_id
        &&& !self.ephemeral
        &&& self.stack@.len() == 0
        &&& self.registry.live_count() == 1
        &&& self.registry.live(self.globals_slot as int)
        &&& self.registry@[self.globals_slot as int] is Table
        &&& self.named@.len() == 0
        &&& self.registered_userdata@.len() == 0
        &&& self.pending_release@.len() == 0
    }

    /// The assignments of the table that registry slot `id` pins, if it pins one.
    pub open spec fn table_of_slot(&self, id: int) -> Option<Seq<(RawValue, RawValue)>> {
        match self.registry.get_spec(id) {
            RawValue::Table(o) => if (o as int) < self.objects@.len() {
                match self.objects@[o as int] {
                    Object::Table(e) => Some(e@),
                    _ => None,
                }
            } else {
                None
            },
            _ => None,
        }
    }

    fn create_lua(main_id: u64, load_debug: bool) -> (r: Lua)
        ensures
            r.wf(),
            r.fresh_root(main_id),
            r.table_of_slot(r.globals_slot as int) matches Some(e)
                && standard_globals(r.objects@, e, r.registry.get_spec(r.globals_slot as int), load_debug),
    {
        // The globals table comes first, pinned before anything else is made.
        let g: usize = 0;
        let mut registry = Registry::new();
        let slot = registry.reference(RawValue::Table(g));
        let empty: Vec<(RawValue, RawValue)> = Vec::new();
        let ghost ev = empty;
        let mut objects: Vec<Object> = Vec::new();
        objects.push(Object::Table(empty));
        let mut lua = Lua {
            stack: Vec::new(),
            budget: 0,
            registry,
            objects,
            named: Vec::new(),
            globals_slot: slot,
            registered_userdata: Vec::new(),
            pending_release: Vec::new(),
            main_id,
            ephemeral: false,
        };
        let ghost reg0 = lua.registry;
        proof {
            assert(lua.registry@.contains_key(slot as int));
        }
        assert(lua.objects@[g as int] == Object::Table(ev));
        lua.bind_value(g, "_G", RawValue::Table(g));
        proof {
            reveal_strlit("_G");
            reveal_strlit("debug");
            lemma_names_differ("_G", "debug");
        }
        let n: usize = if load_debug { 9 } else { 8 };
        let mut i: usize = 1;
        while i <= n
            invariant
                lua.wf(),
                1 <= i <= n + 1,
                n == library_count(load_debug),
                (g as int) < lua.objects@.len(),
                lua.objects@[g as int] is Table,
                lua.objects@[g as int]->Table_0@.len() == i,
                binds_name(lua.objects@, lua.objects@[g as int]->Table_0@[0], "_G".spec_bytes()),
                lua.objects@[g as int]->Table_0@[0].1 == RawValue::Table(g),
                forall|j: int| 1 <= j < i ==> binds_library(lua.objects@, #[trigger] lua.objects@[g as int]->Table_0@[j], library_name(j)),
                !load_debug ==> forall|j: int| 0 <= j < i ==> !binds_name(lua.objects@, #[trigger] lua.objects@[g as int]->Table_0@[j], "debug".spec_bytes()),
                "_G".spec_bytes() != "debug".spec_bytes(),
                lua.stack@.len() == 0,
                lua.registry == reg0,
                lua.globals_slot == slot,
                reg0.live_count() == 1,
                reg0.live(slot as int),
                reg0@[slot as int] == RawValue::Table(g),
                lua.named@.len() == 0,
                lua.registered_userdata@.len() == 0,
                lua.pending_release@.len() == 0,
                lua.main_id == main_id,
                !lua.ephemeral,
            decreases n + 1 - i,
        {
            let lib = lua.new_object(Object::Table(Vec::new()));
            let ghost prev = lua.objects@;
            lua.bind_value(g, library(i), RawValue::Table(lib));
            proof {
                let e = lua.objects@[g as int]->Table_0@;
                let e0 = prev[g as int]->Table_0@;
                assert(e.drop_last() == e0);
                lemma_binds_name_stable(prev, lua.objects@, e[0], "_G".spec_bytes());
                assert forall|j: int| 1 <= j < i + 1 implies binds_library(lua.objects@, #[trigger] e[j], library_name(j)) by {
                    if j < i {
                        assert(e[j] == e0[j]);
                        lemma_binds_name_stable(prev, lua.objects@, e[j], library_name(j).spec_bytes());
                    } else {
                        assert(e[j] == e.last());
                    }
                }
                if !load_debug {
                    lemma_not_debug(i as int);
                    assert forall|j: int| 0 <= j < i + 1 implies !binds_name(lua.objects@, #[trigger] e[j], "debug".spec_bytes()) by {
                        if j < i {
                            assert(e[j] == e0[j]);
                            if binds_name(lua.objects@, e[j], "debug".spec_bytes()) {
                                let k = e[j].0->Str_0 as int;
                                assert(lua.objects@[k] == prev[k]);
                            }
                        } else {
                            assert(e[j] == e.last());
                        }
                    }
                }
            }
            i = i + 1;
        }
        // Built-ins that cannot catch a host panic raised through a callback.
        let pcall = lua.new_object(Object::Native("safe_pcall"));
        let ghost before_pcall = lua.objects@;
        lua.bind_value(g, "pcall", RawValue::Function(pcall));
        let xpcall = lua.new_object(Object::Native("safe_xpcall"));
        let ghost before_xpcall = lua.objects@;
        lua.bind_value(g, "xpcall", RawValue::Function(xpcall));
        proof {
            reveal_strlit("pcall");
            reveal_strlit("xpcall");
            lemma_names_differ("pcall", "debug");
            lemma_names_differ("xpcall", "debug");
            let e = lua.objects@[g as int]->Table_0@;
            let e1 = before_xpcall[g as int]->Table_0@;
            let e0 = before_pcall[g as int]->Table_0@;
            assert(e.drop_last() == e1);
            assert(e1.drop_last() == e0);
            assert(stable(before_pcall, lua.objects@));
            assert(e[0] == e0[0]);
            lemma_binds_name_stable(before_pcall, lua.objects@, e[0], "_G".spec_bytes());
            assert forall|j: int| 1 <= j <= n implies binds_library(lua.objects@, #[trigger] e[j], library_name(j)) by {
                assert(e[j] == e0[j]);
                lemma_binds_name_stable(before_pcall, lua.objects@, e[j], library_name(j).spec_bytes());
            }
            assert(e[n + 1] == e1.last());
            lemma_binds_name_stable(before_xpcall, lua.objects@, e1.last(), "pcall".spec_bytes());
            assert(lua.objects@[pcall as int] == before_pcall[pcall as int]);
            assert(lua.objects@[xpcall as int] == before_xpcall[xpcall as int]);
            if !load_debug {
                assert forall|j: int| 0 <= j < e.len() implies !binds_name(lua.objects@, #[trigger] e[j], "debug".spec_bytes()) by {
                    if j <= n {
                        assert(e[j] == e0[j]);
                        if binds_name(lua.objects@, e[j], "debug".spec_bytes()) {
                            let k = e[j].0->Str_0 as int;
                            assert(lua.objects@[k] == before_pcall[k]);
                        }
                    } else if j == n + 1 {
                        assert(e[j] == e1.last());
                    } else {
                        assert(e[j] == e.last());
                    }
                }
            }
            assert(standard_globals(lua.objects@, e, RawValue::Table(g), load_debug));
        }
        lua
    }

    /// Tears an instance down. A root must leave its operand stack empty: a
    /// value left there would mean an operation that did not balance it.
    pub fn close(self)
        requires
            self.ephemeral || self.stack@.len() == 0,
    {
    }

    /// Lends the context to an ephemeral handle with the same identity, as a
    /// callback receives it; this handle holds an empty context meanwhile, and
    /// is fit for nothing but `restore`.
    pub fn lend(&mut self) -> (eph: Lua)
        requires
            old(self).wf(),
        ensures
            eph.wf(),
            eph.ephemeral,
            eph.main_id == old(self).main_id,
            eph.stack@ == old(self).stack@,
            eph.budget == old(self).budget,
            eph.registry == old(self).registry,
            eph.objects@ == old(self).objects@,
            eph.named@ == old(self).named@,
            eph.registered_userdata@ == old(self).registered_userdata@,
            eph.pending_release@ == old(self).pending_release@,
            eph.globals_slot == old(self).globals_slot,
            final(self).main_id == old(self).main_id,
            final(self).ephemeral == old(self).ephemeral,
    {
        let mut eph = Lua {
            stack: Vec::new(),
            budget: 0,
            registry: Registry::new(),
            objects: Vec::new(),
            named: Vec::new(),
            globals_slot: self.globals_slot,
            registered_userdata: Vec::new(),
            pending_release: Vec::new(),
            main_id: self.main_id,
            ephemeral: true,
        };
        eph.swap_context(self);
        eph
    }

    /// Takes back the context lent to `eph`.
    pub fn restore(&mut self, eph: Lua)
        requires
            eph.wf(),
            eph.main_id == old(self).main_id,
        ensures
            final(self).wf(),
            final(self).main_id == old(self).main_id,
            final(self).ephemeral == old(self).ephemeral,
            final(self).stack@ == eph.stack@,
            final(self).budget == eph.budget,
            final(self).registry == eph.registry,
            final(self).objects@ == eph.objects@,
            final(self).named@ == eph.named@,
            final(self).registered_userdata@ == eph.registered_userdata@,
            final(self).pending_release@ == eph.pending_release@,
            final(self).globals_slot == eph.globals_slot,
    {
        let mut eph = eph;
        self.swap_context(&mut eph);
    }

    /// Exchanges the contexts of two handles, keeping each one's identity.
    fn swap_context(&mut self, other: &mut Lua)
        ensures
            final(self).main_id == old(self).main_id,
            final(self).ephemeral == old(self).ephemeral,
            final(other).main_id == old(other).main_id,
            final(other).ephemeral == old(other).ephemeral,
            final(self).stack@ == old(other).stack@,
            final(self).budget == old(other).budget,
            final(self).registry == old(other).registry,
            final(self).objects@ == old(other).objects@,
            final(self).named@ == old(other).named@,
            final(self).registered_userdata@ == old(other).registered_userdata@,
            final(self).pending_release@ == old(other).pending_release@,
            final(self).globals_slot == old(other).globals_slot,
            final(other).stack@ == old(self).stack@,
            final(other).budget == old(self).budget,
            final(other).registry == old(self).registry,
            final(other).objects@ == old(self).objects@,
            final(other).named@ == old(self).named@,
            final(other).registered_userdata@ == old(self).registered_userdata@,
            final(other).pending_release@ == old(self).pending_release@,
            final(other).globals_slot == old(self).globals_slot,
    {
        std::mem::swap(&mut self.stack, &mut other.stack);
        std::mem::swap(&mut self.budget, &mut other.budget);
        std::mem::swap(&mut self.registry, &mut other.registry);
        std::mem::swap(&mut self.objects, &mut other.objects);
        std::mem::swap(&mut self.named, &mut other.named);
        std::mem::swap(&mut self.globals_slot, &mut other.globals_slot);
        std::mem::swap(&mut self.registered_userdata, &mut other.registered_userdata);
        std::mem::swap(&mut self.pending_release, &mut other.pending_release);
    }
}

/// Hands out root instances with identities no earlier root from the same
/// mint has, so that the ownership checks on handles and durable keys tell the
/// roots apart.
pub struct RootMint {
    pub next: u64,
}

impl RootMint {
    pub fn new() -> (r: RootMint)
        ensures
            r.next == 0,
    {
        RootMint { next: 0 }
    }

    /// A new root whose identity is below every identity this mint hands out
    /// later, and at or above every one it handed out before; `None` once the
    /// identities are used up.
    pub fn create(&mut self, load_debug: bool) -> (r: Option<Lua>)
        ensures
            old(self).next < u64::MAX ==> {
                &&& r is Some
                &&& final(self).next == old(self).next + 1
                &&& r.unwrap().wf()
                &&& r.unwrap().fresh_root(old(self).next)
                &&& r.unwrap().table_of_slot(r.unwrap().globals_slot as int) matches Some(e)
                    && standard_globals(r.unwrap().objects@, e, r.unwrap().registry.get_spec(r.unwrap().globals_slot as int), load_debug)
            },
            old(self).next == u64::MAX ==> r is None && final(self).next == old(self).next,
    {
        if self.next == u64::MAX {
            return None;
        }
        let id = self.next;
        self.next = self.next + 1;
        Some(Lua::create_lua(id, load_debug))
    }
}

/// Two roots created one after the other by the same mint have different
/// identities.
pub proof fn minted_roots_differ(first: Lua, second: Lua, m0: RootMint, m1: RootMint)
    requires
        first.fresh_root(m0.next),
        m1.next == m0.next + 1,
        second.fresh_root(m1.next),
    ensures
        first.main_id != second.main_id,
{
}

} // verus!
