use rlua::error::Error;
use rlua::heap::Object;
use rlua::index::IndexTarget;
use rlua::lua::Lua;
use rlua::userdata::{MetaMethod, UserDataMethods};
use rlua::value::{AnyUserData, LuaString, RawValue, Value};

fn live(lua: &Lua) -> usize {
    lua.registry.slots.len() - lua.registry.free.len()
}

fn text(lua: &Lua, s: &LuaString) -> Vec<u8> {
    lua.string_bytes(&s.0).expect("a string").clone()
}

#[test]
fn new_root_has_empty_stack_and_globals() {
    let mut lua = Lua::new(1);
    assert_eq!(lua.stack.len(), 0);
    assert!(!lua.ephemeral);
    assert_eq!(live(&lua), 1);
    let g = lua.globals();
    assert!(matches!(lua.registry.get(g.0.registry_id), RawValue::Table(_)));
    assert_eq!(lua.stack.len(), 0);
    lua.release_ref(g.0);
    assert_eq!(live(&lua), 1);
    lua.close();
}

#[test]
fn debug_root_loads_one_more_library() {
    let plain = Lua::new(1);
    let debug = Lua::new_with_debug(2);
    let count = |l: &Lua| match l.registry.get(l.globals_slot) {
        RawValue::Table(o) => match &l.objects[o] {
            Object::Table(e) => e.len(),
            _ => 0,
        },
        _ => 0,
    };
    assert_eq!(count(&debug), count(&plain) + 1);
}

#[test]
fn operations_keep_the_stack_balanced() {
    let mut lua = Lua::new(1);
    let s = lua.create_string("hello").unwrap();
    let t = lua.create_table().unwrap();
    let f = lua.create_function(3).unwrap();
    let th = lua.create_thread(&f).unwrap();
    lua.set_named_registry_value("k", &Value::Integer(5)).unwrap();
    let _ = lua.named_registry_value("k").unwrap();
    let key = lua.create_registry_value(&Value::Boolean(true)).unwrap();
    let _ = lua.registry_value(&key).unwrap();
    let _ = lua.coerce_string(Value::Integer(12)).unwrap();
    let _ = lua.coerce_integer(Value::String(s)).unwrap_err();
    assert_eq!(lua.stack.len(), 0);
    lua.release_ref(t.0);
    lua.release_ref(th.0);
    assert_eq!(lua.stack.len(), 0);
}

#[test]
fn create_string_interns_contents() {
    let mut lua = Lua::new(1);
    let a = lua.create_string("abc").unwrap();
    let b = lua.create_string("abc").unwrap();
    assert_eq!(text(&lua, &a), b"abc".to_vec());
    assert_eq!(lua.registry.get(a.0.registry_id), lua.registry.get(b.0.registry_id));
    assert_ne!(a.0.registry_id, b.0.registry_id);
}

#[test]
fn pinned_value_survives_until_released() {
    let mut lua = Lua::new(1);
    let s = lua.create_string("kept").unwrap();
    let id = s.0.registry_id;
    let before = lua.registry.get(id);
    for i in 0..10 {
        let _ = lua.create_registry_value(&Value::Integer(i)).unwrap();
    }
    assert_eq!(lua.registry.get(id), before);
    let before_live = live(&lua);
    lua.release_ref(s.0);
    assert_eq!(lua.registry.get(id), RawValue::Nil);
    assert_eq!(live(&lua), before_live - 1);
}

#[test]
fn released_slots_are_reused() {
    let mut lua = Lua::new(1);
    let t = lua.create_table().unwrap();
    let id = t.0.registry_id;
    lua.release_ref(t.0);
    let u = lua.create_table().unwrap();
    assert_eq!(u.0.registry_id, id);
}

#[test]
fn create_table_from_assigns_pairs_in_order() {
    let mut lua = Lua::new(1);
    let k = lua.create_string("name").unwrap();
    let pairs = vec![
        (Value::Integer(1), Value::Boolean(true)),
        (Value::String(k), Value::Integer(7)),
        (Value::Integer(1), Value::Integer(9)),
    ];
    let t = lua.create_table_from(&pairs).unwrap();
    let entries = match lua.registry.get(t.0.registry_id) {
        RawValue::Table(o) => match &lua.objects[o] {
            Object::Table(e) => e.clone(),
            _ => panic!("not a table"),
        },
        _ => panic!("not a table"),
    };
    assert_eq!(entries.len(), 3);
    assert_eq!(entries[0], (RawValue::Integer(1), RawValue::Boolean(true)));
    assert_eq!(entries[2], (RawValue::Integer(1), RawValue::Integer(9)));
    assert_eq!(rlua::heap::table_lookup(&entries, RawValue::Integer(1)), RawValue::Integer(9));
    assert_eq!(lua.stack.len(), 0);
}

#[test]
fn create_table_from_refuses_nil_key() {
    let mut lua = Lua::new(1);
    let before_live = live(&lua);
    let pairs = vec![(Value::Integer(1), Value::Integer(2)), (Value::Nil, Value::Integer(3))];
    let r = lua.create_table_from(&pairs);
    assert!(matches!(r, Err(Error::RuntimeError(_))));
    assert_eq!(lua.stack.len(), 0);
    assert_eq!(live(&lua), before_live);
}

#[test]
fn create_sequence_from_keys_from_one() {
    let mut lua = Lua::new(1);
    let vals = vec![Value::Integer(10), Value::Integer(20), Value::Boolean(false)];
    let t = lua.create_sequence_from(&vals).unwrap();
    let entries = match lua.registry.get(t.0.registry_id) {
        RawValue::Table(o) => match &lua.objects[o] {
            Object::Table(e) => e.clone(),
            _ => panic!("not a table"),
        },
        _ => panic!("not a table"),
    };
    assert_eq!(
        entries,
        vec![
            (RawValue::Integer(1), RawValue::Integer(10)),
            (RawValue::Integer(2), RawValue::Integer(20)),
            (RawValue::Integer(3), RawValue::Boolean(false)),
        ]
    );
}

#[test]
fn handle_from_another_root_is_refused() {
    let mut a = Lua::new(1);
    let mut b = Lua::new(2);
    let s = a.create_string("x").unwrap();
    let vals = vec![Value::String(s)];
    assert!(matches!(b.create_sequence_from(&vals), Err(Error::ForeignValue)));
    let f = a.create_function(1).unwrap();
    assert!(matches!(b.create_thread(&f), Err(Error::ForeignValue)));
    assert!(matches!(b.set_named_registry_value("n", &vals[0]), Err(Error::ForeignValue)));
    assert_eq!(b.stack.len(), 0);
}

#[test]
fn named_value_read_back_through_ephemeral_handle() {
    let mut root = Lua::new(1);
    let x = root.create_string("x").unwrap();
    root.set_named_registry_value("entry", &Value::String(x)).unwrap();
    let mut eph = root.lend();
    assert!(eph.ephemeral);
    assert_eq!(eph.main_id, root.main_id);
    let v = eph.named_registry_value("entry").unwrap();
    match v {
        Value::String(s) => assert_eq!(text(&eph, &s), b"x".to_vec()),
        _ => panic!("expected a string"),
    }
    root.restore(eph);
    assert_eq!(root.stack.len(), 0);
}

#[test]
fn unset_named_value_reads_nil() {
    let mut lua = Lua::new(1);
    lua.set_named_registry_value("a", &Value::Integer(3)).unwrap();
    lua.set_named_registry_value("b", &Value::Integer(4)).unwrap();
    lua.unset_named_registry_value("a").unwrap();
    assert!(matches!(lua.named_registry_value("a").unwrap(), Value::Nil));
    assert!(matches!(lua.named_registry_value("b").unwrap(), Value::Integer(4)));
    assert!(matches!(lua.named_registry_value("missing").unwrap(), Value::Nil));
}

#[test]
fn durable_key_usable_within_root_only() {
    let mut root = Lua::new(1);
    let mut other = Lua::new(2);
    let key = root.create_registry_value(&Value::Integer(99)).unwrap();
    assert!(root.owns_registry_value(&key));
    assert!(!other.owns_registry_value(&key));
    assert!(matches!(other.registry_value(&key), Err(Error::MismatchedRegistryKey)));
    let mut eph = root.lend();
    assert!(eph.owns_registry_value(&key));
    assert!(matches!(eph.registry_value(&key).unwrap(), Value::Integer(99)));
    root.restore(eph);
    let copy = rlua::keys::RegistryKey { registry_id: key.registry_id, owner: key.owner, drop_unref: true };
    assert!(matches!(other.remove_registry_value(copy), Err(Error::MismatchedRegistryKey)));
    let before_live = live(&root);
    root.remove_registry_value(key).unwrap();
    assert_eq!(live(&root), before_live - 1);
}

#[test]
fn sweep_releases_exactly_the_dropped_keys() {
    let mut lua = Lua::new(1);
    let mut keys = Vec::new();
    for i in 0..5 {
        keys.push(lua.create_registry_value(&Value::Integer(i)).unwrap());
    }
    let before_live = live(&lua);
    for k in keys {
        lua.drop_registry_key(k).unwrap();
    }
    assert_eq!(lua.pending_release.len(), 5);
    assert_eq!(live(&lua), before_live);
    lua.expire_registry_values();
    assert!(lua.pending_release.is_empty());
    assert_eq!(live(&lua), before_live - 5);
}

#[test]
fn dropping_a_key_of_another_root_is_refused() {
    let mut a = Lua::new(1);
    let mut b = Lua::new(2);
    let key = a.create_registry_value(&Value::Integer(1)).unwrap();
    assert!(matches!(b.drop_registry_key(key), Err(Error::MismatchedRegistryKey)));
    assert!(b.pending_release.is_empty());
}

fn host_call(payload: u64, args: &[Value]) -> Result<Vec<Value>, Error> {
    match payload {
        1 => Ok(vec![Value::Integer(42)]),
        2 => match args.first() {
            Some(Value::Integer(i)) => Ok(vec![Value::Integer(i * 2), Value::Integer(i + 1)]),
            _ => Err(Error::RuntimeError("expected an integer")),
        },
        _ => Ok(vec![]),
    }
}

#[test]
fn callback_receives_arguments_in_call_order() {
    let mut lua = Lua::new(1);
    let f = lua.create_function(9).unwrap();
    lua.check_stack(3);
    lua.push_value(&Value::Integer(1)).unwrap();
    lua.push_value(&Value::Integer(2)).unwrap();
    lua.push_value(&Value::Boolean(true)).unwrap();
    let frame = lua.callback_enter(&f, 3).unwrap();
    assert_eq!(frame.payload, 9);
    assert!(matches!(frame.args[0], Value::Integer(1)));
    assert!(matches!(frame.args[1], Value::Integer(2)));
    assert!(matches!(frame.args[2], Value::Boolean(true)));
    assert_eq!(lua.stack.len(), 0);
    let n = lua.callback_exit(frame.func, Ok(vec![])).unwrap();
    assert_eq!(n, 0);
}

#[test]
fn callback_results_are_pushed_in_order() {
    let mut lua = Lua::new(1);
    let f = lua.create_function(2).unwrap();
    lua.check_stack(1);
    lua.push_value(&Value::Integer(5)).unwrap();
    let frame = lua.callback_enter(&f, 1).unwrap();
    let results = host_call(frame.payload, &frame.args);
    let n = lua.callback_exit(frame.func, results).unwrap();
    assert_eq!(n, 2);
    assert_eq!(lua.stack, vec![RawValue::Integer(10), RawValue::Integer(6)]);
}

#[test]
fn callback_error_is_passed_on() {
    let mut lua = Lua::new(1);
    let f = lua.create_function(2).unwrap();
    let frame = lua.callback_enter(&f, 0).unwrap();
    let results = host_call(frame.payload, &frame.args);
    assert!(matches!(lua.callback_exit(frame.func, results), Err(Error::RuntimeError(_))));
    assert_eq!(lua.stack.len(), 0);
}

#[test]
fn callback_from_another_root_is_refused() {
    let mut a = Lua::new(1);
    let mut b = Lua::new(2);
    let f = b.create_function(1).unwrap();
    let g = a.create_function(1).unwrap();
    assert_eq!(f.0.registry_id, g.0.registry_id);
    let foreign = rlua::value::Function(rlua::value::LuaRef { main_id: 2, registry_id: g.0.registry_id, drop_unref: false });
    assert!(matches!(a.callback_enter(&foreign, 0), Err(Error::ForeignValue)));
}

#[test]
fn callback_results_beyond_the_stack_limit_overflow() {
    let mut lua = Lua::new(1);
    let f = lua.create_function(1).unwrap();
    let frame = lua.callback_enter(&f, 0).unwrap();
    let many: Vec<Value> = (0..(rlua::lua::MAX_STACK as i64 + 1)).map(Value::Integer).collect();
    assert!(matches!(lua.callback_exit(frame.func, Ok(many)), Err(Error::StackOverflow)));
    assert_eq!(lua.stack.len(), 0);
}

#[test]
fn mutable_callback_refuses_reentry() {
    let mut lua = Lua::new(1);
    let f = lua.create_function_mut(4).unwrap();
    let frame = lua.callback_enter(&f, 0).unwrap();
    assert!(matches!(lua.callback_enter(&f, 0), Err(Error::RecursiveMutCallback)));
    lua.callback_exit(frame.func, Ok(vec![])).unwrap();
    let again = lua.callback_enter(&f, 0).unwrap();
    assert_eq!(again.payload, 4);
}

#[test]
fn plain_callback_may_be_reentered() {
    let mut lua = Lua::new(1);
    let f = lua.create_function(4).unwrap();
    let _outer = lua.callback_enter(&f, 0).unwrap();
    let inner = lua.callback_enter(&f, 0).unwrap();
    assert_eq!(inner.payload, 4);
}

fn getter_type() -> UserDataMethods {
    UserDataMethods { methods: vec![("get", 1)], meta_methods: vec![(MetaMethod::Add, 5)] }
}

#[test]
fn method_of_host_type_is_found_and_called() {
    let mut lua = Lua::new(1);
    let ud = lua.create_userdata(77, 500, &getter_type()).unwrap();
    let target = lua.index_userdata(&ud, "get").unwrap();
    let f = match target {
        IndexTarget::Found(Value::Function(f)) => f,
        _ => panic!("method not found"),
    };
    lua.check_stack(1);
    lua.push_ref(&ud.0).unwrap();
    let frame = lua.callback_enter(&f, 1).unwrap();
    assert!(matches!(frame.args[0], Value::UserData(_)));
    let results = host_call(frame.payload, &frame.args);
    assert_eq!(lua.callback_exit(frame.func, results).unwrap(), 1);
    assert_eq!(lua.stack, vec![RawValue::Integer(42)]);
    assert!(matches!(lua.index_userdata(&ud, "missing").unwrap(), IndexTarget::Found(Value::Nil)));
}

#[test]
fn custom_index_is_consulted_after_methods() {
    let mut lua = Lua::new(1);
    let decl = UserDataMethods { methods: vec![("get", 1)], meta_methods: vec![(MetaMethod::Index, 8)] };
    let ud = lua.create_userdata(78, 501, &decl).unwrap();
    assert!(matches!(lua.index_userdata(&ud, "get").unwrap(), IndexTarget::Found(Value::Function(_))));
    match lua.index_userdata(&ud, "other").unwrap() {
        IndexTarget::Handler(h) => {
            let frame = lua.callback_enter(&h, 0).unwrap();
            assert_eq!(frame.payload, 8);
        },
        _ => panic!("expected the custom index handler"),
    }
}

#[test]
fn custom_index_alone_is_the_handler() {
    let mut lua = Lua::new(1);
    let decl = UserDataMethods { methods: vec![], meta_methods: vec![(MetaMethod::Index, 8)] };
    let ud = lua.create_userdata(79, 502, &decl).unwrap();
    assert!(matches!(lua.index_userdata(&ud, "anything").unwrap(), IndexTarget::Handler(_)));
    let bare = lua.create_userdata(80, 503, &UserDataMethods { methods: vec![], meta_methods: vec![] }).unwrap();
    assert!(matches!(lua.index_userdata(&bare, "x").unwrap(), IndexTarget::Missing));
}

#[test]
fn dispatch_table_is_cached_per_type() {
    let mut lua = Lua::new(1);
    let first = lua.userdata_metatable(77, &getter_type()).unwrap();
    let objects = lua.objects.len();
    let second = lua.userdata_metatable(77, &getter_type()).unwrap();
    assert_eq!(first, second);
    assert_eq!(lua.objects.len(), objects);
    let other = lua.userdata_metatable(78, &getter_type()).unwrap();
    assert_ne!(first, other);
}

#[test]
fn dispatch_table_hides_itself_and_finalizes() {
    let mut lua = Lua::new(1);
    let id = lua.userdata_metatable(77, &getter_type()).unwrap();
    let entries = match lua.registry.get(id) {
        RawValue::Table(o) => match &lua.objects[o] {
            Object::Table(e) => e.clone(),
            _ => panic!("not a table"),
        },
        _ => panic!("not a table"),
    };
    assert_eq!(entries.len(), 4);
    assert_eq!(entries[3].1, RawValue::Boolean(false));
    match entries[2].1 {
        RawValue::Function(g) => assert!(matches!(lua.objects[g], Object::Finalizer)),
        _ => panic!("no finalizer"),
    }
}

#[test]
fn meta_method_names() {
    assert_eq!(MetaMethod::Add.name(), "__add");
    assert_eq!(MetaMethod::IDiv.name(), "__idiv");
    assert_eq!(MetaMethod::NewIndex.name(), "__newindex");
    assert_eq!(MetaMethod::ToString.name(), "__tostring");
}

#[test]
fn scope_exit_invalidates_everything_registered() {
    let mut lua = Lua::new(1);
    let mut scope = lua.scope();
    let f1 = scope.create_function(&mut lua, 11).unwrap();
    let f2 = scope.create_function_mut(&mut lua, 12).unwrap();
    let ud = scope.create_userdata(&mut lua, 90, 13, &getter_type()).unwrap();
    let f3 = scope.create_function(&mut lua, 14).unwrap();
    assert!(!f1.0.drop_unref && !ud.0.drop_unref);
    let stale = rlua::value::Function(rlua::value::LuaRef { main_id: 1, registry_id: f1.0.registry_id, drop_unref: false });
    lua.check_stack(2);
    lua.push_ref(&f1.0).unwrap();
    let f1_obj = lua.stack[0];
    lua.push_ref(&ud.0).unwrap();
    let ud_obj = lua.stack[1];
    lua.settop(0);
    let before_live = live(&lua);
    let payloads = scope.close(&mut lua);
    assert_eq!(payloads, vec![Some(11), Some(12), Some(13), Some(14)]);
    assert_eq!(live(&lua), before_live - 4);
    match f1_obj {
        RawValue::Function(o) => assert!(matches!(lua.objects[o], Object::Callback { payload: None, .. })),
        _ => panic!("not a function"),
    }
    match ud_obj {
        RawValue::UserData(o) => assert!(matches!(lua.objects[o], Object::UserData { payload: None, .. })),
        _ => panic!("not a host object"),
    }
    let again = lua.create_function(20).unwrap();
    let _ = (f2, f3, stale, again);
}

#[test]
fn stale_scoped_function_reports_destructed() {
    let mut lua = Lua::new(1);
    let mut scope = lua.scope();
    let f = scope.create_function(&mut lua, 11).unwrap();
    let keep = lua.create_thread(&f).unwrap();
    let body = match lua.registry.get(keep.0.registry_id) {
        RawValue::Thread(t) => match &lua.objects[t] {
            Object::Thread { body } => *body,
            _ => panic!("not a thread"),
        },
        _ => panic!("not a thread"),
    };
    let _ = scope.close(&mut lua);
    lua.check_stack(1);
    let slot = lua.registry.reference(body);
    let handle = rlua::value::Function(rlua::value::LuaRef { main_id: 1, registry_id: slot, drop_unref: true });
    assert!(matches!(lua.callback_enter(&handle, 0), Err(Error::CallbackDestructed)));
}

#[test]
fn coerce_string_of_integer_is_decimal() {
    let mut lua = Lua::new(1);
    let s = lua.coerce_string(Value::Integer(-42)).unwrap();
    assert_eq!(text(&lua, &s), b"-42".to_vec());
    let s = lua.coerce_string(Value::Integer(i64::MIN)).unwrap();
    assert_eq!(text(&lua, &s), b"-9223372036854775808".to_vec());
    let s = lua.coerce_string(Value::Integer(0)).unwrap();
    assert_eq!(text(&lua, &s), b"0".to_vec());
}

#[test]
fn coerce_string_keeps_a_string() {
    let mut lua = Lua::new(1);
    let s = lua.create_string("same").unwrap();
    let id = s.0.registry_id;
    let r = lua.coerce_string(Value::String(s)).unwrap();
    assert_eq!(r.0.registry_id, id);
}

#[test]
fn coerce_string_refuses_other_kinds() {
    let mut lua = Lua::new(1);
    match lua.coerce_string(Value::Boolean(true)) {
        Err(Error::FromLuaConversionError { from, to, .. }) => {
            assert_eq!(from, "boolean");
            assert_eq!(to, "String");
        },
        _ => panic!("expected a conversion error"),
    }
    let t = lua.create_table().unwrap();
    let before_live = live(&lua);
    assert!(lua.coerce_string(Value::Table(t)).is_err());
    assert_eq!(live(&lua), before_live - 1);
}

#[test]
fn coerce_integer_reads_decimal_strings() {
    let mut lua = Lua::new(1);
    assert_eq!(lua.coerce_integer(Value::Integer(7)).unwrap(), 7);
    let s = lua.create_string("  17 ").unwrap();
    assert_eq!(lua.coerce_integer(Value::String(s)).unwrap(), 17);
    let s = lua.create_string("-9223372036854775808").unwrap();
    assert_eq!(lua.coerce_integer(Value::String(s)).unwrap(), i64::MIN);
    let s = lua.create_string("+5").unwrap();
    assert_eq!(lua.coerce_integer(Value::String(s)).unwrap(), 5);
}

#[test]
fn coerce_integer_refuses_bad_strings() {
    let mut lua = Lua::new(1);
    for bad in ["9223372036854775808", "abc", "", "-", "1 2", "12x"] {
        let s = lua.create_string(bad).unwrap();
        match lua.coerce_integer(Value::String(s)) {
            Err(Error::FromLuaConversionError { from, to, .. }) => {
                assert_eq!(from, "string");
                assert_eq!(to, "integer");
            },
            _ => panic!("expected a conversion error for {:?}", bad),
        }
    }
    assert!(lua.coerce_integer(Value::Nil).is_err());
    let mut other = Lua::new(2);
    let s = other.create_string("1").unwrap();
    assert!(matches!(lua.coerce_integer(Value::String(s)), Err(Error::ForeignValue)));
}

#[test]
fn value_kind_names() {
    assert_eq!(Value::Nil.kind_name(), "nil");
    assert_eq!(Value::Integer(1).kind_name(), "integer");
    assert_eq!(Value::LightUserData(0).kind_name(), "lightuserdata");
}

#[test]
fn registry_value_of_released_slot_is_nil() {
    let mut lua = Lua::new(1);
    let key = lua.create_registry_value(&Value::Integer(3)).unwrap();
    let copy = rlua::keys::RegistryKey { registry_id: key.registry_id, owner: key.owner, drop_unref: false };
    lua.remove_registry_value(key).unwrap();
    assert!(matches!(lua.registry_value(&copy).unwrap(), Value::Nil));
    let _ = AnyUserData(rlua::value::LuaRef { main_id: 1, registry_id: 0, drop_unref: false });
}

fn coerce(lua: &mut Lua, text: &str) -> Result<i64, Error> {
    let s = lua.create_string(text).unwrap();
    lua.coerce_integer(Value::String(s))
}

#[test]
fn coerce_integer_reads_hex_and_whole_point_notation() {
    let mut lua = Lua::new(1);
    assert_eq!(coerce(&mut lua, "0x10").unwrap(), 16);
    assert_eq!(coerce(&mut lua, "0XfF").unwrap(), 255);
    assert_eq!(coerce(&mut lua, "-0x1").unwrap(), -1);
    assert_eq!(coerce(&mut lua, "0xffffffffffffffff").unwrap(), -1);
    assert_eq!(coerce(&mut lua, "0x8000000000000000").unwrap(), i64::MIN);
    assert_eq!(coerce(&mut lua, "0x10000000000000001").unwrap(), 1);
    assert_eq!(coerce(&mut lua, "10.0").unwrap(), 10);
    assert_eq!(coerce(&mut lua, " -3.000 ").unwrap(), -3);
    assert_eq!(coerce(&mut lua, "7.").unwrap(), 7);
    assert_eq!(coerce(&mut lua, ".0").unwrap(), 0);
    assert_eq!(coerce(&mut lua, "9007199254740992.0").unwrap(), 9007199254740992);
}

#[test]
fn coerce_integer_refuses_strings_without_integer_value() {
    let mut lua = Lua::new(1);
    for bad in ["1.5", "0x", "0xg", ".", "- 1", "1 2", "one"] {
        assert!(coerce(&mut lua, bad).is_err(), "{:?} should not convert", bad);
    }
}

fn global_names(lua: &Lua) -> Vec<Vec<u8>> {
    let entries = match lua.registry.get(lua.globals_slot) {
        RawValue::Table(o) => match &lua.objects[o] {
            Object::Table(e) => e.clone(),
            _ => panic!("not a table"),
        },
        _ => panic!("not a table"),
    };
    entries
        .iter()
        .map(|(k, _)| match k {
            RawValue::Str(s) => match &lua.objects[*s] {
                Object::Str(c) => c.clone(),
                _ => panic!("not a string"),
            },
            _ => panic!("not a string key"),
        })
        .collect()
}

#[test]
fn new_root_binds_the_safe_libraries() {
    let lua = Lua::new(1);
    let names: Vec<Vec<u8>> = ["_G", "coroutine", "table", "io", "os", "string", "utf8", "math", "package", "pcall", "xpcall"]
        .iter()
        .map(|n| n.as_bytes().to_vec())
        .collect();
    assert_eq!(global_names(&lua), names);
    let debug = Lua::new_with_debug(2);
    assert_eq!(global_names(&debug)[9], b"debug".to_vec());
    assert!(!global_names(&lua).contains(&b"debug".to_vec()));
}

#[test]
fn minted_roots_have_distinct_identities() {
    let mut mint = rlua::state::RootMint::new();
    let mut a = mint.create(false).unwrap();
    let mut b = mint.create(false).unwrap();
    assert_ne!(a.main_id, b.main_id);
    let key = a.create_registry_value(&Value::Integer(1)).unwrap();
    assert!(matches!(b.registry_value(&key), Err(Error::MismatchedRegistryKey)));
    assert!(matches!(a.registry_value(&key).unwrap(), Value::Integer(1)));
    let exhausted = &mut rlua::state::RootMint { next: u64::MAX };
    assert!(exhausted.create(false).is_none());
}

#[test]
fn scope_with_invalidates_when_the_body_returns() {
    let mut lua = Lua::new(1);
    let (objs, payloads) = lua.scope_with(|l, s| {
        let f = s.create_function(l, 5).unwrap();
        let u = s.create_userdata(l, 3, 6, &getter_type()).unwrap();
        (l.registry.get(f.0.registry_id), l.registry.get(u.0.registry_id))
    });
    assert_eq!(payloads, vec![Some(5), Some(6)]);
    match objs.0 {
        RawValue::Function(o) => assert!(matches!(lua.objects[o], Object::Callback { payload: None, .. })),
        _ => panic!("not a function"),
    }
    match objs.1 {
        RawValue::UserData(o) => assert!(matches!(lua.objects[o], Object::UserData { payload: None, .. })),
        _ => panic!("not a host object"),
    }
}

#[test]
fn objects_of_a_cached_type_share_its_dispatch_table() {
    let mut lua = Lua::new(1);
    let a = lua.create_userdata(77, 1, &getter_type()).unwrap();
    let b = lua.create_userdata(77, 2, &getter_type()).unwrap();
    let meta = |l: &Lua, u: &AnyUserData| match l.registry.get(u.0.registry_id) {
        RawValue::UserData(o) => match &l.objects[o] {
            Object::UserData { metatable, .. } => *metatable,
            _ => panic!("not a host object"),
        },
        _ => panic!("not a host object"),
    };
    assert_eq!(meta(&lua, &a), meta(&lua, &b));
}

#[test]
fn host_error_is_raised_unchanged() {
    let mut lua = Lua::new(1);
    let f = lua.create_function(2).unwrap();
    let frame = lua.callback_enter(&f, 0).unwrap();
    match lua.callback_exit(frame.func, Err(Error::RuntimeError("boom"))) {
        Err(Error::RuntimeError(m)) => assert_eq!(m, "boom"),
        _ => panic!("expected the host error"),
    }
}

#[test]
fn variants_survive_push_and_pop() {
    let mut lua = Lua::new(1);
    lua.check_stack(2);
    lua.push_value(&Value::Integer(5)).unwrap();
    assert!(matches!(lua.pop_value(), Value::Integer(5)));
    let s = lua.create_string("s").unwrap();
    lua.push_value(&Value::String(s)).unwrap();
    assert!(matches!(lua.pop_value(), Value::String(_)));
    lua.set_named_registry_value("k", &Value::Integer(5)).unwrap();
    assert!(matches!(lua.named_registry_value("k").unwrap(), Value::Integer(5)));
    match lua.coerce_string(Value::Nil) {
        Err(Error::FromLuaConversionError { message, .. }) => assert_eq!(message, Some("expected string or number")),
        _ => panic!("expected a conversion error"),
    }
}

#[test]
fn forged_handles_cannot_release_the_globals() {
    let mut lua = Lua::new(1);
    let slot = lua.globals_slot;
    lua.release_ref(rlua::value::LuaRef { main_id: 1, registry_id: slot, drop_unref: true });
    let key = rlua::keys::RegistryKey { registry_id: slot, owner: 1, drop_unref: true };
    lua.remove_registry_value(key).unwrap();
    let key = rlua::keys::RegistryKey { registry_id: slot, owner: 1, drop_unref: true };
    lua.drop_registry_key(key).unwrap();
    lua.expire_registry_values();
    assert!(matches!(lua.registry.get(slot), RawValue::Table(_)));
    let g = lua.globals();
    assert!(matches!(lua.registry.get(g.0.registry_id), RawValue::Table(_)));
}
