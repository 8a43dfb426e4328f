use vstd::prelude::*;
use vstd::string::StringSliceAdditionalSpecFns;
use crate::error::Error;
use crate::heap::{Object, bytes_copy, bytes_eq};
use crate::lua::Lua;
use crate::userdata::binds_name;
use crate::value::{RawValue, AnyUserData, Function, Value, kind_matches};

verus! {

/// What a table binds the string `name` to: the latest such assignment, or nil.
pub open spec fn lookup_name(objs: Seq<Object>, entries: Seq<(RawValue, RawValue)>, name: Seq<u8>) -> RawValue
    decreases entries.len(),
{
    if entries.len() == 0 {
        RawValue::Nil
    } else if binds_name(objs, entries.last(), name) {
        entries.last().1
    } else {
        lookup_name(objs, entries.drop_last(), name)
    }
}

/// The assignments of table value `t`, or none if `t` is not a table.
pub open spec fn entries_of(objs: Seq<Object>, t: RawValue) -> Seq<(RawValue, RawValue)> {
    match t {
        RawValue::Table(o) => if (o as int) < objs.len() {
            match objs[o as int] {
                Object::Table(e) => e@,
                _ => Seq::empty(),
            }
        } else {
            Seq::empty()
        },
        _ => Seq::empty(),
    }
}

/// Where indexing a host object by a name leads.
pub enum IndexOutcome {
    /// The methods table holds `v` under the name.
    Found(RawValue),
    /// The index handler `h` is to be called with the object and the name.
    Handler(RawValue),
    /// The object has no index handling.
    Missing,
}

/// Where indexing a host object whose dispatch table is `mt` by `name` leads:
/// a methods table is consulted first; a combined lookup falls back to its
/// custom handler when the methods table lacks the name.
pub open spec fn index_outcome(objs: Seq<Object>, mt: RawValue, name: Seq<u8>) -> IndexOutcome {
    let h = lookup_name(objs, entries_of(objs, mt), name_index());
    match h {
        RawValue::Table(_) => IndexOutcome::Found(lookup_name(objs, entries_of(objs, h), name)),
        RawValue::Function(f) => if (f as int) < objs.len() && objs[f as int] is IndexChain {
            let found = lookup_name(objs, entries_of(objs, objs[f as int]->IndexChain_methods), name);
            if found != RawValue::Nil {
                IndexOutcome::Found(found)
            } else {
                IndexOutcome::Handler(objs[f as int]->IndexChain_fallback)
            }
        } else {
            IndexOutcome::Handler(h)
        },
        _ => IndexOutcome::Missing,
    }
}

/// The bytes of the index-handler key.
pub open spec fn name_index() -> Seq<u8> {
    "__index".spec_bytes()
}

/// The dispatch table of the host object value `u`, or nil.
pub open spec fn metatable_of(objs: Seq<Object>, u: RawValue) -> RawValue {
    match u {
        RawValue::UserData(o) => if (o as int) < objs.len() {
            match objs[o as int] {
                Object::UserData { metatable, .. } => metatable,
                _ => RawValue::Nil,
            }
        } else {
            RawValue::Nil
        },
        _ => RawValue::Nil,
    }
}

/// Where indexing a host object by a name led, with values pinned.
pub enum IndexTarget {
    Found(Value),
    Handler(Function),
    Missing,
}

/// Finds what table value `t` binds the string `name` to.
fn find_name(objs: &Vec<Object>, t: RawValue, name: &Vec<u8>) -> (r: RawValue)
    ensures
        r == lookup_name(objs@, entries_of(objs@, t), name@),
{
    let o = match t {
        RawValue::Table(o) => o,
        _ => return RawValue::Nil,
    };
    if o >= objs.len() {
        return RawValue::Nil;
    }
    let entries = match &objs[o] {
        Object::Table(e) => e,
        _ => return RawValue::Nil,
    };
    let ghost es = entries@;
    let mut i: usize = entries.len();
    assert(es.subrange(0, i as int) =~= es);
    while i > 0
        invariant
            i <= es.len(),
            es == entries@,
            es == entries_of(objs@, t),
            lookup_name(objs@, es, name@) == lookup_name(objs@, es.subrange(0, i as int), name@),
        decreases i,
    {
        assert(es.subrange(0, i as int).drop_last() =~= es.subrange(0, i - 1));
        let (k, v) = entries[i - 1];
        match k {
            RawValue::Str(s) => {
                if s < objs.len() {
                    match &objs[s] {
                        Object::Str(c) => {
                            if bytes_eq(c, name) {
                                return v;
                            }
                        },
                        _ => {},
                    }
                }
            },
            _ => {},
        }
        i = i - 1;
    }
    RawValue::Nil
}

impl Lua {
    /// Where indexing host object `ud` by `key` leads under its dispatch table.
    /// Fails on a handle of another root.
    pub fn index_userdata(&mut self, ud: &AnyUserData, key: &str) -> (r: Result<IndexTarget, Error>)
        requires
            old(self).wf(),
            old(self).room(2),
        ensures
            final(self).wf(),
            r is Ok <==> ud.0.main_id == old(self).main_id,
            r is Ok ==> ({
                let objs = old(self).objects@;
                let outcome = index_outcome(objs, metatable_of(objs, old(self).ref_value(ud.0)), key.spec_bytes());
                match r->Ok_0 {
                    IndexTarget::Found(v) => outcome == IndexOutcome::Found(final(self).raw_of(v))
                        && kind_matches(v, final(self).raw_of(v)),
                    IndexTarget::Handler(h) => outcome == IndexOutcome::Handler(final(self).ref_value(h.0)),
                    IndexTarget::Missing => outcome == IndexOutcome::Missing,
                }
            }),
            old(self).registry@.submap_of(final(self).registry@),
            final(self).objects@ == old(self).objects@,
            final(self).stack@ == old(self).stack@,
            final(self).same_bookkeeping(*old(self)),
    {
        if ud.0.main_id != self.main_id {
            return Err(Error::ForeignValue);
        }
        let u = self.registry.get(ud.0.registry_id);
        let mt = match u {
            RawValue::UserData(o) => if o < self.objects.len() {
                match &self.objects[o] {
                    Object::UserData { metatable, .. } => *metatable,
                    _ => RawValue::Nil,
                }
            } else {
                RawValue::Nil
            },
            _ => RawValue::Nil,
        };
        let index_key = bytes_copy("__index".as_bytes());
        let name = bytes_copy(key.as_bytes());
        let h = find_name(&self.objects, mt, &index_key);
        let target = match h {
            RawValue::Table(_) => IndexOutcomeExec::Found(find_name(&self.objects, h, &name)),
            RawValue::Function(f) => {
                if f < self.objects.len() {
                    match &self.objects[f] {
                        Object::IndexChain { methods, fallback } => {
                            let found = find_name(&self.objects, *methods, &name);
                            if found != RawValue::Nil {
                                IndexOutcomeExec::Found(found)
                            } else {
                                IndexOutcomeExec::Handler(*fallback)
                            }
                        },
                        _ => IndexOutcomeExec::Handler(h),
                    }
                } else {
                    IndexOutcomeExec::Handler(h)
                }
            },
            _ => IndexOutcomeExec::Missing,
        };
        self.check_stack(2);
        match target {
            IndexOutcomeExec::Found(v) => {
                self.push_raw(v);
                let pinned = self.pop_value();
                proof {
                    assert(self.stack@ =~= old(self).stack@);
                    if v.object() is Some {
                        assert(old(self).registry@.submap_of(self.registry@));
                    }
                }
                Ok(IndexTarget::Found(pinned))
            },
            IndexOutcomeExec::Handler(v) => {
                self.push_raw(v);
                let f = Function(self.pop_ref());
                proof {
                    assert(self.stack@ =~= old(self).stack@);
                    assert(old(self).registry@.submap_of(self.registry@));
                }
                Ok(IndexTarget::Handler(f))
            },
            IndexOutcomeExec::Missing => Ok(IndexTarget::Missing),
        }
    }
}

/// `IndexOutcome` as computed, before its values are pinned.
enum IndexOutcomeExec {
    Found(RawValue),
    Handler(RawValue),
    Missing,
}

} // verus!
