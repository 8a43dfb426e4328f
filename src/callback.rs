use vstd::prelude::*;
use crate::error::Error;
use crate::heap::Object;
use crate::lua::{Lua, MAX_STACK};
use crate::value::{RawValue, LuaRef, Function, Thread, Value};

verus! {

/// A callback invocation in progress: the callback object, the host closure it
/// carries, and the arguments it was called with, in call order.
#[derive(Debug)]
pub struct CallFrame {
    pub func: usize,
    pub payload: u64,
    pub args: Vec<Value>,
}

/// The interpreter values that `vals` stand for in `l`.
pub open spec fn raws_of(l: Lua, vals: Seq<Value>) -> Seq<RawValue> {
    Seq::new(vals.len(), |i: int| l.raw_of(vals[i]))
}

impl Lua {
    /// The callback object a handle stands for, if it stands for one.
    pub open spec fn callback_obj(&self, r: LuaRef) -> Option<int> {
        match self.ref_value(r) {
            RawValue::Function(o) => if (o as int) < self.objects@.len() && self.objects@[o as int] is Callback {
                Some(o as int)
            } else {
                None
            },
            _ => None,
        }
    }

    /// Whether object `o` is a callback whose closure is still attached.
    pub open spec fn callback_attached(&self, o: int) -> bool {
        0 <= o < self.objects@.len() && (self.objects@[o] matches Object::Callback { payload, .. } && payload is Some)
    }

    /// Whether object `o` is a mutable callback that is running.
    pub open spec fn callback_running(&self, o: int) -> bool {
        0 <= o < self.objects@.len() && (self.objects@[o] matches Object::Callback { exclusive, busy, .. } && exclusive && busy)
    }

    /// Whether the callback protocol runs callback object `o` when the
    /// interpreter calls it: its closure is attached and, if it is a mutable
    /// closure, not already running.
    pub open spec fn enter_admits(&self, o: int) -> bool {
        self.callback_attached(o) && !self.callback_running(o)
    }

    /// Creates a function that calls the host closure `payload`; `exclusive`
    /// marks a mutable closure, which refuses reentrant calls.
    fn create_callback_function(&mut self, payload: u64, exclusive: bool) -> (r: Result<Function, Error>)
        requires
            old(self).wf(),
            old(self).room(2),
        ensures
            final(self).wf(),
            r is Ok,
            final(self).objects@ == old(self).objects@.push(Object::Callback { payload: Some(payload), exclusive, busy: false }),
            final(self).ref_value(r->Ok_0.0) == RawValue::Function(old(self).objects@.len() as usize),
            final(self).callback_obj(r->Ok_0.0) == Some(old(self).objects@.len() as int),
            final(self).registry@.remove(r->Ok_0.0.registry_id as int) == old(self).registry@,
            r->Ok_0.0.main_id == old(self).main_id,
            r->Ok_0.0.drop_unref,
            !old(self).registry.live(r->Ok_0.0.registry_id as int),
            final(self).registry@ == old(self).registry@.insert(
                r->Ok_0.0.registry_id as int,
                RawValue::Function(old(self).objects@.len() as usize),
            ),
            final(self).registry.live_count() == old(self).registry.live_count() + 1,
            final(self).stack@ == old(self).stack@,
            final(self).same_bookkeeping(*old(self)),
    {
        self.check_stack(2);
        let o = self.new_object(Object::Callback { payload: Some(payload), exclusive, busy: false });
        self.push_raw(RawValue::Function(o));
        let f = Function(self.pop_ref());
        proof {
            assert(self.stack@ =~= old(self).stack@);
            assert(self.objects@[o as int] is Callback);
            assert(!old(self).registry@.contains_key(f.0.registry_id as int));
            assert(self.registry@.remove(f.0.registry_id as int) =~= old(self).registry@);
        }
        Ok(f)
    }

    /// Wraps the host closure `payload` as a callable function.
    pub fn create_function(&mut self, payload: u64) -> (r: Result<Function, Error>)
        requires
            old(self).wf(),
            old(self).room(2),
        ensures
            final(self).wf(),
            r is Ok,
            final(self).objects@ == old(self).objects@.push(Object::Callback { payload: Some(payload), exclusive: false, busy: false }),
            final(self).callback_obj(r->Ok_0.0) == Some(old(self).objects@.len() as int),
            r->Ok_0.0.main_id == old(self).main_id,
            r->Ok_0.0.drop_unref,
            !old(self).registry.live(r->Ok_0.0.registry_id as int),
            final(self).registry@.remove(r->Ok_0.0.registry_id as int) == old(self).registry@,
            final(self).registry.live_count() == old(self).registry.live_count() + 1,
            final(self).stack@ == old(self).stack@,
            final(self).same_bookkeeping(*old(self)),
    {
        self.create_callback_function(payload, false)
    }

    /// Wraps the mutable host closure `payload` as a callable function that
    /// refuses to be entered again while it runs.
    pub fn create_function_mut(&mut self, payload: u64) -> (r: Result<Function, Error>)
        requires
            old(self).wf(),
            old(self).room(2),
        ensures
            final(self).wf(),
            r is Ok,
            final(self).objects@ == old(self).objects@.push(Object::Callback { payload: Some(payload), exclusive: true, busy: false }),
            final(self).callback_obj(r->Ok_0.0) == Some(old(self).objects@.len() as int),
            r->Ok_0.0.main_id == old(self).main_id,
            r->Ok_0.0.drop_unref,
            !old(self).registry.live(r->Ok_0.0.registry_id as int),
            final(self).registry@.remove(r->Ok_0.0.registry_id as int) == old(self).registry@,
            final(self).registry.live_count() == old(self).registry.live_count() + 1,
            final(self).stack@ == old(self).stack@,
            final(self).same_bookkeeping(*old(self)),
    {
        self.create_callback_function(payload, true)
    }

    /// Marks callback object `o` running or not.
    fn set_busy(&mut self, o: usize, busy: bool)
        requires
            old(self).wf(),
            (o as int) < old(self).objects@.len(),
        ensures
            final(self).wf(),
            final(self).objects@ == (match old(self).objects@[o as int] {
                Object::Callback { payload, exclusive, .. } => old(self).objects@.update(
                    o as int,
                    Object::Callback { payload, exclusive, busy },
                ),
                _ => old(self).objects@,
            }),
            final(self).stack@ == old(self).stack@,
            final(self).budget == old(self).budget,
            final(self).registry == old(self).registry,
            final(self).same_bookkeeping(*old(self)),
    {
        let mut obj = Object::Finalizer;
        std::mem::swap(&mut obj, &mut self.objects[o]);
        match obj {
            Object::Callback { payload, exclusive, busy: _ } => {
                self.objects.set(o, Object::Callback { payload, exclusive, busy });
            },
            other => {
                self.objects.set(o, other);
            },
        }
        proof {
            assert(self.objects@ =~= (match old(self).objects@[o as int] {
                Object::Callback { payload, exclusive, .. } => old(self).objects@.update(
                    o as int,
                    Object::Callback { payload, exclusive, busy },
                ),
                _ => old(self).objects@,
            }));
        }
    }

    /// The interpreter calls function `f` with the `nargs` values on top of the
    /// stack. Fails if `f` comes from another root, if a scope has detached its
    /// closure, or if it is a mutable closure that is already running.
    /// Otherwise the arguments are taken off the stack in call order, a mutable
    /// closure is marked running, and the frame names the closure to run.
    pub fn callback_enter(&mut self, f: &Function, nargs: usize) -> (r: Result<CallFrame, Error>)
        requires
            old(self).wf(),
            nargs <= old(self).stack@.len(),
            f.0.main_id == old(self).main_id ==> old(self).callback_obj(f.0) is Some,
        ensures
            final(self).wf(),
            ({
                let o = old(self).callback_obj(f.0).unwrap();
                &&& (r is Err && r->Err_0 is ForeignValue) <==> f.0.main_id != old(self).main_id
                &&& (r is Err && r->Err_0 is CallbackDestructed)
                    <==> f.0.main_id == old(self).main_id && !old(self).callback_attached(o)
                &&& (r is Err && r->Err_0 is RecursiveMutCallback)
                    <==> f.0.main_id == old(self).main_id && old(self).callback_attached(o) && old(self).callback_running(o)
                &&& r is Ok <==> f.0.main_id == old(self).main_id && old(self).enter_admits(o)
                &&& r is Err ==> final(self).registry == old(self).registry && final(self).objects@ == old(self).objects@
                &&& r is Ok ==> {
                    &&& r->Ok_0.func == o
                    &&& (old(self).objects@[o] matches Object::Callback { payload, exclusive, .. } && ({
                        &&& Some(r->Ok_0.payload) == payload
                        &&& final(self).objects@ == old(self).objects@.update(
                            o,
                            Object::Callback { payload, exclusive, busy: exclusive },
                        )
                    }))
                    &&& raws_of(*final(self), r->Ok_0.args@)
                        == old(self).stack@.subrange(old(self).stack@.len() - nargs, old(self).stack@.len() as int)
                    &&& old(self).registry@.submap_of(final(self).registry@)
                }
            }),
            final(self).stack@ == old(self).stack@.subrange(0, old(self).stack@.len() - nargs),
            final(self).same_bookkeeping(*old(self)),
    {
        let ghost o = old(self).callback_obj(f.0).unwrap();
        let base = self.stack.len() - nargs;
        if f.0.main_id != self.main_id {
            self.settop(base);
            return Err(Error::ForeignValue);
        }
        let fo = match self.registry.get(f.0.registry_id) {
            RawValue::Function(fo) => fo,
            _ => 0,
        };
        assert(fo as int == o);
        let (attached, exclusive, busy) = match &self.objects[fo] {
            Object::Callback { payload, exclusive, busy } => (payload.is_some(), *exclusive, *busy),
            _ => (false, false, false),
        };
        if !attached {
            self.settop(base);
            return Err(Error::CallbackDestructed);
        }
        if exclusive && busy {
            self.settop(base);
            return Err(Error::RecursiveMutCallback);
        }
        let payload = match &self.objects[fo] {
            Object::Callback { payload: Some(p), .. } => *p,
            _ => 0,
        };
        self.set_busy(fo, exclusive);
        let ghost objs = self.objects@;
        assert(objs == old(self).objects@.update(o, Object::Callback { payload: Some(payload), exclusive, busy: exclusive }));
        let ghost top = old(self).stack@;
        let mut args: Vec<Value> = Vec::new();
        let mut k: usize = 0;
        while k < nargs
            invariant
                self.wf(),
                k <= nargs,
                base + nargs == top.len(),
                top == old(self).stack@,
                self.stack@ == top.subrange(0, top.len() - k),
                args@.len() == k,
                raws_of(*self, args@) == top.subrange(top.len() - k, top.len() as int),
                forall|i: int| 0 <= i < k && (#[trigger] args@[i]).handle() is Some
                    ==> self.registry.live(args@[i].handle().unwrap().registry_id as int),
                old(self).registry@.submap_of(self.registry@),
                self.objects@ == objs,
                self.same_bookkeeping(*old(self)),
                fo as int == o,
                o == old(self).callback_obj(f.0).unwrap(),
                f.0.main_id == old(self).main_id,
                old(self).callback_attached(o),
                !old(self).callback_running(o),
                old(self).objects@[o] matches Object::Callback { payload: p, exclusive: e, .. } && p == Some(payload) && e == exclusive,
                objs == old(self).objects@.update(o, Object::Callback { payload: Some(payload), exclusive, busy: exclusive }),
            decreases nargs - k,
        {
            let ghost prev = *self;
            let ghost prev_args = args@;
            let v = self.pop_value();
            proof {
                assert forall|i: int| 0 <= i < k implies self.raw_of(#[trigger] prev_args[i]) == prev.raw_of(prev_args[i]) by {
                    if prev_args[i].handle() is Some {
                        let id = prev_args[i].handle().unwrap().registry_id as int;
                        assert(prev.registry.live(id));
                        assert(prev.registry@.contains_key(id));
                        assert(self.registry@.contains_key(id));
                        assert(self.registry@[id] == prev.registry@[id]);
                        assert(self.registry.live(id));
                    }
                }
                if v.handle() is Some {
                    assert(self.registry@.contains_key(v.handle().unwrap().registry_id as int));
                }
            }
            args.insert(0, v);
            k = k + 1;
            proof {
                assert(raws_of(*self, args@) =~= top.subrange(top.len() - k, top.len() as int)) by {
                    assert forall|i: int| 0 <= i < k implies #[trigger] raws_of(*self, args@)[i]
                        == top.subrange(top.len() - k, top.len() as int)[i] by {
                        if i > 0 {
                            assert(args@[i] == prev_args[i - 1]);
                            assert(raws_of(prev, prev_args)[i - 1] == top.subrange(top.len() - (k - 1), top.len() as int)[i - 1]);
                        }
                    }
                }
                assert forall|i: int| 0 <= i < k && (#[trigger] args@[i]).handle() is Some
                    implies self.registry.live(args@[i].handle().unwrap().registry_id as int) by {
                    if i > 0 {
                        assert(args@[i] == prev_args[i - 1]);
                        let id = prev_args[i - 1].handle().unwrap().registry_id as int;
                        assert(prev.registry@.contains_key(id));
                        assert(self.registry@.contains_key(id));
                    } else {
                        assert(args@[0] == v);
                        assert(self.registry@.contains_key(v.handle().unwrap().registry_id as int));
                    }
                }
                assert(self.stack@ =~= top.subrange(0, top.len() - k));
            }
        }
        Ok(CallFrame { func: fo, payload, args })
    }

    /// The host closure of `frame` has returned `outcome`. A mutable closure
    /// stops running. On success its results are pushed for the caller, in
    /// order, and their count is returned; results from another root, or more
    /// than the stack can take, fail instead and push nothing.
    pub fn callback_exit(&mut self, func: usize, outcome: Result<Vec<Value>, Error>) -> (r: Result<usize, Error>)
        requires
            old(self).wf(),
            (func as int) < old(self).objects@.len(),
        ensures
            final(self).wf(),
            final(self).objects@ == (match old(self).objects@[func as int] {
                Object::Callback { payload, exclusive, .. } => old(self).objects@.update(
                    func as int,
                    Object::Callback { payload, exclusive, busy: false },
                ),
                _ => old(self).objects@,
            }),
            outcome is Err ==> r is Err && r->Err_0 == outcome->Err_0 && final(self).stack@ == old(self).stack@,
            outcome is Ok ==> {
                let res = outcome->Ok_0@;
                &&& r is Ok <==> old(self).room(res.len() as int)
                    && forall|i: int| 0 <= i < res.len() ==> old(self).accepts(#[trigger] res[i])
                &&& r is Ok ==> r->Ok_0 == res.len()
                    && final(self).stack@ == old(self).stack@ + raws_of(*old(self), res)
                &&& r is Err ==> final(self).stack@ == old(self).stack@
                &&& !old(self).room(res.len() as int) ==> r is Err && r->Err_0 is StackOverflow
            },
            final(self).registry == old(self).registry,
            final(self).same_bookkeeping(*old(self)),
    {
        self.set_busy(func, false);
        let results = match outcome {
            Ok(results) => results,
            Err(e) => return Err(e),
        };
        let base = self.stack.len();
        if results.len() > MAX_STACK - base {
            return Err(Error::StackOverflow);
        }
        self.check_stack(results.len());
        let ghost start = *self;
        let mut i: usize = 0;
        while i < results.len()
            invariant
                self.wf(),
                i <= results@.len(),
                base == old(self).stack@.len(),
                self.budget >= base + results@.len(),
                self.stack@ == old(self).stack@ + raws_of(*old(self), results@).subrange(0, i as int),
                self.registry == old(self).registry,
                self.objects@ == start.objects@,
                start.objects@ == (match old(self).objects@[func as int] {
                    Object::Callback { payload, exclusive, .. } => old(self).objects@.update(
                        func as int,
                        Object::Callback { payload, exclusive, busy: false },
                    ),
                    _ => old(self).objects@,
                }),
                base + results@.len() <= MAX_STACK,
                outcome is Ok,
                outcome->Ok_0@ == results@,
                self.same_bookkeeping(*old(self)),
                forall|j: int| 0 <= j < i ==> old(self).accepts(#[trigger] results@[j]),
            decreases results@.len() - i,
        {
            match self.push_value(&results[i]) {
                Ok(()) => {},
                Err(e) => {
                    assert(!old(self).accepts(results@[i as int]));
                    self.settop(base);
                    proof {
                        assert(self.stack@ =~= old(self).stack@);
                    }
                    return Err(e);
                },
            }
            i = i + 1;
            proof {
                assert(self.stack@ =~= old(self).stack@ + raws_of(*old(self), results@).subrange(0, i as int));
            }
        }
        proof {
            assert(raws_of(*old(self), results@).subrange(0, i as int) =~= raws_of(*old(self), results@));
        }
        Ok(results.len())
    }

    /// Wraps function `func` into a new coroutine.
    pub fn create_thread(&mut self, func: &Function) -> (r: Result<Thread, Error>)
        requires
            old(self).wf(),
            old(self).room(2),
        ensures
            final(self).wf(),
            r is Ok <==> func.0.main_id == old(self).main_id,
            r is Err ==> r->Err_0 is ForeignValue && *final(self) == *old(self),
            r is Ok ==> {
                &&& final(self).objects@ == old(self).objects@.push(Object::Thread { body: old(self).ref_value(func.0) })
                &&& final(self).ref_value(r->Ok_0.0) == RawValue::Thread(old(self).objects@.len() as usize)
                &&& r->Ok_0.0.main_id == old(self).main_id
                &&& !old(self).registry.live(r->Ok_0.0.registry_id as int)
                &&& final(self).registry@.remove(r->Ok_0.0.registry_id as int) == old(self).registry@
                &&& final(self).registry.live_count() == old(self).registry.live_count() + 1
            },
            final(self).stack@ == old(self).stack@,
            final(self).same_bookkeeping(*old(self)),
    {
        if func.0.main_id != self.main_id {
            return Err(Error::ForeignValue);
        }
        self.check_stack(2);
        let body = self.registry.get(func.0.registry_id);
        let o = self.new_object(Object::Thread { body });
        self.push_raw(RawValue::Thread(o));
        let t = Thread(self.pop_ref());
        proof {
            assert(self.stack@ =~= old(self).stack@);
            assert(self.registry@.remove(t.0.registry_id as int) =~= old(self).registry@);
        }
        Ok(t)
    }
}

/// A mutable callback that has been entered is running, and while it runs the
/// callback protocol refuses to enter it again: a reentrant call fails with
/// `RecursiveMutCallback` instead of borrowing its state twice.
pub proof fn mut_callback_refuses_reentry(during: Lua, o: int, payload: u64)
    requires
        0 <= o < during.objects@.len(),
        during.objects@[o] == (Object::Callback { payload: Some(payload), exclusive: true, busy: true }),
    ensures
        during.callback_attached(o),
        during.callback_running(o),
        !during.enter_admits(o),
{
}

} // verus!
