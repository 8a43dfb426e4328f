use vstd::prelude::*;
use vstd::string::StringSliceAdditionalSpecFns;
use crate::error::Error;
use crate::heap::bytes_copy;
use crate::lua::{Lua, named_lookup};
use crate::value::{RawValue, Value, kind_matches};

verus! {

/// A durable, explicitly keyed registry entry, usable through any instance that
/// shares the root it was minted on.
///
/// `owner` is the identity of that root's pending-release list. A key dropped
/// without explicit removal is handed to `Lua::drop_registry_key`, which queues
/// its slot for `Lua::expire_registry_values`.
#[derive(Debug)]
pub struct RegistryKey {
    pub registry_id: usize,
    pub owner: u64,
    pub drop_unref: bool,
}

/// A durable key minted by one instance is usable through another exactly when
/// the two share a root.
pub proof fn durable_key_shared_root(minter: &Lua, user: &Lua, key: &RegistryKey)
    requires
        key.owner == minter.main_id,
    ensures
        user.key_usable(key) <==> user.main_id == minter.main_id,
{
}

/// The slot ids among `ids`.
pub open spec fn id_set(ids: Seq<usize>) -> Set<int> {
    Set::new(|x: int| exists|j: int| 0 <= j < ids.len() && ids[j] as int == x)
}

/// Extending a prefix of `ids` by one adds that one id to its set.
pub proof fn lemma_id_set_step(ids: Seq<usize>, i: int)
    requires
        0 <= i < ids.len(),
    ensures
        id_set(ids.subrange(0, i + 1)) == id_set(ids.subrange(0, i)).insert(ids[i] as int),
{
    let a = ids.subrange(0, i);
    let b = ids.subrange(0, i + 1);
    assert forall|x: int| id_set(b).contains(x) implies id_set(a).insert(ids[i] as int).contains(x) by {
        let j = choose|j: int| 0 <= j < b.len() && b[j] as int == x;
        if j < i {
            assert(a[j] == b[j]);
        }
    }
    assert forall|x: int| id_set(a).insert(ids[i] as int).contains(x) implies id_set(b).contains(x) by {
        if x == ids[i] as int {
            assert(b[i] == ids[i]);
        } else {
            let j = choose|j: int| 0 <= j < a.len() && a[j] as int == x;
            assert(a[j] == b[j]);
        }
    }
    assert(id_set(b) =~= id_set(a).insert(ids[i] as int));
}

impl Lua {
    /// Whether `key` was minted on this instance's root.
    pub open spec fn key_usable(&self, key: &RegistryKey) -> bool {
        key.owner == self.main_id
    }

    /// Sets the registry entry named `name` to `t`; a nil `t` clears it.
    pub fn set_named_registry_value(&mut self, name: &str, t: &Value) -> (r: Result<(), Error>)
        requires
            old(self).wf(),
            old(self).room(5),
        ensures
            final(self).wf(),
            r is Ok <==> old(self).accepts(*t),
            r is Ok ==> forall|n: Seq<u8>|
                #[trigger] final(self).named_value(n) == if n == name.spec_bytes() {
                    old(self).raw_of(*t)
                } else {
                    old(self).named_value(n)
                },
            r is Err ==> final(self).named@ == old(self).named@,
            final(self).registry == old(self).registry,
            final(self).objects@ == old(self).objects@,
            final(self).stack@ == old(self).stack@,
            final(self).registered_userdata@ == old(self).registered_userdata@,
            final(self).pending_release@ == old(self).pending_release@,
            final(self).globals_slot == old(self).globals_slot,
            final(self).main_id == old(self).main_id,
            final(self).ephemeral == old(self).ephemeral,
    {
        self.check_stack(5);
        match self.push_value(t) {
            Ok(()) => {},
            Err(e) => return Err(e),
        }
        let v = self.pop_raw();
        let key = bytes_copy(name.as_bytes());
        let ghost k = key@;
        self.named.push((key, v));
        proof {
            assert forall|n: Seq<u8>|
                #[trigger] self.named_value(n) == if n == name.spec_bytes() {
                    old(self).raw_of(*t)
                } else {
                    old(self).named_value(n)
                } by {
                assert(self.named@.drop_last() =~= old(self).named@);
            }
        }
        Ok(())
    }

    /// The value of the registry entry named `name` (nil if unset).
    pub fn named_registry_value(&mut self, name: &str) -> (r: Result<Value, Error>)
        requires
            old(self).wf(),
            old(self).room(4),
        ensures
            final(self).wf(),
            r is Ok,
            final(self).raw_of(r->Ok_0) == old(self).named_value(name.spec_bytes()),
            kind_matches(r->Ok_0, old(self).named_value(name.spec_bytes())),
            r->Ok_0.handle() is Some ==> r->Ok_0.handle().unwrap().main_id == old(self).main_id,
            old(self).registry@.submap_of(final(self).registry@),
            final(self).objects@ == old(self).objects@,
            final(self).stack@ == old(self).stack@,
            final(self).same_bookkeeping(*old(self)),
    {
        self.check_stack(4);
        let key = bytes_copy(name.as_bytes());
        let v = self.named_get(&key);
        self.push_raw(v);
        let r = self.pop_value();
        proof {
            assert(self.stack@ =~= old(self).stack@);
            if v.object() is Some {
                assert(old(self).registry@.submap_of(self.registry@));
            } else {
                assert(self.registry == old(self).registry);
            }
        }
        Ok(r)
    }

    /// Looks a name up among the named registry entries.
    fn named_get(&self, key: &Vec<u8>) -> (r: RawValue)
        ensures
            r == named_lookup(self.named@, key@),
    {
        let mut i: usize = self.named.len();
        assert(self.named@.subrange(0, i as int) =~= self.named@);
        while i > 0
            invariant
                i <= self.named@.len(),
                named_lookup(self.named@, key@) == named_lookup(self.named@.subrange(0, i as int), key@),
            decreases i,
        {
            assert(self.named@.subrange(0, i as int).drop_last() =~= self.named@.subrange(0, i - 1));
            if crate::heap::bytes_eq(&self.named[i - 1].0, key) {
                return self.named[i - 1].1;
            }
            i = i - 1;
        }
        RawValue::Nil
    }

    /// Clears the registry entry named `name`.
    pub fn unset_named_registry_value(&mut self, name: &str) -> (r: Result<(), Error>)
        requires
            old(self).wf(),
            old(self).room(5),
        ensures
            final(self).wf(),
            r is Ok,
            forall|n: Seq<u8>|
                #[trigger] final(self).named_value(n) == if n == name.spec_bytes() {
                    RawValue::Nil
                } else {
                    old(self).named_value(n)
                },
            final(self).registry == old(self).registry,
            final(self).objects@ == old(self).objects@,
            final(self).stack@ == old(self).stack@,
            final(self).registered_userdata@ == old(self).registered_userdata@,
            final(self).pending_release@ == old(self).pending_release@,
            final(self).globals_slot == old(self).globals_slot,
            final(self).main_id == old(self).main_id,
            final(self).ephemeral == old(self).ephemeral,
    {
        self.set_named_registry_value(name, &Value::Nil)
    }

    /// Pins `t` in a fresh slot under a durable key of this root.
    pub fn create_registry_value(&mut self, t: &Value) -> (r: Result<RegistryKey, Error>)
        requires
            old(self).wf(),
            old(self).room(2),
        ensures
            final(self).wf(),
            r is Ok <==> old(self).accepts(*t),
            r is Ok ==> {
                let key = r->Ok_0;
                &&& key.owner == old(self).main_id
                &&& key.drop_unref
                &&& !old(self).registry.live(key.registry_id as int)
                &&& final(self).registry@ == old(self).registry@.insert(key.registry_id as int, old(self).raw_of(*t))
                &&& final(self).registry.live_count() == old(self).registry.live_count() + 1
            },
            r is Err ==> final(self).registry == old(self).registry,
            final(self).objects@ == old(self).objects@,
            final(self).stack@ == old(self).stack@,
            final(self).same_bookkeeping(*old(self)),
    {
        self.check_stack(2);
        match self.push_value(t) {
            Ok(()) => {},
            Err(e) => return Err(e),
        }
        let v = self.pop_raw();
        let id = self.registry.reference(v);
        Ok(RegistryKey { registry_id: id, owner: self.main_id, drop_unref: true })
    }

    /// The value a durable key pins; fails on a key of another root.
    pub fn registry_value(&mut self, key: &RegistryKey) -> (r: Result<Value, Error>)
        requires
            old(self).wf(),
            old(self).room(2),
        ensures
            final(self).wf(),
            r is Ok <==> old(self).key_usable(key),
            r is Err ==> r->Err_0 is MismatchedRegistryKey && *final(self) == *old(self),
            r is Ok ==> final(self).raw_of(r->Ok_0) == old(self).registry.get_spec(key.registry_id as int),
            r is Ok ==> kind_matches(r->Ok_0, old(self).registry.get_spec(key.registry_id as int)),
            r is Ok ==> old(self).registry@.submap_of(final(self).registry@),
            final(self).objects@ == old(self).objects@,
            final(self).stack@ == old(self).stack@,
            final(self).same_bookkeeping(*old(self)),
    {
        if key.owner != self.main_id {
            return Err(Error::MismatchedRegistryKey);
        }
        self.check_stack(2);
        let v = self.registry.get(key.registry_id);
        self.push_raw(v);
        let r = self.pop_value();
        proof {
            assert(self.stack@ =~= old(self).stack@);
        }
        Ok(r)
    }

    /// Releases the slot of a durable key now; fails on a key of another root.
    pub fn remove_registry_value(&mut self, key: RegistryKey) -> (r: Result<(), Error>)
        requires
            old(self).wf(),
        ensures
            final(self).wf(),
            r is Ok <==> old(self).key_usable(&key),
            r is Err ==> r->Err_0 is MismatchedRegistryKey && *final(self) == *old(self),
            r is Ok && key.registry_id != old(self).globals_slot
                ==> final(self).registry@ == old(self).registry@.remove(key.registry_id as int),
            r is Ok && key.registry_id != old(self).globals_slot && old(self).registry.live(key.registry_id as int)
                ==> final(self).registry.live_count() == old(self).registry.live_count() - 1,
            key.registry_id == old(self).globals_slot ==> final(self).registry == old(self).registry,
            final(self).objects@ == old(self).objects@,
            final(self).stack@ == old(self).stack@,
            final(self).same_bookkeeping(*old(self)),
    {
        if key.owner != self.main_id {
            return Err(Error::MismatchedRegistryKey);
        }
        if key.registry_id != self.globals_slot {
            self.registry.unref(key.registry_id);
        }
        Ok(())
    }

    /// Whether `key` was minted on this instance's root.
    pub fn owns_registry_value(&self, key: &RegistryKey) -> (r: bool)
        ensures
            r == self.key_usable(key),
    {
        key.owner == self.main_id
    }

    /// Queues the slot of a durable key that was dropped without removal; the
    /// registry itself is not touched until `expire_registry_values`.
    pub fn drop_registry_key(&mut self, key: RegistryKey) -> (r: Result<(), Error>)
        requires
            old(self).wf(),
        ensures
            final(self).wf(),
            r is Ok <==> old(self).key_usable(&key),
            r is Err ==> r->Err_0 is MismatchedRegistryKey && *final(self) == *old(self),
            r is Ok && key.drop_unref ==> final(self).pending_release@ == old(self).pending_release@.push(key.registry_id),
            r is Ok && !key.drop_unref ==> final(self).pending_release@ == old(self).pending_release@,
            final(self).registry == old(self).registry,
            final(self).objects@ == old(self).objects@,
            final(self).stack@ == old(self).stack@,
            final(self).named@ == old(self).named@,
            final(self).registered_userdata@ == old(self).registered_userdata@,
            final(self).globals_slot == old(self).globals_slot,
            final(self).main_id == old(self).main_id,
            final(self).ephemeral == old(self).ephemeral,
    {
        if key.owner != self.main_id {
            return Err(Error::MismatchedRegistryKey);
        }
        if key.drop_unref {
            self.pending_release.push(key.registry_id);
        }
        Ok(())
    }

    /// Releases every queued slot, but the slot of the global environment, and
    /// empties the queue.
    pub fn expire_registry_values(&mut self)
        requires
            old(self).wf(),
        ensures
            final(self).wf(),
            final(self).pending_release@.len() == 0,
            final(self).registry@ == old(self).registry@.remove_keys(
                id_set(old(self).pending_release@).remove(old(self).globals_slot as int),
            ),
            (forall|i: int, j: int| 0 <= i < j < old(self).pending_release@.len()
                ==> old(self).pending_release@[i] != old(self).pending_release@[j])
                && (forall|i: int| 0 <= i < old(self).pending_release@.len()
                ==> old(self).registry.live(#[trigger] old(self).pending_release@[i] as int)
                    && old(self).pending_release@[i] != old(self).globals_slot)
                ==> final(self).registry.live_count() == old(self).registry.live_count() - old(self).pending_release@.len(),
            final(self).objects@ == old(self).objects@,
            final(self).stack@ == old(self).stack@,
            final(self).named@ == old(self).named@,
            final(self).registered_userdata@ == old(self).registered_userdata@,
            final(self).globals_slot == old(self).globals_slot,
            final(self).main_id == old(self).main_id,
            final(self).ephemeral == old(self).ephemeral,
    {
        let mut list: Vec<usize> = Vec::new();
        std::mem::swap(&mut list, &mut self.pending_release);
        let ghost ids = list@;
        let ghost gs = self.globals_slot as int;
        let ghost distinct_live = (forall|i: int, j: int| 0 <= i < j < ids.len() ==> ids[i] != ids[j])
            && (forall|i: int| 0 <= i < ids.len() ==> old(self).registry.live(#[trigger] ids[i] as int)
                && ids[i] != old(self).globals_slot);
        let mut i: usize = 0;
        assert(id_set(ids.subrange(0, 0)).remove(gs) =~= Set::<int>::empty()) by {
            assert(ids.subrange(0, 0).len() == 0);
        }
        assert(old(self).registry@.remove_keys(Set::<int>::empty()) =~= old(self).registry@);
        while i < list.len()
            invariant
                self.wf(),
                list@ == ids,
                ids == old(self).pending_release@,
                gs == old(self).globals_slot as int,
                i <= ids.len(),
                self.pending_release@.len() == 0,
                self.registry@ == old(self).registry@.remove_keys(id_set(ids.subrange(0, i as int)).remove(gs)),
                distinct_live ==> self.registry.live_count() == old(self).registry.live_count() - i,
                distinct_live ==> (forall|i: int, j: int| 0 <= i < j < ids.len() ==> ids[i] != ids[j])
                    && (forall|i: int| 0 <= i < ids.len() ==> old(self).registry.live(#[trigger] ids[i] as int)
                        && ids[i] != old(self).globals_slot),
                self.objects@ == old(self).objects@,
                self.stack@ == old(self).stack@,
                self.budget == old(self).budget,
                self.named@ == old(self).named@,
                self.registered_userdata@ == old(self).registered_userdata@,
                self.globals_slot == old(self).globals_slot,
                self.main_id == old(self).main_id,
                self.ephemeral == old(self).ephemeral,
            decreases ids.len() - i,
        {
            let id = list[i];
            proof {
                lemma_id_set_step(ids, i as int);
                if distinct_live {
                    assert(old(self).registry@.contains_key(id as int));
                    assert forall|j: int| 0 <= j < i implies ids[j] != id by {
                        assert(ids[j] != ids[i as int]);
                    }
                    assert(!id_set(ids.subrange(0, i as int)).contains(id as int)) by {
                        if id_set(ids.subrange(0, i as int)).contains(id as int) {
                            let j = choose|j: int| 0 <= j < i && ids.subrange(0, i as int)[j] as int == id as int;
                            assert(ids[j] == id);
                        }
                    }
                    assert(self.registry@.contains_key(id as int));
                }
            }
            if id != self.globals_slot {
                self.registry.unref(id);
                proof {
                    assert(id_set(ids.subrange(0, i + 1)).remove(gs)
                        =~= id_set(ids.subrange(0, i as int)).remove(gs).insert(id as int));
                    assert(self.registry@ =~= old(self).registry@.remove_keys(id_set(ids.subrange(0, i + 1)).remove(gs)));
                }
            } else {
                proof {
                    assert(id_set(ids.subrange(0, i + 1)).remove(gs) =~= id_set(ids.subrange(0, i as int)).remove(gs));
                }
            }
            i = i + 1;
        }
        proof {
            assert(ids.subrange(0, ids.len() as int) =~= ids);
        }
    }
}

} // verus!
