use vstd::prelude::*;
use crate::value::RawValue;

verus! {

/// The interpreter's registry: an arena of slots that pin values against
/// collection. A slot id is an index into the arena; released ids are kept on a
/// free list and handed out again, most recently released first.
pub struct Registry {
    pub slots: Vec<Option<RawValue>>,
    pub free: Vec<usize>,
}

impl Registry {
    /// Whether slot `id` currently pins a value.
    pub open spec fn live(&self, id: int) -> bool {
        0 <= id < self.slots@.len() && self.slots@[id].is_some()
    }

    /// The pinned values, by slot id.
    pub open spec fn view(&self) -> Map<int, RawValue> {
        Map::new(|id: int| self.live(id), |id: int| self.slots@[id].unwrap())
    }

    /// The free list holds each empty slot exactly once, and nothing else.
    pub open spec fn wf(&self) -> bool {
        &&& forall|i: int|
            0 <= i < self.free@.len() ==> {
                &&& (#[trigger] self.free@[i] as int) < self.slots@.len()
                &&& self.slots@[self.free@[i] as int].is_none()
            }
        &&& forall|i: int, j: int|
            0 <= i < j < self.free@.len() ==> #[trigger] self.free@[i] != #[trigger] self.free@[j]
        &&& forall|id: int|
            0 <= id < self.slots@.len() && #[trigger] self.slots@[id].is_none()
                ==> self.free@.contains(id as usize)
    }

    /// The value slot `id` pins, or nil.
    pub open spec fn get_spec(&self, id: int) -> RawValue {
        if self.live(id) {
            self@[id]
        } else {
            RawValue::Nil
        }
    }

    /// How many slots pin a value.
    pub open spec fn live_count(&self) -> int {
        self.slots@.len() - self.free@.len()
    }

    pub fn new() -> (r: Registry)
        ensures
            r.wf(),
            r@ == Map::<int, RawValue>::empty(),
            r.live_count() == 0,
    {
        let r = Registry { slots: Vec::new(), free: Vec::new() };
        assert(r@ =~= Map::<int, RawValue>::empty());
        r
    }

    /// Pins `v` in a fresh slot and returns the slot id.
    pub fn reference(&mut self, v: RawValue) -> (id: usize)
        requires
            old(self).wf(),
        ensures
            final(self).wf(),
            !old(self).live(id as int),
            final(self)@ == old(self)@.insert(id as int, v),
            forall|k: int| #[trigger] old(self).live(k) ==> final(self).live(k) && final(self)@[k] == old(self)@[k],
            final(self).live_count() == old(self).live_count() + 1,
            final(self).slots@.len() <= old(self).slots@.len() + 1,
    {
        match self.free.pop() {
            Some(id) => {
                proof {
                    let n = old(self).free@.len() as int;
                    assert(old(self).free@[n - 1] == id);
                }
                self.slots.set(id, Some(v));
                let count: usize = self.slots.len();
                proof {
                    assert(self.slots@.len() == count);
                    let n = old(self).free@.len() as int;
                    assert(self.free@ =~= old(self).free@.subrange(0, n - 1));
                    assert forall|i: int| 0 <= i < self.free@.len() implies self.free@[i] != id by {
                        assert(old(self).free@[i] != old(self).free@[n - 1]);
                    }
                    assert forall|k: int|
                        0 <= k < self.slots@.len() && #[trigger] self.slots@[k].is_none()
                            implies self.free@.contains(k as usize) by {
                        assert(k != id as int);
                        assert(old(self).slots@[k].is_none());
                        assert(old(self).free@.contains(k as usize));
                        let j = choose|j: int| 0 <= j < n && old(self).free@[j] == k as usize;
                        assert(j != n - 1);
                        assert(self.free@[j] == k as usize);
                    }
                    assert(self@ =~= old(self)@.insert(id as int, v));
                }
                id
            },
            None => {
                let id = self.slots.len();
                self.slots.push(Some(v));
                proof {
                    assert(self.free@ =~= old(self).free@);
                    assert forall|k: int|
                        0 <= k < self.slots@.len() && #[trigger] self.slots@[k].is_none()
                            implies self.free@.contains(k as usize) by {
                        assert(k < id as int);
                        assert(old(self).slots@[k].is_none());
                    }
                    assert(self@ =~= old(self)@.insert(id as int, v));
                }
                id
            },
        }
    }

    /// The value pinned in slot `id`, or nil where the slot pins nothing.
    pub fn get(&self, id: usize) -> (r: RawValue)
        ensures
            r == self.get_spec(id as int),
    {
        if id < self.slots.len() {
            match self.slots[id] {
                Some(v) => v,
                None => RawValue::Nil,
            }
        } else {
            RawValue::Nil
        }
    }

    /// Releases slot `id`; a slot that pins nothing is left as it is.
    pub fn unref(&mut self, id: usize)
        requires
            old(self).wf(),
        ensures
            final(self).wf(),
            final(self)@ == old(self)@.remove(id as int),
            forall|k: int| k != id && #[trigger] old(self).live(k) ==> final(self).live(k) && final(self)@[k] == old(self)@[k],
            final(self).slots@.len() == old(self).slots@.len(),
            old(self).live(id as int) ==> final(self).live_count() == old(self).live_count() - 1,
            !old(self).live(id as int) ==> *final(self) == *old(self),
    {
        if id < self.slots.len() && self.slots[id].is_some() {
            proof {
                assert forall|i: int| 0 <= i < old(self).free@.len() implies old(self).free@[i] != id by {}
            }
            self.slots.set(id, None);
            self.free.push(id);
            proof {
                let n = old(self).free@.len() as int;
                assert forall|i: int, j: int|
                    0 <= i < j < self.free@.len() implies #[trigger] self.free@[i] != #[trigger] self.free@[j] by {
                    if j == n {
                        assert(old(self).free@[i] != id);
                    }
                }
                assert forall|k: int|
                    0 <= k < self.slots@.len() && #[trigger] self.slots@[k].is_none()
                        implies self.free@.contains(k as usize) by {
                    if k == id as int {
                        assert(self.free@[n] == id);
                    } else {
                        assert(old(self).free@.contains(k as usize));
                        let j = choose|j: int| 0 <= j < n && old(self).free@[j] == k as usize;
                        assert(self.free@[j] == k as usize);
                    }
                }
                assert(self@ =~= old(self)@.remove(id as int));
            }
        } else {
            proof {
                assert(old(self)@.remove(id as int) =~= old(self)@);
            }
        }
    }
}

/// A pinned value stays pinned, unchanged, while another value is pinned; once
/// its slot is released it is pinned no more, and every other slot keeps what
/// it pinned.
pub proof fn pin_lifetime(r0: Registry, r1: Registry, r2: Registry, id: int, other: int, v: RawValue)
    requires
        r0.live(id),
        !r0.live(other),
        r1@ == r0@.insert(other, v),
        r2@ == r1@.remove(id),
    ensures
        r1.live(id),
        r1@[id] == r0@[id],
        !r2.live(id),
        forall|k: int| k != id ==> #[trigger] r2.get_spec(k) == r1.get_spec(k),
{
    assert(r0@.contains_key(id));
    assert(r1@.contains_key(id));
    assert(!r2@.contains_key(id));
    assert forall|k: int| k != id implies #[trigger] r2.get_spec(k) == r1.get_spec(k) by {
        if r1.live(k) {
            assert(r1@.contains_key(k));
            assert(r2@.contains_key(k));
        } else {
            assert(!r1@.contains_key(k));
            assert(!r2@.contains_key(k));
        }
    }
}

} // verus!
