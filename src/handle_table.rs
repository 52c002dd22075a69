//! A dense table that maps small integer handles to slots.
//!
//! Handles stay valid until they are removed, are never shifted by other
//! operations, and are reused after removal.
use vstd::prelude::*;

verus! {

/// A small integer naming a slot of a `HandleTable`.
#[derive(Clone, Copy, PartialEq, Eq, Structural, Debug)]
pub struct Handle {
    pub val: usize,
}

pub struct HandleTable<T> {
    slots: Vec<Option<T>>,
    free: Vec<usize>,
}

impl<T> View for HandleTable<T> {
    type V = Map<usize, T>;

    /// The live handles and the values they name.
    closed spec fn view(&self) -> Map<usize, T> {
        Map::new(
            |i: usize| i < self.slots.len() && self.slots[i as int] is Some,
            |i: usize| self.slots[i as int]->Some_0,
        )
    }
}

impl<T> HandleTable<T> {
    /// Every released slot is empty and listed once.
    pub closed spec fn wf(&self) -> bool {
        &&& forall|j: int| 0 <= j < self.free.len() ==> {
            &&& (#[trigger] self.free[j]) < self.slots.len()
            &&& self.slots[self.free[j] as int] is None
        }
        &&& forall|j: int, k: int|
            0 <= j < self.free.len() && 0 <= k < self.free.len() && j != k
                ==> self.free[j] != self.free[k]
    }

    pub fn new() -> (r: HandleTable<T>)
        ensures
            r.wf(),
            r@ == Map::<usize, T>::empty(),
    {
        let r = HandleTable { slots: Vec::new(), free: Vec::new() };
        assert(r@ =~= Map::<usize, T>::empty());
        r
    }

    /// Stores `value` in a free slot and returns its handle.
    pub fn push(&mut self, value: T) -> (h: Handle)
        requires
            old(self).wf(),
        ensures
            final(self).wf(),
            !old(self)@.contains_key(h.val),
            final(self)@ == old(self)@.insert(h.val, value),
    {
        match self.free.pop() {
            Some(i) => {
                proof {
                    assert(old(self).free[old(self).free.len() - 1] == i);
                }
                self.slots.set(i, Some(value));
                proof {
                    assert forall|j: int| 0 <= j < self.free.len() implies {
                        &&& (#[trigger] self.free[j]) < self.slots.len()
                        &&& self.slots[self.free[j] as int] is None
                    } by {
                        assert(self.free[j] == old(self).free[j]);
                        assert(self.free[j] != old(self).free[old(self).free.len() - 1]);
                    }
                    assert(forall|j: int, k: int|
                        0 <= j < self.free.len() && 0 <= k < self.free.len() && j != k
                            ==> old(self).free[j] != old(self).free[k]);
                    assert(self@ =~= old(self)@.insert(i, value));
                }
                Handle { val: i }
            },
            None => {
                let i = self.slots.len();
                self.slots.push(Some(value));
                proof {
                    assert(self@ =~= old(self)@.insert(i, value));
                }
                Handle { val: i }
            },
        }
    }

    /// Releases the slot of `h`, which becomes free for reuse.
    pub fn remove(&mut self, h: Handle) -> (v: T)
        requires
            old(self).wf(),
            old(self)@.contains_key(h.val),
        ensures
            final(self).wf(),
            v == old(self)@[h.val],
            final(self)@ == old(self)@.remove(h.val),
    {
        let mut slot: Option<T> = None;
        std::mem::swap(&mut slot, &mut self.slots[h.val]);
        self.free.push(h.val);
        proof {
            assert forall|j: int| 0 <= j < self.free.len() implies {
                &&& (#[trigger] self.free[j]) < self.slots.len()
                &&& self.slots[self.free[j] as int] is None
            } by {
                if j < old(self).free.len() {
                    assert(self.free[j] == old(self).free[j]);
                }
            }
            assert forall|j: int, k: int|
                0 <= j < self.free.len() && 0 <= k < self.free.len() && j != k
                    implies self.free[j] != self.free[k] by {
                if j < old(self).free.len() && k < old(self).free.len() {
                    assert(self.free[j] == old(self).free[j]);
                    assert(self.free[k] == old(self).free[k]);
                } else if j < old(self).free.len() {
                    assert(old(self).slots[old(self).free[j] as int] is None);
                } else if k < old(self).free.len() {
                    assert(old(self).slots[old(self).free[k] as int] is None);
                }
            }
            assert(self@ =~= old(self)@.remove(h.val));
        }
        match slot {
            Some(v) => v,
            None => {
                proof {
                    assert(false);
                }
                slot.unwrap()
            },
        }
    }

    pub fn contains(&self, h: Handle) -> (r: bool)
        ensures
            r == self@.contains_key(h.val),
    {
        h.val < self.slots.len() && self.slots[h.val].is_some()
    }

    pub fn get(&self, h: Handle) -> (r: &T)
        requires
            self@.contains_key(h.val),
        ensures
            *r == self@[h.val],
    {
        self.slots[h.val].as_ref().unwrap()
    }

    /// Replaces the value of a live handle.
    pub fn set(&mut self, h: Handle, value: T)
        requires
            old(self).wf(),
            old(self)@.contains_key(h.val),
        ensures
            final(self).wf(),
            final(self)@ == old(self)@.insert(h.val, value),
    {
        self.slots.set(h.val, Some(value));
        proof {
            assert forall|j: int| 0 <= j < self.free.len() implies {
                &&& (#[trigger] self.free[j]) < self.slots.len()
                &&& self.slots[self.free[j] as int] is None
            } by {
                assert(old(self).slots[old(self).free[j] as int] is None);
            }
            assert(self@ =~= old(self)@.insert(h.val, value));
        }
    }
}

} // verus!
