//! The external-id map: the join point between caller-facing identity and
//! storage-facing identity.
//!
//! Internal ids are assigned sequentially from zero and never reused; the
//! internal id of an external id is its position in the registration
//! order, so the model is simply the sequence of registered external ids.

use vstd::prelude::*;
use crate::errors::DbError;

verus! {

/// The external-id map.  Its model is the sequence of registered external
/// ids, indexed by internal id.
pub struct ExtIdMap {
    pub ids: Vec<u64>,
}

impl View for ExtIdMap {
    type V = Seq<u64>;

    open spec fn view(&self) -> Seq<u64> {
        self.ids@
    }
}

impl ExtIdMap {
    /// External ids are pairwise distinct: each maps to at most one
    /// internal id.
    pub open spec fn wf(&self) -> bool {
        forall|i: int, j: int| 0 <= i < j < self@.len() ==> self@[i] != self@[j]
    }

    /// An empty map.
    pub fn new() -> (r: Self)
        ensures
            r@ == Seq::<u64>::empty(),
            r.wf(),
    {
        ExtIdMap { ids: Vec::new() }
    }

    /// The internal id registered for `external`, if any.  Pure lookup.
    pub fn resolve(&self, external: u64) -> (r: Option<u32>)
        requires
            self@.len() <= u32::MAX,
        ensures
            match r {
                Some(i) => i < self@.len() && self@[i as int] == external,
                None => !self@.contains(external),
            },
    {
        let mut i: usize = 0;
        while i < self.ids.len()
            invariant
                i <= self.ids.len(),
                self@.len() <= u32::MAX,
                forall|j: int| 0 <= j < i ==> self@[j] != external,
            decreases self.ids.len() - i,
        {
            if self.ids[i] == external {
                return Some(i as u32);
            }
            i += 1;
        }
        proof {
            if self@.contains(external) {
                let j = choose|j: int| 0 <= j < self@.len() && self@[j] == external;
                assert(self@[j] != external);
            }
        }
        None
    }

    /// Register `external` and hand back the freshly assigned internal id;
    /// fails with `DuplicateExternalId`, changing nothing, if `external`
    /// is already registered.
    pub fn register(&mut self, external: u64) -> (r: Result<u32, DbError>)
        requires
            old(self).wf(),
            old(self)@.len() < u32::MAX,
        ensures
            final(self).wf(),
            match r {
                Ok(i) => !old(self)@.contains(external)
                    && i == old(self)@.len()
                    && final(self)@ == old(self)@.push(external),
                Err(e) => e == DbError::DuplicateExternalId
                    && old(self)@.contains(external)
                    && *final(self) == *old(self),
            },
    {
        match self.resolve(external) {
            Some(i) => {
                proof {
                    assert(old(self)@[i as int] == external);
                    assert(old(self)@.contains(external));
                }
                Err(DbError::DuplicateExternalId)
            },
            None => {
                let i = self.ids.len() as u32;
                self.ids.push(external);
                proof {
                    assert forall|a: int, b: int| 0 <= a < b < self@.len()
                        implies self@[a] != self@[b] by {
                        if b == self@.len() - 1 {
                            assert(old(self)@.contains(self@[a]));
                        }
                    }
                }
                Ok(i)
            },
        }
    }

    /// A copy of the map.
    pub fn duplicate(&self) -> (r: Self)
        ensures
            r@ == self@,
    {
        let mut ids: Vec<u64> = Vec::new();
        let mut i: usize = 0;
        while i < self.ids.len()
            invariant
                i <= self.ids.len(),
                ids@ == self.ids@.take(i as int),
            decreases self.ids.len() - i,
        {
            ids.push(self.ids[i]);
            i += 1;
            proof {
                assert(self.ids@.take(i as int) =~= self.ids@.take(i - 1).push(self.ids@[i - 1]));
            }
        }
        proof {
            assert(self.ids@.take(self.ids@.len() as int) =~= self.ids@);
        }
        ExtIdMap { ids }
    }
}

} // verus!
