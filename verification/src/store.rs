//! The document store: documents held per internal id.
//!
//! Internal ids are assigned sequentially, so the store is a sequence of
//! documents indexed by internal id.  Point lookup returns absence, not an
//! error, for an id that was never assigned; bulk lookup simply omits
//! missing ids.

use vstd::prelude::*;
use crate::value::{DocView, Document};

verus! {

/// The documents among `ids` that exist in `docs`, in the order `ids`
/// lists them, each paired with its id; missing ids are omitted.
pub open spec fn present(docs: Seq<DocView>, ids: Seq<u32>) -> Seq<(u32, DocView)>
    decreases ids.len(),
{
    if ids.len() == 0 {
        Seq::empty()
    } else {
        let p = present(docs, ids.drop_last());
        if (ids.last() as int) < docs.len() {
            p.push((ids.last(), docs[ids.last() as int]))
        } else {
            p
        }
    }
}

/// The document store.  Its model is the sequence of stored documents,
/// indexed by internal id.
pub struct DocStore {
    pub docs: Vec<Document>,
}

impl View for DocStore {
    type V = Seq<DocView>;

    open spec fn view(&self) -> Seq<DocView> {
        Seq::new(self.docs@.len(), |i: int| self.docs@[i]@)
    }
}

impl DocStore {
    /// An empty store.
    pub fn new() -> (r: Self)
        ensures
            r@ == Seq::<DocView>::empty(),
    {
        let r = DocStore { docs: Vec::new() };
        proof {
            assert(r@ =~= Seq::<DocView>::empty());
        }
        r
    }

    /// How many documents are stored.
    pub fn len(&self) -> (r: usize)
        ensures
            r == self@.len(),
    {
        self.docs.len()
    }

    /// Store `d` under the next internal id.
    pub fn append(&mut self, d: Document)
        ensures
            final(self)@ == old(self)@.push(d@),
    {
        let ghost pre = self@;
        let ghost dv = d@;
        self.docs.push(d);
        proof {
            assert(self@ =~= pre.push(dv));
        }
    }

    /// The document stored under `internal_id`, if any.
    pub fn get_one(&self, internal_id: u32) -> (r: Option<&Document>)
        ensures
            match r {
                Some(d) => internal_id < self@.len() && d@ == self@[internal_id as int],
                None => internal_id >= self@.len(),
            },
    {
        if (internal_id as usize) < self.docs.len() {
            Some(&self.docs[internal_id as usize])
        } else {
            None
        }
    }

    /// The documents stored under `ids`, in order, each paired with its
    /// id; ids that were never assigned are omitted rather than failing.
    pub fn get_many(&self, ids: &Vec<u32>) -> (r: Vec<(u32, Document)>)
        ensures
            Seq::new(r@.len(), |k: int| (r@[k].0, r@[k].1@)) == present(self@, ids@),
    {
        let mut r: Vec<(u32, Document)> = Vec::new();
        let mut i: usize = 0;
        while i < ids.len()
            invariant
                i <= ids.len(),
                Seq::new(r@.len(), |k: int| (r@[k].0, r@[k].1@)) == present(self@, ids@.take(i as int)),
            decreases ids.len() - i,
        {
            let ghost rpre = r@;
            let id = ids[i];
            if (id as usize) < self.docs.len() {
                r.push((id, self.docs[id as usize].clone()));
            }
            i += 1;
            proof {
                assert(ids@.take(i as int).drop_last() =~= ids@.take(i - 1));
                assert(Seq::new(r@.len(), |k: int| (r@[k].0, r@[k].1@)) =~= present(
                    self@,
                    ids@.take(i as int),
                ));
            }
        }
        proof {
            assert(ids@.take(ids@.len() as int) =~= ids@);
        }
        r
    }

    /// A copy of the store.
    pub fn duplicate(&self) -> (r: Self)
        ensures
            r@ == self@,
    {
        let mut docs: Vec<Document> = Vec::new();
        let mut i: usize = 0;
        while i < self.docs.len()
            invariant
                i <= self.docs.len(),
                docs@.len() == i,
                forall|j: int| 0 <= j < i ==> docs@[j]@ == self.docs@[j]@,
            decreases self.docs.len() - i,
        {
            docs.push(self.docs[i].clone());
            i += 1;
        }
        let r = DocStore { docs };
        proof {
            assert(r@ =~= self@);
        }
        r
    }
}

} // verus!
