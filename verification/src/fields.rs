//! The field dictionary: field names mapped to stable numeric field ids.
//!
//! A name receives the next unused id the first time it is seen; ids are
//! never reused or reassigned, so the dictionary only ever grows by
//! appending.  The id of a name is its position in the list of names.

use vstd::prelude::*;
use crate::errors::DbError;
use crate::tokenize::bytes_eq;
use crate::value::copy_bytes;

verus! {

/// The dictionary that grows out of `d` when the names `ns` are interned
/// in order: a name already present leaves the dictionary unchanged, a
/// fresh one is appended.
pub open spec fn dict_after(d: Seq<Seq<u8>>, ns: Seq<Seq<u8>>) -> Seq<Seq<u8>>
    decreases ns.len(),
{
    if ns.len() == 0 {
        d
    } else {
        let p = dict_after(d, ns.drop_last());
        if p.contains(ns.last()) {
            p
        } else {
            p.push(ns.last())
        }
    }
}

/// Interning never removes or reorders names: the old dictionary stays a
/// prefix of the new one, and it grows by at most one entry per name.
pub proof fn lemma_dict_after_extends(d: Seq<Seq<u8>>, ns: Seq<Seq<u8>>)
    ensures
        d.len() <= dict_after(d, ns).len() <= d.len() + ns.len(),
        forall|i: int| 0 <= i < d.len() ==> dict_after(d, ns)[i] == d[i],
    decreases ns.len(),
{
    if ns.len() > 0 {
        lemma_dict_after_extends(d, ns.drop_last());
    }
}

/// Every interned name is present in the grown dictionary.
pub proof fn lemma_dict_after_contains(d: Seq<Seq<u8>>, ns: Seq<Seq<u8>>, k: int)
    requires
        0 <= k < ns.len(),
    ensures
        dict_after(d, ns).contains(ns[k]),
    decreases ns.len(),
{
    if k == ns.len() - 1 {
        let p = dict_after(d, ns.drop_last());
        if p.contains(ns.last()) {
            let i = choose|i: int| 0 <= i < p.len() && p[i] == ns.last();
            lemma_dict_after_step_extends(d, ns);
            assert(dict_after(d, ns)[i] == ns[k]);
        } else {
            assert(dict_after(d, ns)[p.len() as int] == ns[k]);
        }
    } else {
        lemma_dict_after_contains(d, ns.drop_last(), k);
        lemma_dict_after_step_extends(d, ns);
        let p = dict_after(d, ns.drop_last());
        let i = choose|i: int| 0 <= i < p.len() && p[i] == ns[k];
        assert(dict_after(d, ns)[i] == ns[k]);
    }
}

/// One interning step keeps the previous dictionary as a prefix.
proof fn lemma_dict_after_step_extends(d: Seq<Seq<u8>>, ns: Seq<Seq<u8>>)
    requires
        ns.len() > 0,
    ensures
        dict_after(d, ns.drop_last()).len() <= dict_after(d, ns).len(),
        forall|i: int| 0 <= i < dict_after(d, ns.drop_last()).len()
            ==> dict_after(d, ns)[i] == dict_after(d, ns.drop_last())[i],
{
}

/// Interning keeps distinctness of the names.
pub proof fn lemma_dict_after_distinct(d: Seq<Seq<u8>>, ns: Seq<Seq<u8>>)
    requires
        forall|i: int, j: int| 0 <= i < j < d.len() ==> d[i] != d[j],
    ensures
        forall|i: int, j: int|
            0 <= i < j < dict_after(d, ns).len() ==> dict_after(d, ns)[i] != dict_after(d, ns)[j],
    decreases ns.len(),
{
    if ns.len() > 0 {
        lemma_dict_after_distinct(d, ns.drop_last());
        let p = dict_after(d, ns.drop_last());
        if !p.contains(ns.last()) {
            assert forall|i: int, j: int| 0 <= i < j < p.push(ns.last()).len()
                implies p.push(ns.last())[i] != p.push(ns.last())[j] by {
                if j == p.len() as int {
                    assert(p[i] == p.push(ns.last())[i]);
                    if p.push(ns.last())[i] == ns.last() {
                        assert(p.contains(ns.last()));
                    }
                }
            }
        }
    }
}

/// The field dictionary.  Its model is the sequence of names in id order.
pub struct FieldDict {
    pub names: Vec<Vec<u8>>,
}

impl View for FieldDict {
    type V = Seq<Seq<u8>>;

    open spec fn view(&self) -> Seq<Seq<u8>> {
        Seq::new(self.names@.len(), |i: int| self.names@[i]@)
    }
}

impl FieldDict {
    /// Names are pairwise distinct, so each maps to exactly one id.
    pub open spec fn wf(&self) -> bool {
        forall|i: int, j: int| 0 <= i < j < self@.len() ==> self@[i] != self@[j]
    }

    /// An empty dictionary.
    pub fn new() -> (r: Self)
        ensures
            r@ == Seq::<Seq<u8>>::empty(),
            r.wf(),
    {
        let r = FieldDict { names: Vec::new() };
        proof {
            assert(r@ =~= Seq::<Seq<u8>>::empty());
        }
        r
    }

    /// The id of `name`: the existing one if `name` was seen before,
    /// otherwise the next unused id, which is recorded.
    pub fn id_for(&mut self, name: &Vec<u8>) -> (id: u32)
        requires
            old(self).wf(),
            old(self)@.len() < u32::MAX,
        ensures
            final(self).wf(),
            id < final(self)@.len(),
            final(self)@[id as int] == name@,
            old(self)@.contains(name@) ==> final(self)@ == old(self)@,
            !old(self)@.contains(name@) ==> final(self)@ == old(self)@.push(name@)
                && id == old(self)@.len(),
    {
        let mut i: usize = 0;
        while i < self.names.len()
            invariant
                *self == *old(self),
                self.wf(),
                self@.len() < u32::MAX,
                i <= self.names.len(),
                forall|j: int| 0 <= j < i ==> self@[j] != name@,
            decreases self.names.len() - i,
        {
            if bytes_eq(&self.names[i], name) {
                return i as u32;
            }
            i += 1;
        }
        proof {
            if self@.contains(name@) {
                let j = choose|j: int| 0 <= j < self@.len() && self@[j] == name@;
                assert(self@[j] != name@);
            }
        }
        let ghost pre = self@;
        let id = self.names.len() as u32;
        self.names.push(copy_bytes(name));
        proof {
            assert(self@ =~= pre.push(name@));
        }
        id
    }

    /// A copy of the dictionary.
    pub fn duplicate(&self) -> (r: Self)
        ensures
            r@ == self@,
    {
        let mut names: Vec<Vec<u8>> = Vec::new();
        let mut i: usize = 0;
        while i < self.names.len()
            invariant
                i <= self.names.len(),
                names@.len() == i,
                forall|j: int| 0 <= j < i ==> names@[j]@ == self.names@[j]@,
            decreases self.names.len() - i,
        {
            names.push(copy_bytes(&self.names[i]));
            i += 1;
        }
        let r = FieldDict { names };
        proof {
            assert(r@ =~= self@);
        }
        r
    }

    /// The name that `id` was allocated for; `UnknownFieldId` if `id` was
    /// never allocated.
    pub fn name_for(&self, id: u32) -> (r: Result<&Vec<u8>, DbError>)
        ensures
            match r {
                Ok(name) => id < self@.len() && name@ == self@[id as int],
                Err(e) => e == DbError::UnknownFieldId && id >= self@.len(),
            },
    {
        if (id as usize) < self.names.len() {
            Ok(&self.names[id as usize])
        } else {
            Err(DbError::UnknownFieldId)
        }
    }
}

} // verus!
