//! The text index: an inverted index from normalized tokens to the
//! internal ids of the documents whose field values contain them.
//!
//! The model is the posting relation `has_posting`: which (token, id)
//! associations the index holds.  The entry order and the order inside a
//! posting list are representation details that no contract depends on.

use vstd::prelude::*;
use crate::tokenize::{bytes_eq, is_prefix, is_prefix_of};
use crate::value::copy_bytes;

verus! {

/// The model of the index: token entries paired with their posting lists.
pub type IndexView = Seq<(Seq<u8>, Seq<u32>)>;

/// The index associates token `t` with internal id `id`.
pub open spec fn has_posting(idx: IndexView, t: Seq<u8>, id: u32) -> bool {
    exists|e: int| 0 <= e < idx.len() && idx[e].0 == t && idx[e].1.contains(id)
}

/// Some token of the index starting with `q` is associated with `id`.
pub open spec fn prefix_hit(idx: IndexView, q: Seq<u8>, id: u32) -> bool {
    exists|t: Seq<u8>| is_prefix_of(q, t) && has_posting(idx, t, id)
}

/// The index holds a posting exactly for each token of each document of
/// `docs`: no token association is missing, and none dangles.
pub open spec fn index_exact(idx: IndexView, docs: Seq<crate::value::DocView>) -> bool {
    forall|t: Seq<u8>, j: u32|
        has_posting(idx, t, j) == ((j as int) < docs.len() && crate::rank::doc_has_token(
            docs[j as int],
            t,
        ))
}

/// Mark, in `matched`, every id that `posting` lists; already marked ids
/// stay marked.
fn mark_all(matched: &mut Vec<bool>, posting: &Vec<u32>)
    requires
        forall|m: int| 0 <= m < posting@.len() ==> (posting@[m] as int) < old(matched)@.len(),
        old(matched)@.len() <= u32::MAX,
    ensures
        final(matched)@.len() == old(matched)@.len(),
        forall|id: int|
            0 <= id < old(matched)@.len() ==> final(matched)@[id] == (old(matched)@[id]
                || posting@.contains(id as u32)),
{
    let mut k: usize = 0;
    while k < posting.len()
        invariant
            forall|m: int| 0 <= m < posting@.len() ==> (posting@[m] as int) < old(matched)@.len(),
            old(matched)@.len() <= u32::MAX,
            k <= posting@.len(),
            matched@.len() == old(matched)@.len(),
            forall|id: int|
                0 <= id < matched@.len() ==> matched@[id] == (old(matched)@[id] || exists|m: int|
                    0 <= m < k && posting@[m] == id as u32),
        decreases posting.len() - k,
    {
        let id = posting[k];
        let ghost mk = matched@;
        matched.set(id as usize, true);
        k += 1;
        proof {
            assert forall|i: int| 0 <= i < matched@.len() implies matched@[i] == (old(matched)@[i]
                || exists|m: int| 0 <= m < k && posting@[m] == i as u32) by {
                if i == id as int {
                    assert(posting@[k - 1] == i as u32);
                } else {
                    if mk[i] && !old(matched)@[i] {
                        let m = choose|m: int| 0 <= m < k - 1 && posting@[m] == i as u32;
                        assert(0 <= m < k && posting@[m] == i as u32);
                    }
                    if !mk[i] {
                        if exists|m: int| 0 <= m < k && posting@[m] == i as u32 {
                            let m = choose|m: int| 0 <= m < k && posting@[m] == i as u32;
                            assert(m == k - 1);
                            assert(i == id as int);
                        }
                    }
                }
            }
        }
    }
    proof {
        assert forall|id: int| 0 <= id < matched@.len() implies matched@[id] == (old(matched)@[id]
            || posting@.contains(id as u32)) by {
            if matched@[id] && !old(matched)@[id] {
                let m = choose|m: int| 0 <= m < posting@.len() && posting@[m] == id as u32;
                assert(posting@.contains(id as u32));
            }
            if posting@.contains(id as u32) {
                let m = choose|m: int| 0 <= m < posting@.len() && posting@[m] == id as u32;
                assert(matched@[id]);
            }
        }
    }
}

/// The text index.
pub struct TextIndex {
    pub entries: Vec<(Vec<u8>, Vec<u32>)>,
}

impl View for TextIndex {
    type V = IndexView;

    open spec fn view(&self) -> IndexView {
        Seq::new(self.entries@.len(), |i: int| (self.entries@[i].0@, self.entries@[i].1@))
    }
}

impl TextIndex {
    /// An empty index.
    pub fn new() -> (r: Self)
        ensures
            r@ == Seq::<(Seq<u8>, Seq<u32>)>::empty(),
    {
        let r = TextIndex { entries: Vec::new() };
        proof {
            assert(r@ =~= Seq::<(Seq<u8>, Seq<u32>)>::empty());
        }
        r
    }

    /// Add `internal_id` to the posting set of `tok`.  The association is
    /// added to the posting relation; every other association is kept.
    pub fn add_posting(&mut self, tok: &Vec<u8>, internal_id: u32)
        ensures
            forall|t: Seq<u8>, j: u32|
                has_posting(final(self)@, t, j) == (has_posting(old(self)@, t, j) || (t == tok@
                    && j == internal_id)),
    {
        let mut e: usize = 0;
        while e < self.entries.len()
            invariant
                *self == *old(self),
                e <= self.entries.len(),
            decreases self.entries.len() - e,
        {
            if bytes_eq(&self.entries[e].0, tok) {
                let mut k: usize = 0;
                let plen = self.entries[e].1.len();
                while k < plen
                    invariant
                        *self == *old(self),
                        e < self.entries.len(),
                        plen == self.entries@[e as int].1@.len(),
                        k <= plen,
                        self.entries@[e as int].0@ == tok@,
                        forall|m: int| 0 <= m < k ==> self.entries@[e as int].1@[m] != internal_id,
                    decreases plen - k,
                {
                    if self.entries[e].1[k] == internal_id {
                        proof {
                            assert(old(self)@[e as int].1[k as int] == internal_id);
                            assert(old(self)@[e as int].1.contains(internal_id));
                            assert(has_posting(old(self)@, tok@, internal_id));
                        }
                        return ;
                    }
                    k += 1;
                }
                let mut pair = self.entries.swap_remove(e);
                pair.1.push(internal_id);
                let ghost pv = (pair.0@, pair.1@);
                self.entries.push(pair);
                proof {
                    let post = self@;
                    let last = (post.len() - 1) as int;
                    assert(post[last] == pv);
                    assert(pv.1 == old(self)@[e as int].1.push(internal_id));
                    assert forall|t: Seq<u8>, j: u32| has_posting(post, t, j) implies (
                        has_posting(old(self)@, t, j) || (t == tok@ && j == internal_id)) by {
                        let w = choose|w: int|
                            0 <= w < post.len() && post[w].0 == t && post[w].1.contains(j);
                        if w == last {
                            if j != internal_id {
                                let m = choose|m: int| 0 <= m < pv.1.len() && pv.1[m] == j;
                                assert(old(self)@[e as int].1[m] == j);
                                assert(old(self)@[e as int].1.contains(j));
                                assert(has_posting(old(self)@, t, j));
                            }
                        } else if w == e as int {
                            assert(post[w] == old(self)@[old(self)@.len() - 1]);
                            assert(has_posting(old(self)@, t, j));
                        } else {
                            assert(post[w] == old(self)@[w]);
                            assert(has_posting(old(self)@, t, j));
                        }
                    }
                    assert forall|t: Seq<u8>, j: u32| has_posting(old(self)@, t, j) implies has_posting(
                        post,
                        t,
                        j,
                    ) by {
                        let w = choose|w: int|
                            0 <= w < old(self)@.len() && old(self)@[w].0 == t && old(self)@[w].1.contains(j);
                        if w == e as int {
                            let m = choose|m: int| 0 <= m < old(self)@[w].1.len() && old(self)@[w].1[m] == j;
                            assert(pv.1[m] == j);
                            assert(post[last].0 == t && post[last].1.contains(j));
                        } else if w == old(self)@.len() - 1 {
                            assert(post[e as int] == old(self)@[w]);
                        } else {
                            assert(post[w] == old(self)@[w]);
                        }
                    }
                    assert(pv.1[(pv.1.len() - 1) as int] == internal_id);
                    assert(post[last].1.contains(internal_id));
                    assert(has_posting(post, tok@, internal_id));
                }
                return ;
            }
            e += 1;
        }
        let mut posting: Vec<u32> = Vec::new();
        posting.push(internal_id);
        self.entries.push((copy_bytes(tok), posting));
        proof {
            let post = self@;
            let last = (post.len() - 1) as int;
            assert(post[last].0 == tok@);
            assert(post[last].1[0] == internal_id);
            assert(post[last].1.contains(internal_id));
            assert forall|t: Seq<u8>, j: u32| has_posting(post, t, j) implies (has_posting(
                old(self)@,
                t,
                j,
            ) || (t == tok@ && j == internal_id)) by {
                let w = choose|w: int| 0 <= w < post.len() && post[w].0 == t && post[w].1.contains(j);
                if w < last {
                    assert(post[w] == old(self)@[w]);
                    assert(has_posting(old(self)@, t, j));
                } else {
                    assert(post[w].1.len() == 1);
                    let m = choose|m: int| 0 <= m < post[w].1.len() && post[w].1[m] == j;
                    assert(j == internal_id);
                }
            }
            assert forall|t: Seq<u8>, j: u32| has_posting(old(self)@, t, j) implies has_posting(
                post,
                t,
                j,
            ) by {
                let w = choose|w: int| 0 <= w < old(self)@.len() && old(self)@[w].0 == t && old(self)@[w].1.contains(j);
                assert(post[w] == old(self)@[w]);
            }
            assert(has_posting(post, tok@, internal_id));
        }
    }

    /// Mark, in `matched`, every id that some index token starting with
    /// `q` is associated with; already marked ids stay marked.
    pub fn mark_matches(&self, q: &Vec<u8>, matched: &mut Vec<bool>)
        requires
            forall|t: Seq<u8>, j: u32| has_posting(self@, t, j) ==> (j as int) < old(
                matched,
            )@.len(),
            old(matched)@.len() <= u32::MAX,
        ensures
            final(matched)@.len() == old(matched)@.len(),
            forall|id: int|
                0 <= id < old(matched)@.len() ==> final(matched)@[id] == (old(matched)@[id]
                    || prefix_hit(self@, q@, id as u32)),
    {
        let mut e: usize = 0;
        while e < self.entries.len()
            invariant
                forall|t: Seq<u8>, j: u32| has_posting(self@, t, j) ==> (j as int) < old(
                    matched,
                )@.len(),
                old(matched)@.len() <= u32::MAX,
                e <= self.entries.len(),
                matched@.len() == old(matched)@.len(),
                forall|id: int|
                    0 <= id < matched@.len() ==> matched@[id] == (old(matched)@[id] || exists|w: int|
                        0 <= w < e && is_prefix_of(q@, self@[w].0) && self@[w].1.contains(
                            id as u32,
                        )),
            decreases self.entries.len() - e,
        {
            let ghost mpre = matched@;
            if is_prefix(q, &self.entries[e].0) {
                proof {
                    let ghost ei = e as int;
                    assert forall|m: int| 0 <= m < self@[ei].1.len() implies (self@[ei].1[m] as int)
                        < matched@.len() by {
                        assert(self@[e as int].1.contains(self@[e as int].1[m]));
                        assert(has_posting(self@, self@[e as int].0, self@[e as int].1[m]));
                    }
                }
                mark_all(matched, &self.entries[e].1);
                proof {
                    assert forall|id: int| 0 <= id < matched@.len() implies matched@[id] == (old(
                        matched,
                    )@[id] || exists|w: int|
                        0 <= w < e + 1 && is_prefix_of(q@, self@[w].0) && self@[w].1.contains(
                            id as u32,
                        )) by {
                        if matched@[id] {
                            if mpre[id] {
                                if !old(matched)@[id] {
                                    let w = choose|w: int|
                                        0 <= w < e && is_prefix_of(q@, self@[w].0)
                                            && self@[w].1.contains(id as u32);
                                    assert(0 <= w < e + 1 && is_prefix_of(q@, self@[w].0)
                                        && self@[w].1.contains(id as u32));
                                }
                            } else {
                                let w = e as int;
                                assert(0 <= w < e + 1 && is_prefix_of(q@, self@[w].0)
                                    && self@[w].1.contains(id as u32));
                            }
                        } else {
                            assert(!mpre[id]);
                            if exists|w: int|
                                0 <= w < e + 1 && is_prefix_of(q@, self@[w].0)
                                    && self@[w].1.contains(id as u32) {
                                let w = choose|w: int|
                                    0 <= w < e + 1 && is_prefix_of(q@, self@[w].0)
                                        && self@[w].1.contains(id as u32);
                                assert(w == e as int);
                                assert(matched@[id]);
                            }
                        }
                    }
                }
            } else {
                proof {
                    assert forall|id: int| 0 <= id < matched@.len() implies matched@[id] == (old(
                        matched,
                    )@[id] || exists|w: int|
                        0 <= w < e + 1 && is_prefix_of(q@, self@[w].0) && self@[w].1.contains(
                            id as u32,
                        )) by {
                        if !matched@[id] {
                            if exists|w: int|
                                0 <= w < e + 1 && is_prefix_of(q@, self@[w].0)
                                    && self@[w].1.contains(id as u32) {
                                let w = choose|w: int|
                                    0 <= w < e + 1 && is_prefix_of(q@, self@[w].0)
                                        && self@[w].1.contains(id as u32);
                                assert(0 <= w < e && is_prefix_of(q@, self@[w].0)
                                    && self@[w].1.contains(id as u32));
                            }
                        }
                    }
                }
            }
            e += 1;
        }
        proof {
            assert forall|id: int| 0 <= id < old(matched)@.len() implies matched@[id] == (old(
                matched,
            )@[id] || prefix_hit(self@, q@, id as u32)) by {
                if matched@[id] && !old(matched)@[id] {
                    let w = choose|w: int|
                        0 <= w < self@.len() && is_prefix_of(q@, self@[w].0) && self@[w].1.contains(
                            id as u32,
                        );
                    assert(has_posting(self@, self@[w].0, id as u32));
                    assert(prefix_hit(self@, q@, id as u32));
                }
                if !matched@[id] && prefix_hit(self@, q@, id as u32) {
                    let t = choose|t: Seq<u8>|
                        is_prefix_of(q@, t) && has_posting(self@, t, id as u32);
                    let w = choose|w: int|
                        0 <= w < self@.len() && self@[w].0 == t && self@[w].1.contains(id as u32);
                    assert(0 <= w < self@.len() && is_prefix_of(q@, self@[w].0)
                        && self@[w].1.contains(id as u32));
                    assert(matched@[id]);
                }
            }
        }
    }

    /// A copy of the index.
    pub fn duplicate(&self) -> (r: Self)
        ensures
            r@ == self@,
    {
        let mut entries: Vec<(Vec<u8>, Vec<u32>)> = Vec::new();
        let mut i: usize = 0;
        while i < self.entries.len()
            invariant
                i <= self.entries.len(),
                entries@.len() == i,
                forall|j: int| 0 <= j < i ==> entries@[j].0@ == self.entries@[j].0@
                    && entries@[j].1@ == self.entries@[j].1@,
            decreases self.entries.len() - i,
        {
            let (tok, posting) = &self.entries[i];
            let mut p: Vec<u32> = Vec::new();
            let mut k: usize = 0;
            while k < posting.len()
                invariant
                    k <= posting.len(),
                    p@ == posting@.take(k as int),
                decreases posting.len() - k,
            {
                p.push(posting[k]);
                k += 1;
                proof {
                    assert(posting@.take(k as int) =~= posting@.take(k - 1).push(
                        posting@[k - 1],
                    ));
                }
            }
            proof {
                assert(posting@.take(posting@.len() as int) =~= posting@);
            }
            entries.push((copy_bytes(tok), p));
            i += 1;
        }
        let r = TextIndex { entries };
        proof {
            assert(r@ =~= self@);
        }
        r
    }
}

} // verus!
